//! The string table of a file that is written.
use vstd::prelude::*;
use crate::bytes;
use crate::hash_index;
use crate::hash_index::{hash_bytes, NumberIndex};
use crate::model::same_bytes;

verus! {

/// The bytes of a string table: the strings one after the other, each with a
/// NUL behind it.
pub open spec fn table_bytes(strings: Seq<Seq<u8>>) -> Seq<u8>
    decreases strings.len(),
{
    if strings.len() == 0 {
        Seq::empty()
    } else {
        table_bytes(strings.drop_last()) + strings.last() + seq![0u8]
    }
}

/// Where the string with the given number starts.
pub open spec fn offset_of(strings: Seq<Seq<u8>>, i: int) -> nat {
    table_bytes(strings.subrange(0, i)).len()
}

/// The strings of a table that also holds `string`.
pub open spec fn interned(strings: Seq<Seq<u8>>, string: Seq<u8>) -> Seq<Seq<u8>> {
    if strings.contains(string) {
        strings
    } else {
        strings.push(string)
    }
}

/// Where `string` starts in a table that also holds it.
pub open spec fn interned_offset(strings: Seq<Seq<u8>>, string: Seq<u8>) -> u64 {
    offset_of(interned(strings, string), interned(strings, string).index_of(string)) as u64
}

/// The strings of an empty table: the empty one.
pub open spec fn no_strings() -> Seq<Seq<u8>> {
    seq![Seq::<u8>::empty()]
}

/// Whether a table can come from adding strings to an empty one: the first
/// string is empty and none occurs twice.
pub open spec fn is_table(strings: Seq<Seq<u8>>) -> bool {
    &&& strings.len() >= 1
    &&& strings[0].len() == 0
    &&& strings.no_duplicates()
}

/// Whether `later` comes from `earlier` by adding strings.
pub open spec fn grows(earlier: Seq<Seq<u8>>, later: Seq<Seq<u8>>) -> bool {
    earlier.len() <= later.len() && earlier == later.subrange(0, earlier.len() as int)
}

/// Adding strings goes on from what was added before.
pub proof fn lemma_grows_trans(a: Seq<Seq<u8>>, b: Seq<Seq<u8>>, c: Seq<Seq<u8>>)
    requires
        grows(a, b),
        grows(b, c),
    ensures
        grows(a, c),
{
    assert(a =~= c.subrange(0, a.len() as int)) by {
        assert forall|i: int| 0 <= i < a.len() implies a[i] == c[i] by {
            assert(a[i] == b.subrange(0, a.len() as int)[i]);
            assert(b[i] == c.subrange(0, b.len() as int)[i]);
        }
    }
}

/// What adding a string does to a table.
pub proof fn lemma_interned(strings: Seq<Seq<u8>>, string: Seq<u8>)
    requires
        is_table(strings),
    ensures
        is_table(interned(strings, string)),
        grows(strings, interned(strings, string)),
        0 <= interned(strings, string).index_of(string) < interned(strings, string).len(),
        interned(strings, string)[interned(strings, string).index_of(string)] == string,
{
    let grown = interned(strings, string);
    assert(strings =~= grown.subrange(0, strings.len() as int));
    if !strings.contains(string) {
        assert(grown[strings.len() as int] == string);
        assert forall|i: int, j: int| 0 <= i < grown.len() && 0 <= j < grown.len() && i != j implies
            grown[i] != grown[j] by {
            if i == strings.len() {
                assert(strings[j] == grown[j]);
                assert(strings.contains(strings[j]));
            } else if j == strings.len() {
                assert(strings[i] == grown[i]);
                assert(strings.contains(strings[i]));
            }
        }
    }
    assert(grown.contains(string));
}

/// A table holds each of its strings where it says, with a NUL behind it.
pub proof fn lemma_string_held(strings: Seq<Seq<u8>>, i: int)
    requires
        0 <= i < strings.len(),
    ensures
        bytes::holds_at(table_bytes(strings), offset_of(strings, i) as int, strings[i] + seq![0u8]),
    decreases strings.len(),
{
    let last = strings.len() - 1;
    let part = strings[i] + seq![0u8];
    let whole = table_bytes(strings);
    assert(strings.subrange(0, last) =~= strings.drop_last());
    if i == last {
        let start = table_bytes(strings.drop_last());
        assert(whole =~= start + part);
        assert(whole.subrange(start.len() as int, (start.len() + part.len()) as int) =~= part);
    } else {
        let rest = strings.drop_last();
        lemma_string_held(rest, i);
        assert(rest.subrange(0, i) =~= strings.subrange(0, i));
        let offset = offset_of(strings, i) as int;
        assert(whole.subrange(offset, offset + part.len()) =~= table_bytes(rest).subrange(
            offset,
            offset + part.len(),
        ));
    }
}

/// Strings that are added leave the ones before in place.
pub proof fn lemma_offset_kept(earlier: Seq<Seq<u8>>, later: Seq<Seq<u8>>, i: int)
    requires
        grows(earlier, later),
        0 <= i <= earlier.len(),
    ensures
        offset_of(later, i) == offset_of(earlier, i),
        i < earlier.len() ==> later[i] == earlier[i],
{
    assert(later.subrange(0, i) =~= earlier.subrange(0, i));
    if i < earlier.len() {
        assert(later.subrange(0, earlier.len() as int)[i] == earlier[i]);
    }
}

/// A string that was added stands where it was put in every later table, with
/// a NUL behind it.
pub proof fn law_interned_string_is_held(
    strings: Seq<Seq<u8>>,
    string: Seq<u8>,
    later: Seq<Seq<u8>>,
)
    requires
        is_table(strings),
        grows(interned(strings, string), later),
        table_bytes(later).len() <= u64::MAX,
    ensures
        bytes::holds_at(
            table_bytes(later),
            interned_offset(strings, string) as int,
            string + seq![0u8],
        ),
        interned_offset(strings, string) == 0 <==> string.len() == 0,
{
    let grown = interned(strings, string);
    let i = grown.index_of(string);
    lemma_interned(strings, string);
    lemma_offset_kept(grown, later, i);
    lemma_string_held(later, i);
    assert(later[i] == string);
    if string.len() == 0 {
        assert(grown[0] =~= string);
        assert(i == 0);
        assert(later.subrange(0, 0) =~= Seq::<Seq<u8>>::empty());
    } else {
        assert(i != 0);
        lemma_offset_grows(later, i);
    }
}

proof fn lemma_offset_grows(strings: Seq<Seq<u8>>, i: int)
    requires
        0 < i <= strings.len(),
    ensures
        offset_of(strings, i) > 0,
{
    assert(strings.subrange(0, i).len() > 0);
}

/// Deduplicates strings and keeps the order in which they first came.
pub struct StringTable {
    bytes: Vec<u8>,
    spans: Vec<(usize, usize)>,
    index: NumberIndex,
    strings: Ghost<Seq<Seq<u8>>>,
}

impl StringTable {
    /// The strings of the table.
    pub closed spec fn strings(&self) -> Seq<Seq<u8>> {
        self.strings@
    }

    /// The bytes, the spans and the index all say the same strings.
    pub closed spec fn wf(&self) -> bool {
        let strings = self.strings@;
        &&& is_table(strings)
        &&& self.bytes@ == table_bytes(strings)
        &&& self.spans@.len() == strings.len()
        &&& self.index.wf()
        &&& self.index.spec_hashes().len() == strings.len()
        &&& forall|i: int|
            0 <= i < strings.len() ==> {
                &&& (#[trigger] self.spans@[i]).0 == offset_of(strings, i)
                &&& self.spans@[i].1 == strings[i].len()
                &&& self.index.spec_hashes()[i] == hash_index::hash_of(strings[i])
            }
    }

    /// Creates a table of the empty string.
    pub fn new() -> (table: Self)
        ensures
            table.wf(),
            table.strings() == no_strings(),
    {
        let mut bytes: Vec<u8> = Vec::new();
        bytes.push(0);
        let mut spans: Vec<(usize, usize)> = Vec::new();
        spans.push((0, 0));
        let mut index = NumberIndex::new();
        let empty: Vec<u8> = Vec::new();
        index.push(hash_bytes(empty.as_slice()));
        proof {
            assert(empty@ =~= Seq::<u8>::empty());
            assert(no_strings().drop_last() =~= Seq::<Seq<u8>>::empty());
            assert(table_bytes(Seq::<Seq<u8>>::empty()) =~= Seq::<u8>::empty());
            assert(bytes@ =~= table_bytes(no_strings()));
            assert(no_strings().subrange(0, 0) =~= Seq::<Seq<u8>>::empty());
        }
        StringTable { bytes, spans, index, strings: Ghost(no_strings()) }
    }

    /// Returns the bytes of the table.
    pub fn bytes(&self) -> (bytes: &[u8])
        requires
            self.wf(),
        ensures
            bytes@ == table_bytes(self.strings()),
    {
        self.bytes.as_slice()
    }

    fn holds(&self, id: usize, string: &[u8]) -> (holds: bool)
        requires
            self.wf(),
            id < self.strings().len(),
        ensures
            holds == (self.strings()[id as int] == string@),
    {
        let (offset, len) = self.spans[id];
        let _total: usize = self.bytes.len();
        proof {
            lemma_string_held(self.strings@, id as int);
            bytes::lemma_holds_at_split(
                self.bytes@,
                offset as int,
                self.strings@[id as int],
                seq![0u8],
            );
            assert(self.bytes@.subrange(offset as int, offset + len)
                =~= self.strings@[id as int]);
        }
        let held = vstd::slice::slice_subrange(self.bytes.as_slice(), offset, offset + len);
        same_bytes(held, string)
    }

    /// Adds a string where the table does not hold it yet, and returns where it
    /// starts.
    pub fn intern(&mut self, string: &[u8]) -> (offset: u64)
        requires
            old(self).wf(),
        ensures
            final(self).wf(),
            final(self).strings() == interned(old(self).strings(), string@),
            offset == interned_offset(old(self).strings(), string@),
    {
        let hash: u64 = hash_bytes(string);
        let ghost strings = self.strings@;
        let count: usize = self.spans.len();
        let table: &StringTable = self;
        let matches = |id: usize| -> (same: bool)
            requires
                table.wf(),
                id < table.strings().len(),
            ensures
                same == (table.strings()[id as int] == string@),
            { table.holds(id, string) };
        let found: Option<usize> = self.index.find(hash, count, &matches);
        if let Some(id) = found {
            proof {
                assert(strings[id as int] == string@);
                assert(strings.contains(string@));
                assert(strings.index_of(string@) == id);
            }
            return self.spans[id].0 as u64;
        }
        proof {
            if strings.contains(string@) {
                let i = strings.index_of(string@);
                assert(strings[i] == string@);
                assert(self.spans@[i].1 == strings[i].len());
                assert(self.index.spec_hashes()[(i as usize) as int] == hash);
                assert(false);
            }
        }
        let offset: usize = self.bytes.len();
        self.bytes.extend_from_slice(string);
        self.bytes.push(0);
        self.spans.push((offset, string.len()));
        let _count: usize = self.spans.len();
        self.index.push(hash);
        proof {
            let grown = strings.push(string@);
            lemma_interned(strings, string@);
            self.strings@ = grown;
            assert(grown.drop_last() =~= strings);
            assert(self.bytes@ =~= table_bytes(grown));
            assert(grown[strings.len() as int] == string@);
            assert(grown.index_of(string@) == strings.len());
            assert forall|i: int| 0 <= i < grown.len() implies {
                &&& (#[trigger] self.spans@[i]).0 == offset_of(grown, i)
                &&& self.spans@[i].1 == grown[i].len()
                &&& self.index.spec_hashes()[i] == hash_index::hash_of(grown[i])
            } by {
                if i < strings.len() {
                    lemma_offset_kept(strings, grown, i);
                    assert(old(self).spans@[i].0 == offset_of(strings, i));
                } else {
                    assert(grown.subrange(0, i) =~= strings);
                }
            }
        }
        offset as u64
    }
}

} // verus!
