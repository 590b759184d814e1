//! Hashing of byte strings, and a table that finds numbered items by hash.
use vstd::prelude::*;
use hashbrown::HashTable;
use crate::bytes;

verus! {

const MULTIPLY: u64 = 0x517c_c1b7_2722_0a95;

const MIX_HIGH: u64 = 0xff51_afd7_ed55_8ccd;

const MIX_LOW: u64 = 0xc4ce_b9fe_1a85_ec53;

/// The state of a hash with one more word.
pub closed spec fn mixed(state: u64, word: u64) -> u64 {
    (((state << 5) | (state >> 59)) ^ word).wrapping_mul(MULTIPLY)
}

/// The state of a hash with the bytes from `at` on, eight at a time.
pub open spec fn words_mixed(s: Seq<u8>, at: int, state: u64) -> u64
    decreases s.len() - at,
{
    if 0 <= at && at + 8 <= s.len() {
        words_mixed(s, at + 8, mixed(state, bytes::le_value(s.subrange(at, at + 8)) as u64))
    } else {
        mixed(state, tail_word(s, at, 0))
    }
}

/// The bytes from `at` on as a word, behind `word`.
pub closed spec fn tail_word(s: Seq<u8>, at: int, word: u64) -> u64
    decreases s.len() - at,
{
    if 0 <= at < s.len() {
        tail_word(s, at + 1, (word << 8) | (s[at] as u64))
    } else {
        word
    }
}

/// The hash of a finished state.
pub closed spec fn finished(state: u64) -> u64 {
    let one = (state ^ (state >> 33)).wrapping_mul(MIX_HIGH);
    let two = (one ^ (one >> 29)).wrapping_mul(MIX_LOW);
    two ^ (two >> 32)
}

/// The hash of a byte string.
pub open spec fn hash_of(s: Seq<u8>) -> u64 {
    finished(words_mixed(s, 0, s.len() as u64))
}

/// Adds a word to the state of a hash.
pub fn mix(state: u64, word: u64) -> (next: u64)
    ensures
        next == mixed(state, word),
{
    (((state << 5) | (state >> 59)) ^ word).wrapping_mul(MULTIPLY)
}

/// Hashes a byte string.
pub fn hash_bytes(string: &[u8]) -> (hash: u64)
    ensures
        hash == hash_of(string@),
{
    let len: usize = string.len();
    let mut state: u64 = len as u64;
    let mut at: usize = 0;
    while len - at >= 8
        invariant
            at <= len,
            len == string@.len(),
            words_mixed(string@, at as int, state) == words_mixed(string@, 0, len as u64),
        decreases len - at,
    {
        let chunk = vstd::slice::slice_subrange(string, at, at + 8);
        let word: u64 = bytes::le_uint(chunk);
        state = mix(state, word);
        at = at + 8;
    }
    let ghost start = at as int;
    let mut tail: u64 = 0;
    while at < len
        invariant
            start <= at <= len,
            0 <= start,
            len == string@.len(),
            tail_word(string@, start, 0) == tail_word(string@, at as int, tail),
        decreases len - at,
    {
        tail = (tail << 8) | (string[at] as u64);
        at = at + 1;
    }
    state = mix(state, tail);
    let one: u64 = (state ^ (state >> 33)).wrapping_mul(MIX_HIGH);
    let two: u64 = (one ^ (one >> 29)).wrapping_mul(MIX_LOW);
    two ^ (two >> 32)
}

/// Table of numbered items that are found by their hash. The pairs of hash and
/// number stand in a `hashbrown::HashTable`.
#[verifier::external_body]
pub struct HashIndex {
    table: HashTable<(u64, usize)>,
}

/// The pairs of hash and number that a table holds.
pub uninterp spec fn entries_held(index: HashIndex) -> Set<(u64, usize)>;

impl HashIndex {
    /// `HashTable::new`: an empty table.
    #[verifier::external_body]
    pub(crate) fn new() -> (index: Self)
        ensures
            entries_held(index) == Set::<(u64, usize)>::empty(),
    {
        HashIndex { table: HashTable::new() }
    }

    /// `HashTable::find`: an item that `matches` accepts. It asks for every
    /// item that was added with the given hash, and perhaps for others, until
    /// one is accepted.
    #[verifier::external_body]
    pub(crate) fn find<F: Fn(usize) -> bool>(&self, hash: u64, matches: &F) -> (found: Option<usize>)
        requires
            forall|entry: (u64, usize)| #[trigger]
                entries_held(*self).contains(entry) ==> call_requires(*matches, (entry.1,)),
        ensures
            match found {
                Some(id) => {
                    &&& exists|entry: (u64, usize)| #[trigger]
                        entries_held(*self).contains(entry) && entry.1 == id
                    &&& call_ensures(*matches, (id,), true)
                },
                None => forall|entry: (u64, usize)| #[trigger]
                    entries_held(*self).contains(entry) && entry.0 == hash ==> call_ensures(
                        *matches,
                        (entry.1,),
                        false,
                    ),
            },
    {
        self.table.find(hash, |entry| matches(entry.1)).map(|entry| entry.1)
    }

    /// `HashTable::insert_unique`: adds an item under its hash. The call panics
    /// where the table would grow beyond what can be allocated, which the bound
    /// on the number of items rules out.
    #[verifier::external_body]
    pub(crate) fn insert(&mut self, hash: u64, id: usize)
        requires
            !entries_held(*old(self)).contains((hash, id)),
            entries_held(*old(self)).finite(),
            entries_held(*old(self)).len() < usize::MAX / 256,
        ensures
            entries_held(*final(self)) == entries_held(*old(self)).insert((hash, id)),
    {
        self.table.insert_unique(hash, (hash, id), |entry| entry.0);
    }
}

/// Number of items that a table finds by hash. Items with higher numbers are
/// found by a walk.
pub const INDEXED_LIMIT: usize = usize::MAX / 256;

/// Finds items that are numbered from zero on by their hash.
pub struct NumberIndex {
    table: HashIndex,
    indexed: usize,
    hashes: Ghost<Seq<u64>>,
}

impl NumberIndex {
    /// The hashes of the items.
    pub closed spec fn spec_hashes(&self) -> Seq<u64> {
        self.hashes@
    }

    /// The table holds the first items.
    pub closed spec fn wf(&self) -> bool {
        let entries = entries_held(self.table);
        &&& self.indexed == self.hashes@.len() || (self.indexed == INDEXED_LIMIT && self.indexed
            <= self.hashes@.len())
        &&& self.indexed <= INDEXED_LIMIT
        &&& entries.finite()
        &&& entries.len() == self.indexed
        &&& forall|entry: (u64, usize)| #[trigger]
            entries.contains(entry) <==> entry.1 < self.indexed && self.hashes@[entry.1 as int]
                == entry.0
    }

    /// An index of no item.
    pub fn new() -> (index: Self)
        ensures
            index.wf(),
            index.spec_hashes() == Seq::<u64>::empty(),
    {
        NumberIndex { table: HashIndex::new(), indexed: 0, hashes: Ghost(Seq::empty()) }
    }

    /// Finds an item that `matches` accepts. Where there is none, every item
    /// with the given hash was refused.
    pub fn find<F: Fn(usize) -> bool>(&self, hash: u64, count: usize, matches: &F) -> (found: Option<
        usize,
    >)
        requires
            self.wf(),
            count == self.spec_hashes().len(),
            forall|id: usize| id < count ==> call_requires(*matches, (id,)),
        ensures
            match found {
                Some(id) => id < count && call_ensures(*matches, (id,), true),
                None => forall|id: usize|
                    id < count && #[trigger] self.spec_hashes()[id as int] == hash ==> call_ensures(
                        *matches,
                        (id,),
                        false,
                    ),
            },
    {
        if let Some(id) = self.table.find(hash, matches) {
            return Some(id);
        }
        let mut id: usize = self.indexed;
        assert forall|other: usize|
            other < id && #[trigger] self.spec_hashes()[other as int] == hash implies call_ensures(
            *matches,
            (other,),
            false,
        ) by {
            assert(entries_held(self.table).contains((hash, other)));
        }
        while id < count
            invariant
                self.wf(),
                self.indexed <= id <= count,
                count == self.spec_hashes().len(),
                forall|id: usize| id < count ==> call_requires(*matches, (id,)),
                forall|other: usize|
                    other < id && #[trigger] self.spec_hashes()[other as int] == hash
                        ==> call_ensures(*matches, (other,), false),
            decreases count - id,
        {
            if matches(id) {
                return Some(id);
            }
            id = id + 1;
        }
        None
    }

    /// Adds the next item.
    pub fn push(&mut self, hash: u64)
        requires
            old(self).wf(),
            old(self).spec_hashes().len() < usize::MAX,
        ensures
            final(self).wf(),
            final(self).spec_hashes() == old(self).spec_hashes().push(hash),
    {
        if self.indexed < INDEXED_LIMIT {
            self.table.insert(hash, self.indexed);
            self.indexed = self.indexed + 1;
        }
        proof {
            self.hashes@ = self.hashes@.push(hash);
        }
    }
}

} // verus!
