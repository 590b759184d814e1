//! Import of symbol tables.
use vstd::prelude::*;
use crate::builder::{BuilderView, GsymBuilder};
use crate::convert::elf::image::{AddressLayout, LayoutView};
use crate::convert::elf::object_file::ObjectFile;
use crate::convert::elf::symbols;
use crate::convert::elf::symbols::{
    visit_symbols, SymbolDisposition, SymbolFunction, SymbolFunctionView, Visit,
};
use crate::convert::stats;
use crate::error::{Error, ErrorView};
use crate::model;
use crate::model::{copy_bytes, AddressRange, Function, FunctionView};
use crate::sort;
use crate::sort::{sorted_order, Ranked};
use crate::validation;
use crate::writer::ordering;
use crate::writer::ordering::{order_names, NameOrder};

verus! {

/// The ranges and names of the functions that share a fate.
pub open spec fn sharing(functions: Seq<SymbolFunctionView>, fate: SymbolDisposition) -> Seq<
    (AddressRange, Seq<u8>),
>
    decreases functions.len(),
{
    if functions.len() == 0 {
        Seq::empty()
    } else {
        let rest = sharing(functions.drop_last(), fate);
        let last = functions.last();
        if last.disposition == fate {
            rest.push((last.range, last.name))
        } else {
            rest
        }
    }
}

/// Functions with the given ranges and names.
pub open spec fn plain_functions(pairs: Seq<(AddressRange, Seq<u8>)>) -> Seq<FunctionView> {
    Seq::new(pairs.len(), |i: int| model::plain_function(pairs[i].0, pairs[i].1))
}

/// Whether a function comes no later than another: by range, and by name where
/// the ranges are equal.
pub open spec fn pair_at_most(a: (AddressRange, Seq<u8>), b: (AddressRange, Seq<u8>)) -> bool {
    if a.0.start != b.0.start {
        a.0.start < b.0.start
    } else if a.0.end != b.0.end {
        a.0.end < b.0.end
    } else {
        ordering::bytes_at_most(a.1, b.1, 0)
    }
}

/// The functions ranked by range and name.
pub open spec fn by_pair(pairs: Seq<(AddressRange, Seq<u8>)>) -> spec_fn(int, int) -> bool {
    |i: int, j: int| pair_at_most(pairs[i], pairs[j])
}

/// The functions by range and name.
pub open spec fn sorted_pairs(pairs: Seq<(AddressRange, Seq<u8>)>) -> Seq<
    (AddressRange, Seq<u8>),
> {
    let order = sort::order_of(by_pair(pairs), pairs.len());
    Seq::new(order.len(), |i: int| pairs[order[i]])
}

/// The functions without those that equal the one before.
pub open spec fn distinct_pairs(pairs: Seq<(AddressRange, Seq<u8>)>) -> Seq<
    (AddressRange, Seq<u8>),
>
    decreases pairs.len(),
{
    if pairs.len() == 0 {
        pairs
    } else {
        let rest = distinct_pairs(pairs.drop_last());
        if rest.len() > 0 && rest.last() == pairs.last() {
            rest
        } else {
            rest.push(pairs.last())
        }
    }
}

/// Every function once, by range and name.
pub open spec fn as_set(pairs: Seq<(AddressRange, Seq<u8>)>) -> Seq<(AddressRange, Seq<u8>)> {
    distinct_pairs(sorted_pairs(pairs))
}

/// The number of functions that are not among others.
pub open spec fn others(
    pairs: Seq<(AddressRange, Seq<u8>)>,
    among: Seq<(AddressRange, Seq<u8>)>,
) -> nat
    decreases pairs.len(),
{
    if pairs.len() == 0 {
        0
    } else {
        others(pairs.drop_last(), among) + (if among.contains(pairs.last()) {
            0nat
        } else {
            1
        })
    }
}

/// The functions of the symbols of the first `count` files.
pub open spec fn files_functions(files: Seq<Seq<u8>>, layout: LayoutView, count: nat) -> Visit
    decreases count,
{
    if count == 0 {
        Visit { functions: Seq::empty(), error: None }
    } else {
        let before = files_functions(files, layout, (count - 1) as nat);
        if before.error is Some {
            before
        } else {
            let next = symbols::file_functions(files[count - 1], layout);
            Visit { functions: before.functions + next.functions, error: next.error }
        }
    }
}

/// What an import of symbol tables comes to.
pub struct SymbolImport {
    /// Functions that are imported, in order.
    pub functions: Seq<(AddressRange, Seq<u8>)>,
    /// Number of functions that are rejected.
    pub rejected: nat,
    /// The error that ended the import.
    pub error: Option<ErrorView>,
}

/// What importing the symbol tables of distinct files comes to. The functions
/// of one file are imported as they stand, and those of several files as a
/// set.
pub open spec fn imported(files: Seq<Seq<u8>>, layout: LayoutView) -> SymbolImport {
    let found = files_functions(files, layout, files.len());
    if found.error is Some {
        SymbolImport { functions: Seq::empty(), rejected: 0, error: found.error }
    } else {
        let accepted = sharing(found.functions, SymbolDisposition::Import);
        let skipped = sharing(found.functions, SymbolDisposition::Reject);
        if files.len() == 1 {
            SymbolImport { functions: accepted, rejected: skipped.len(), error: None }
        } else {
            SymbolImport {
                functions: as_set(accepted),
                rejected: others(as_set(skipped), as_set(accepted)),
                error: None,
            }
        }
    }
}

proof fn lemma_pair_total(a: (AddressRange, Seq<u8>), b: (AddressRange, Seq<u8>))
    ensures
        pair_at_most(a, b) || pair_at_most(b, a),
        pair_at_most(a, b) && pair_at_most(b, a) ==> a == b,
{
    ordering::lemma_bytes_total(a.1, b.1, 0);
    assert(a.1.subrange(0, a.1.len() as int) =~= a.1);
    assert(b.1.subrange(0, b.1.len() as int) =~= b.1);
}

proof fn lemma_pair_chain(
    a: (AddressRange, Seq<u8>),
    b: (AddressRange, Seq<u8>),
    c: (AddressRange, Seq<u8>),
)
    requires
        pair_at_most(a, b),
        pair_at_most(b, c),
    ensures
        pair_at_most(a, c),
{
    if a.0 == b.0 && b.0 == c.0 {
        ordering::lemma_bytes_chain(a.1, b.1, c.1, 0);
    }
}

proof fn lemma_pair_ranking(pairs: Seq<(AddressRange, Seq<u8>)>)
    ensures
        sort::total_preorder(by_pair(pairs), pairs.len()),
{
    let le = by_pair(pairs);
    let n = pairs.len();
    assert forall|i: int, j: int| 0 <= i < n && 0 <= j < n implies #[trigger] le(i, j) || le(
        j,
        i,
    ) by {
        lemma_pair_total(pairs[i], pairs[j]);
    }
    assert forall|i: int, j: int, k: int|
        0 <= i < n && 0 <= j < n && 0 <= k < n && #[trigger] le(i, j) && #[trigger] le(
            j,
            k,
        ) implies le(i, k) by {
        lemma_pair_chain(pairs[i], pairs[j], pairs[k]);
    }
}

/// Whether functions stand by range and name.
pub open spec fn pairs_ascend(pairs: Seq<(AddressRange, Seq<u8>)>) -> bool {
    forall|i: int, j: int|
        0 <= i <= j < pairs.len() ==> pair_at_most(#[trigger] pairs[i], #[trigger] pairs[j])
}

proof fn lemma_sorted_pairs(pairs: Seq<(AddressRange, Seq<u8>)>)
    ensures
        pairs_ascend(sorted_pairs(pairs)),
        forall|pair: (AddressRange, Seq<u8>)|
            pairs.contains(pair) <==> #[trigger] sorted_pairs(pairs).contains(pair),
{
    lemma_pair_ranking(pairs);
    sort::lemma_order_exists(by_pair(pairs), pairs.len());
    let order = sort::order_of(by_pair(pairs), pairs.len());
    let sorted = sorted_pairs(pairs);
    assert forall|i: int, j: int| 0 <= i <= j < sorted.len() implies pair_at_most(
        #[trigger] sorted[i],
        #[trigger] sorted[j],
    ) by {
        if i < j {
            assert(sort::before(by_pair(pairs), order[i], order[j]));
        } else {
            lemma_pair_total(sorted[i], sorted[i]);
        }
    }
    assert forall|pair: (AddressRange, Seq<u8>)|
        pairs.contains(pair) <==> #[trigger] sorted.contains(pair) by {
        if pairs.contains(pair) {
            let i = choose|i: int| 0 <= i < pairs.len() && pairs[i] == pair;
            assert(order.contains(i));
            let k = choose|k: int| 0 <= k < order.len() && order[k] == i;
            assert(sorted[k] == pair);
        }
        if sorted.contains(pair) {
            let k = choose|k: int| 0 <= k < sorted.len() && sorted[k] == pair;
            assert(pairs[order[k]] == pair);
        }
    }
}

proof fn lemma_distinct_pairs(pairs: Seq<(AddressRange, Seq<u8>)>)
    requires
        pairs_ascend(pairs),
    ensures
        pairs_ascend(distinct_pairs(pairs)),
        distinct_pairs(pairs).no_duplicates(),
        forall|pair: (AddressRange, Seq<u8>)|
            pairs.contains(pair) <==> #[trigger] distinct_pairs(pairs).contains(pair),
        pairs.len() > 0 ==> distinct_pairs(pairs).len() > 0 && distinct_pairs(pairs).last()
            == pairs.last(),
    decreases pairs.len(),
{
    if pairs.len() > 0 {
        let head = pairs.drop_last();
        let last = pairs.last();
        let rest = distinct_pairs(head);
        let whole = distinct_pairs(pairs);
        assert(pairs_ascend(head)) by {
            assert forall|i: int, j: int| 0 <= i <= j < head.len() implies pair_at_most(
                #[trigger] head[i],
                #[trigger] head[j],
            ) by {
                assert(head[i] == pairs[i] && head[j] == pairs[j]);
            }
        }
        lemma_distinct_pairs(head);
        if head.len() > 0 {
            assert(head.last() == pairs[pairs.len() - 2] && last == pairs[pairs.len() - 1]);
            assert(pair_at_most(head.last(), last));
        } else {
            assert(rest.len() == 0);
        }
        if !(rest.len() > 0 && rest.last() == last) {
            assert(whole == rest.push(last));
            assert forall|i: int, j: int| 0 <= i <= j < whole.len() implies pair_at_most(
                #[trigger] whole[i],
                #[trigger] whole[j],
            ) by {
                lemma_pair_total(last, last);
                if j == rest.len() && i < rest.len() {
                    assert(pair_at_most(rest[i], rest[rest.len() - 1]));
                    lemma_pair_chain(rest[i], rest[rest.len() - 1], last);
                }
            }
            assert forall|i: int, j: int|
                0 <= i < whole.len() && 0 <= j < whole.len() && i != j implies whole[i]
                != whole[j] by {
                if i < rest.len() && j == rest.len() && rest[i] == last {
                    assert(pair_at_most(rest[i], rest[rest.len() - 1]));
                    lemma_pair_total(rest[rest.len() - 1], last);
                }
                if j < rest.len() && i == rest.len() && rest[j] == last {
                    assert(pair_at_most(rest[j], rest[rest.len() - 1]));
                    lemma_pair_total(rest[rest.len() - 1], last);
                }
            }
        }
        assert forall|pair: (AddressRange, Seq<u8>)|
            pairs.contains(pair) <==> #[trigger] whole.contains(pair) by {
            if pairs.contains(pair) {
                let i = choose|i: int| 0 <= i < pairs.len() && pairs[i] == pair;
                if i < head.len() {
                    assert(head[i] == pair);
                    assert(rest.contains(pair));
                    let k = choose|k: int| 0 <= k < rest.len() && rest[k] == pair;
                    assert(whole[k] == pair);
                } else {
                    assert(whole[whole.len() - 1] == pair);
                }
            }
            if whole.contains(pair) {
                let k = choose|k: int| 0 <= k < whole.len() && whole[k] == pair;
                if k < rest.len() {
                    assert(rest[k] == pair);
                    assert(rest.contains(pair));
                    assert(head.contains(pair));
                    let i = choose|i: int| 0 <= i < head.len() && head[i] == pair;
                    assert(pairs[i] == pair);
                } else {
                    assert(pairs[pairs.len() - 1] == pair);
                }
            }
        }
    }
}

/// Functions as a set stand by range and name, occur once each, and are the
/// ones that were given.
pub proof fn law_functions_as_set(pairs: Seq<(AddressRange, Seq<u8>)>)
    ensures
        pairs_ascend(as_set(pairs)),
        as_set(pairs).no_duplicates(),
        forall|pair: (AddressRange, Seq<u8>)|
            pairs.contains(pair) <==> #[trigger] as_set(pairs).contains(pair),
{
    lemma_sorted_pairs(pairs);
    lemma_distinct_pairs(sorted_pairs(pairs));
    assert forall|pair: (AddressRange, Seq<u8>)|
        pairs.contains(pair) <==> #[trigger] as_set(pairs).contains(pair) by {
        assert(sorted_pairs(pairs).contains(pair) <==> pairs.contains(pair));
    }
}

/// Whether a function can be added to a builder.
pub open spec fn is_plain(pair: (AddressRange, Seq<u8>)) -> bool {
    &&& pair.0.start <= pair.0.end
    &&& pair.0.end - pair.0.start <= u32::MAX
    &&& pair.1.len() > 0
}

proof fn lemma_plain_is_valid(pair: (AddressRange, Seq<u8>))
    requires
        is_plain(pair),
    ensures
        validation::function_error(model::plain_function(pair.0, pair.1), None, None, 0) is None,
{
    let function = model::plain_function(pair.0, pair.1);
    reveal_with_fuel(validation::function_error, 2);
    reveal_with_fuel(validation::functions_error, 2);
    assert(!validation::site_outside(function));
}

/// Whether the functions to import can be added to a builder.
spec fn all_plain(functions: Seq<SymbolFunctionView>) -> bool {
    forall|i: int|
        0 <= i < functions.len() && (#[trigger] functions[i]).disposition
            == SymbolDisposition::Import ==> is_plain((functions[i].range, functions[i].name))
}

proof fn lemma_visited_plain(
    data: Seq<u8>,
    list: Seq<crate::convert::elf::object_file::SymbolView>,
    layout: LayoutView,
    count: nat,
)
    ensures
        all_plain(symbols::visited(data, list, layout, count).functions),
    decreases count,
{
    if count > 0 {
        lemma_visited_plain(data, list, layout, (count - 1) as nat);
    }
}

proof fn lemma_files_plain(files: Seq<Seq<u8>>, layout: LayoutView, count: nat)
    ensures
        all_plain(files_functions(files, layout, count).functions),
    decreases count,
{
    if count > 0 {
        lemma_files_plain(files, layout, (count - 1) as nat);
        let data = files[count - 1];
        let all = symbols::all_symbols(data);
        lemma_visited_plain(data, all, layout, all.len());
    }
}

proof fn lemma_sharing(functions: Seq<SymbolFunctionView>, fate: SymbolDisposition)
    ensures
        forall|i: int|
            #![trigger sharing(functions, fate)[i]]
            0 <= i < sharing(functions, fate).len() ==> exists|k: int|
                #![trigger functions[k]]
                0 <= k < functions.len() && functions[k].disposition == fate && sharing(
                    functions,
                    fate,
                )[i] == (functions[k].range, functions[k].name),
    decreases functions.len(),
{
    if functions.len() > 0 {
        let head = functions.drop_last();
        lemma_sharing(head, fate);
        let rest = sharing(head, fate);
        let whole = sharing(functions, fate);
        assert forall|i: int|
            #![trigger whole[i]]
            0 <= i < whole.len() implies exists|k: int|
            #![trigger functions[k]]
            0 <= k < functions.len() && functions[k].disposition == fate && whole[i] == (
                functions[k].range,
                functions[k].name,
            ) by {
            if i < rest.len() {
                assert(whole[i] == rest[i]);
                let k = choose|k: int|
                    #![trigger head[k]]
                    0 <= k < head.len() && head[k].disposition == fate && rest[i] == (
                        head[k].range,
                        head[k].name,
                    );
                assert(functions[k] == head[k]);
            } else {
                assert(functions[functions.len() - 1] == functions.last());
            }
        }
    }
}

/// A function's range and name.
struct Pair {
    range: AddressRange,
    name: Vec<u8>,
}

spec fn pair_views(pairs: Seq<Pair>) -> Seq<(AddressRange, Seq<u8>)> {
    Seq::new(pairs.len(), |i: int| (pairs[i].range, pairs[i].name@))
}

struct RankedPairs<'pairs> {
    pairs: &'pairs Vec<Pair>,
}

impl<'pairs> Ranked for RankedPairs<'pairs> {
    closed spec fn count(&self) -> nat {
        self.pairs@.len()
    }

    closed spec fn ranks(&self) -> spec_fn(int, int) -> bool {
        by_pair(pair_views(self.pairs@))
    }

    proof fn ranking(&self) {
        lemma_pair_ranking(pair_views(self.pairs@));
    }

    fn at_most(&self, i: usize, j: usize) -> (result: bool) {
        proof {
            let views = pair_views(self.pairs@);
            assert(views[i as int] == (self.pairs@[i as int].range, self.pairs@[i as int].name@));
            assert(views[j as int] == (self.pairs@[j as int].range, self.pairs@[j as int].name@));
        }
        comes_first(&self.pairs[i], &self.pairs[j])
    }
}

fn comes_first(a: &Pair, b: &Pair) -> (result: bool)
    ensures
        result == pair_at_most((a.range, a.name@), (b.range, b.name@)),
{
    if a.range.start != b.range.start {
        return a.range.start < b.range.start;
    }
    if a.range.end != b.range.end {
        return a.range.end < b.range.end;
    }
    match order_names(a.name.as_slice(), b.name.as_slice()) {
        NameOrder::Before => true,
        NameOrder::Same => {
            proof {
                ordering::lemma_bytes_total(a.name@, b.name@, 0);
            }
            true
        },
        NameOrder::Behind => false,
    }
}

fn is_same(a: &Pair, b: &Pair) -> (same: bool)
    ensures
        same == ((a.range, a.name@) == (b.range, b.name@)),
{
    a.range.start == b.range.start && a.range.end == b.range.end && model::same_bytes(
        a.name.as_slice(),
        b.name.as_slice(),
    )
}

fn keep(functions: &Vec<SymbolFunction>, fate: SymbolDisposition) -> (pairs: Vec<Pair>)
    ensures
        pair_views(pairs@) == sharing(symbols::function_list(functions@), fate),
{
    let ghost views = symbols::function_list(functions@);
    let mut pairs: Vec<Pair> = Vec::new();
    let mut i: usize = 0;
    assert(pair_views(pairs@) =~= sharing(views.subrange(0, 0), fate));
    while i < functions.len()
        invariant
            views == symbols::function_list(functions@),
            i <= functions@.len(),
            pair_views(pairs@) == sharing(views.subrange(0, i as int), fate),
        decreases functions@.len() - i,
    {
        let function: &SymbolFunction = &functions[i];
        let ghost before = pair_views(pairs@);
        proof {
            assert(views[i as int] == function@);
            assert(views.subrange(0, i + 1).drop_last() =~= views.subrange(0, i as int));
            assert(views.subrange(0, i + 1).last() == function@);
        }
        if function.disposition == fate {
            let name = copy_bytes(function.name.as_slice());
            pairs.push(Pair { range: function.range, name });
            assert(pair_views(pairs@) =~= before.push((function.range, function.name@)));
        }
        i = i + 1;
    }
    assert(views.subrange(0, views.len() as int) =~= views);
    pairs
}

fn sort_pairs(pairs: &Vec<Pair>) -> (sorted: Vec<Pair>)
    ensures
        pair_views(sorted@) == sorted_pairs(pair_views(pairs@)),
{
    let ghost views = pair_views(pairs@);
    let ranked = RankedPairs { pairs };
    let order = sorted_order(&ranked, pairs.len());
    let ghost places = sort::order_of(by_pair(views), views.len());
    let mut sorted: Vec<Pair> = Vec::with_capacity(order.len());
    let mut i: usize = 0;
    while i < order.len()
        invariant
            views == pair_views(pairs@),
            sort::is_order(by_pair(views), views.len(), places),
            places == sort::indices(order@),
            i <= order@.len(),
            pair_views(sorted@).len() == i,
            forall|k: int|
                0 <= k < i ==> #[trigger] pair_views(sorted@)[k] == views[places[k]],
        decreases order@.len() - i,
    {
        assert(places[i as int] == order@[i as int]);
        let place: usize = order[i];
        let ghost before = pair_views(sorted@);
        let name = copy_bytes(pairs[place].name.as_slice());
        sorted.push(Pair { range: pairs[place].range, name });
        proof {
            assert(pair_views(sorted@) =~= before.push(views[place as int]));
        }
        i = i + 1;
    }
    assert(pair_views(sorted@) =~= sorted_pairs(views));
    sorted
}

fn drop_repeated(pairs: Vec<Pair>) -> (kept: Vec<Pair>)
    ensures
        pair_views(kept@) == distinct_pairs(pair_views(pairs@)),
{
    let ghost views = pair_views(pairs@);
    let mut kept: Vec<Pair> = Vec::with_capacity(pairs.len());
    let mut i: usize = 0;
    assert(pair_views(kept@) =~= distinct_pairs(views.subrange(0, 0)));
    while i < pairs.len()
        invariant
            views == pair_views(pairs@),
            i <= pairs@.len(),
            pair_views(kept@) == distinct_pairs(views.subrange(0, i as int)),
        decreases pairs@.len() - i,
    {
        let pair: &Pair = &pairs[i];
        let ghost before = pair_views(kept@);
        proof {
            assert(views[i as int] == (pair.range, pair.name@));
            assert(views.subrange(0, i + 1).drop_last() =~= views.subrange(0, i as int));
            assert(views.subrange(0, i + 1).last() == views[i as int]);
        }
        let count: usize = kept.len();
        if count > 0 {
            assert(before.last() == (
                kept@[count - 1].range,
                kept@[count - 1].name@,
            ));
        }
        if count == 0 || !is_same(&kept[count - 1], pair) {
            kept.push(Pair { range: pair.range, name: copy_bytes(pair.name.as_slice()) });
            assert(pair_views(kept@) =~= before.push(views[i as int]));
        }
        i = i + 1;
    }
    assert(views.subrange(0, views.len() as int) =~= views);
    kept
}

/// Finds a function among functions that stand by range and name.
fn is_among(pair: &Pair, among: &Vec<Pair>) -> (found: bool)
    requires
        pairs_ascend(pair_views(among@)),
    ensures
        found == pair_views(among@).contains((pair.range, pair.name@)),
{
    let ghost views = pair_views(among@);
    let ghost wanted = (pair.range, pair.name@);
    let mut low: usize = 0;
    let mut high: usize = among.len();
    while low < high
        invariant
            views == pair_views(among@),
            wanted == (pair.range, pair.name@),
            pairs_ascend(views),
            low <= high <= among@.len(),
            forall|k: int| 0 <= k < low ==> #[trigger] views[k] != wanted,
            forall|k: int| high <= k < views.len() ==> #[trigger] views[k] != wanted,
        decreases high - low,
    {
        let middle: usize = low + (high - low) / 2;
        let candidate: &Pair = &among[middle];
        proof {
            assert(views[middle as int] == (candidate.range, candidate.name@));
            lemma_pair_total(views[middle as int], wanted);
        }
        if is_same(candidate, pair) {
            return true;
        }
        if comes_first(candidate, pair) {
            proof {
                assert forall|k: int| 0 <= k < middle + 1 implies #[trigger] views[k]
                    != wanted by {
                    if views[k] == wanted {
                        assert(pair_at_most(views[k], views[middle as int]));
                    }
                }
            }
            low = middle + 1;
        } else {
            proof {
                assert forall|k: int| middle <= k < views.len() implies #[trigger] views[k]
                    != wanted by {
                    if views[k] == wanted {
                        assert(pair_at_most(views[middle as int], views[k]));
                    }
                }
            }
            high = middle;
        }
    }
    proof {
        if views.contains(wanted) {
            let k = choose|k: int| 0 <= k < views.len() && views[k] == wanted;
            assert(views[k] != wanted);
        }
    }
    false
}

fn count_others(pairs: &Vec<Pair>, among: &Vec<Pair>) -> (count: usize)
    requires
        pairs_ascend(pair_views(among@)),
    ensures
        count == others(pair_views(pairs@), pair_views(among@)),
        count <= pairs@.len(),
{
    let ghost views = pair_views(pairs@);
    let mut count: usize = 0;
    let mut i: usize = 0;
    assert(views.subrange(0, 0) =~= Seq::<(AddressRange, Seq<u8>)>::empty());
    while i < pairs.len()
        invariant
            views == pair_views(pairs@),
            pairs_ascend(pair_views(among@)),
            i <= pairs@.len(),
            count <= i,
            count == others(views.subrange(0, i as int), pair_views(among@)),
        decreases pairs@.len() - i,
    {
        proof {
            assert(views[i as int] == (pairs@[i as int].range, pairs@[i as int].name@));
            assert(views.subrange(0, i + 1).drop_last() =~= views.subrange(0, i as int));
            assert(views.subrange(0, i + 1).last() == views[i as int]);
        }
        if !is_among(&pairs[i], among) {
            count = count + 1;
        }
        i = i + 1;
    }
    assert(views.subrange(0, views.len() as int) =~= views);
    count
}

fn add_pairs(pairs: Vec<Pair>, builder: &mut GsymBuilder) -> (result: Result<(), Error>)
    requires
        old(builder).wf(),
        forall|i: int| 0 <= i < pairs@.len() ==> is_plain(#[trigger] pair_views(pairs@)[i]),
    ensures
        final(builder).wf(),
        result == Ok::<(), Error>(()),
        final(builder)@ == (BuilderView {
            functions: old(builder)@.functions + plain_functions(pair_views(pairs@)),
            ..old(builder)@
        }),
{
    let ghost views = pair_views(pairs@);
    let ghost start = builder@;
    let mut i: usize = 0;
    assert(start.functions + plain_functions(views.subrange(0, 0)) =~= start.functions);
    while i < pairs.len()
        invariant
            builder.wf(),
            views == pair_views(pairs@),
            start == old(builder)@,
            forall|k: int| 0 <= k < views.len() ==> is_plain(#[trigger] views[k]),
            i <= pairs@.len(),
            builder@ == (BuilderView {
                functions: start.functions + plain_functions(views.subrange(0, i as int)),
                ..start
            }),
        decreases pairs@.len() - i,
    {
        let pair: &Pair = &pairs[i];
        let function = Function::new(pair.range, pair.name.as_slice());
        proof {
            assert(views[i as int] == (pair.range, pair.name@));
            lemma_plain_is_valid(views[i as int]);
            let before = plain_functions(views.subrange(0, i as int));
            assert(plain_functions(views.subrange(0, i + 1)) =~= before.push(function@));
            assert(start.functions + before.push(function@) =~= (start.functions + before).push(
                function@,
            ));
        }
        builder.add_function(function)?;
        i = i + 1;
    }
    assert(views.subrange(0, views.len() as int) =~= views);
    Ok(())
}

/// The bytes of files.
pub open spec fn file_bytes(files: Seq<&ObjectFile<'_>>) -> Seq<Seq<u8>> {
    Seq::new(files.len(), |i: int| files[i]@)
}

proof fn lemma_files_stop(files: Seq<Seq<u8>>, layout: LayoutView, count: nat, whole: nat)
    requires
        count <= whole,
        files_functions(files, layout, count).error is Some,
    ensures
        files_functions(files, layout, whole).error == files_functions(
            files,
            layout,
            count,
        ).error,
    decreases whole,
{
    if count < whole {
        lemma_files_stop(files, layout, count, (whole - 1) as nat);
    }
}

fn visit_files(files: &Vec<&ObjectFile<'_>>, layout: &AddressLayout) -> (result: Result<
    Vec<SymbolFunction>,
    Error,
>)
    ensures
        ({
            let found = files_functions(file_bytes(files@), layout@, files@.len());
            match found.error {
                Some(view) => result matches Err(error) && error@ == view,
                None => result matches Ok(functions) && symbols::function_list(functions@)
                    == found.functions,
            }
        }),
{
    let ghost bytes = file_bytes(files@);
    let mut functions: Vec<SymbolFunction> = Vec::new();
    let mut i: usize = 0;
    assert(symbols::function_list(functions@) =~= Seq::<SymbolFunctionView>::empty());
    while i < files.len()
        invariant
            bytes == file_bytes(files@),
            i <= files@.len(),
            files_functions(bytes, layout@, i as nat).error is None,
            symbols::function_list(functions@) == files_functions(
                bytes,
                layout@,
                i as nat,
            ).functions,
        decreases files@.len() - i,
    {
        proof {
            assert(bytes[i as int] == files@[i as int]@);
            if files_functions(bytes, layout@, (i + 1) as nat).error is Some {
                lemma_files_stop(bytes, layout@, (i + 1) as nat, bytes.len());
            }
        }
        let mut found = visit_symbols(files[i], layout)?;
        let ghost before = symbols::function_list(functions@);
        let ghost next = symbols::function_list(found@);
        functions.append(&mut found);
        assert(symbols::function_list(functions@) =~= before + next);
        i = i + 1;
    }
    Ok(functions)
}

proof fn lemma_kept_plain(functions: Seq<SymbolFunctionView>)
    requires
        all_plain(functions),
    ensures
        ({
            let accepted = sharing(functions, SymbolDisposition::Import);
            &&& forall|i: int| 0 <= i < accepted.len() ==> is_plain(#[trigger] accepted[i])
            &&& forall|i: int|
                0 <= i < as_set(accepted).len() ==> is_plain(#[trigger] as_set(accepted)[i])
        }),
{
    let accepted = sharing(functions, SymbolDisposition::Import);
    lemma_sharing(functions, SymbolDisposition::Import);
    assert forall|i: int| 0 <= i < accepted.len() implies is_plain(#[trigger] accepted[i]) by {
        let k = choose|k: int|
            #![trigger functions[k]]
            0 <= k < functions.len() && functions[k].disposition == SymbolDisposition::Import
                && accepted[i] == (functions[k].range, functions[k].name);
        assert(is_plain((functions[k].range, functions[k].name)));
    }
    law_functions_as_set(accepted);
    assert forall|i: int| 0 <= i < as_set(accepted).len() implies is_plain(
        #[trigger] as_set(accepted)[i],
    ) by {
        assert(as_set(accepted).contains(as_set(accepted)[i]));
        assert(accepted.contains(as_set(accepted)[i]));
    }
}

/// Adds the functions of the symbol tables of distinct files to a builder, and
/// counts those that are rejected. Returns the number of functions added.
pub fn import_distinct_symbols(
    files: &Vec<&ObjectFile<'_>>,
    layout: &AddressLayout,
    builder: &mut GsymBuilder,
    rejected: &mut usize,
) -> (result: Result<usize, Error>)
    requires
        old(builder).wf(),
    ensures
        final(builder).wf(),
        ({
            let import = imported(file_bytes(files@), layout@);
            &&& final(builder)@ == (BuilderView {
                functions: old(builder)@.functions + plain_functions(import.functions),
                ..old(builder)@
            })
            &&& *final(rejected) == stats::more(*old(rejected), import.rejected)
            &&& match import.error {
                Some(view) => result matches Err(error) && error@ == view,
                None => result matches Ok(count) && count == import.functions.len(),
            }
        }),
{
    let ghost bytes = file_bytes(files@);
    let ghost found = files_functions(bytes, layout@, bytes.len());
    proof {
        lemma_files_plain(bytes, layout@, bytes.len());
        lemma_kept_plain(found.functions);
        if found.error is Some {
            assert(builder@.functions + plain_functions(Seq::empty()) =~= builder@.functions);
        }
    }
    let functions = visit_files(files, layout)?;
    let accepted = keep(&functions, SymbolDisposition::Import);
    let skipped = keep(&functions, SymbolDisposition::Reject);
    if files.len() == 1 {
        let count: usize = accepted.len();
        *rejected = (*rejected).saturating_add(skipped.len());
        add_pairs(accepted, builder)?;
        return Ok(count);
    }
    let ghost accepted_views = pair_views(accepted@);
    let distinct = drop_repeated(sort_pairs(&accepted));
    let distinct_skipped = drop_repeated(sort_pairs(&skipped));
    proof {
        law_functions_as_set(accepted_views);
    }
    let count: usize = distinct.len();
    *rejected = (*rejected).saturating_add(count_others(&distinct_skipped, &distinct));
    add_pairs(distinct, builder)?;
    Ok(count)
}

proof fn lemma_others_counted(
    pairs: Seq<(AddressRange, Seq<u8>)>,
    among: Seq<(AddressRange, Seq<u8>)>,
)
    requires
        pairs.no_duplicates(),
    ensures
        pairs.to_set().difference(among.to_set()).finite(),
        others(pairs, among) == pairs.to_set().difference(among.to_set()).len(),
    decreases pairs.len(),
{
    let all = pairs.to_set().difference(among.to_set());
    if pairs.len() == 0 {
        assert(all =~= Set::empty());
    } else {
        let rest = pairs.drop_last();
        let last = pairs.last();
        let before = rest.to_set().difference(among.to_set());
        lemma_others_counted(rest, among);
        assert(!rest.contains(last));
        assert forall|pair: (AddressRange, Seq<u8>)|
            pairs.contains(pair) <==> rest.contains(pair) || pair == last by {
            if rest.contains(pair) {
                let k = choose|k: int| 0 <= k < rest.len() && rest[k] == pair;
                assert(pairs[k] == pair);
            }
            if pairs.contains(pair) {
                let k = choose|k: int| 0 <= k < pairs.len() && pairs[k] == pair;
                if k < rest.len() {
                    assert(rest[k] == pair);
                }
            }
            assert(pairs[pairs.len() - 1] == last);
        }
        if among.contains(last) {
            assert(all =~= before);
        } else {
            assert(all =~= before.insert(last));
            assert(!before.contains(last));
        }
    }
}

/// Of the functions of several files each is counted as rejected once, unless it is
/// imported. Those of one file are counted as they stand.
pub proof fn law_rejected_symbols_are_counted(files: Seq<Seq<u8>>, layout: LayoutView)
    ensures
        ({
            let found = files_functions(files, layout, files.len());
            let skipped = sharing(found.functions, SymbolDisposition::Reject);
            let import = imported(files, layout);
            found.error is None ==> {
                &&& import.error is None
                &&& files.len() == 1 ==> import.rejected == skipped.len()
                &&& files.len() != 1 ==> import.rejected == skipped.to_set().difference(
                    import.functions.to_set(),
                ).len()
            }
        }),
{
    let found = files_functions(files, layout, files.len());
    let skipped = sharing(found.functions, SymbolDisposition::Reject);
    law_functions_as_set(skipped);
    lemma_others_counted(as_set(skipped), imported(files, layout).functions);
    assert(as_set(skipped).to_set() =~= skipped.to_set());
}

} // verus!
