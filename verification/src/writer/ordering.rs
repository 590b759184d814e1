//! The order in which functions are written.
use vstd::prelude::*;
use crate::model;
use crate::model::{AddressRange, Function, FunctionView, InlineNode, InlineView};
use crate::sort;
use crate::sort::{sorted_order, Ranked};
use crate::writer::content;
use crate::writer::content::is_content_at_most;

verus! {

/// A number, or the highest that can be held.
pub open spec fn saturated(number: int) -> int {
    if number > usize::MAX {
        usize::MAX as int
    } else {
        number
    }
}

/// How much an inline tree says.
#[derive(Clone, Copy, Debug, PartialEq, Eq, Structural)]
pub struct InlineQuality {
    /// Number of nodes.
    pub nodes: usize,
    /// Number of ranges.
    pub ranges: usize,
    /// Length of the longest path.
    pub depth: usize,
}

/// How much an inline tree says.
pub open spec fn inline_quality_of(node: InlineView) -> InlineQuality
    decreases node, 0int,
{
    qualities_from(
        node.children,
        0,
        InlineQuality { nodes: 1, ranges: saturated(node.ranges.len() as int) as usize, depth: 1 },
    )
}

/// How much a node says with its children from index `i` on, where without
/// them it says `quality`.
pub open spec fn qualities_from(nodes: Seq<InlineView>, i: int, quality: InlineQuality) -> InlineQuality
    decreases nodes, nodes.len() - i,
    when 0 <= i
{
    if i >= nodes.len() {
        quality
    } else {
        let child = inline_quality_of(nodes[i]);
        qualities_from(
            nodes,
            i + 1,
            InlineQuality {
                nodes: saturated(quality.nodes + child.nodes) as usize,
                ranges: saturated(quality.ranges + child.ranges) as usize,
                depth: if saturated(child.depth + 1) > quality.depth {
                    saturated(child.depth + 1) as usize
                } else {
                    quality.depth
                },
            },
        )
    }
}

/// What the rank of a function rests on besides its name.
#[derive(Clone, Copy, Debug, PartialEq, Eq, Structural)]
pub struct SortKey {
    /// Address range.
    pub range: AddressRange,
    /// Whether there is an inline tree.
    pub has_inline: bool,
    /// How much the inline tree says.
    pub inline: InlineQuality,
    /// Number of line rows.
    pub lines: usize,
    /// Number of call sites and of their patterns.
    pub call_sites: usize,
    /// Number of merged functions.
    pub merged: usize,
    /// Number of children of the inline tree.
    pub inline_children: usize,
    /// Length of the name.
    pub name_len: usize,
}

/// Number of call-site patterns below index `i`, or the highest that can be
/// held.
pub open spec fn pattern_count(sites: Seq<model::CallSiteView>, i: int) -> int
    decreases i,
{
    if i <= 0 {
        0
    } else {
        saturated(pattern_count(sites, i - 1) + sites[i - 1].match_regex.len())
    }
}

/// What the rank of a function rests on besides its name.
pub open spec fn key_of(function: FunctionView) -> SortKey {
    SortKey {
        range: function.range,
        has_inline: function.inline is Some,
        inline: match function.inline {
            Some(node) => inline_quality_of(node),
            None => InlineQuality { nodes: 0, ranges: 0, depth: 0 },
        },
        lines: saturated(function.lines.len() as int) as usize,
        call_sites: saturated(
            function.call_sites.len() + pattern_count(
                function.call_sites,
                function.call_sites.len() as int,
            ),
        ) as usize,
        merged: saturated(function.merged.len() as int) as usize,
        inline_children: match function.inline {
            Some(node) => saturated(node.children.len() as int) as usize,
            None => 0,
        },
        name_len: saturated(function.name.len() as int) as usize,
    }
}

/// Whether a byte string comes no later than another, from index `i` on.
pub open spec fn bytes_at_most(a: Seq<u8>, b: Seq<u8>, i: int) -> bool
    decreases a.len() - i,
{
    if i >= a.len() {
        true
    } else if i >= b.len() {
        false
    } else {
        a[i] < b[i] || (a[i] == b[i] && bytes_at_most(a, b, i + 1))
    }
}

/// Whether a key with a name ranks no higher than another: by range, by how
/// much the function says, by name, and by what is left.
pub open spec fn key_at_most(a: SortKey, a_name: Seq<u8>, b: SortKey, b_name: Seq<u8>) -> bool {
    if a.range.start != b.range.start {
        a.range.start < b.range.start
    } else if a.range.end != b.range.end {
        a.range.end < b.range.end
    } else if a.has_inline != b.has_inline {
        b.has_inline
    } else if a.inline.nodes != b.inline.nodes {
        a.inline.nodes < b.inline.nodes
    } else if a.inline.ranges != b.inline.ranges {
        a.inline.ranges < b.inline.ranges
    } else if a.inline.depth != b.inline.depth {
        a.inline.depth < b.inline.depth
    } else if a.lines != b.lines {
        a.lines < b.lines
    } else if a.call_sites != b.call_sites {
        a.call_sites < b.call_sites
    } else if a.merged != b.merged {
        a.merged < b.merged
    } else if a_name != b_name {
        bytes_at_most(a_name, b_name, 0)
    } else if a.inline_children != b.inline_children {
        a.inline_children < b.inline_children
    } else {
        a.name_len <= b.name_len
    }
}

/// Whether a function with a key ranks no higher than another: by the keys and
/// names, and by everything that they say where these rank equal.
pub open spec fn keyed_at_most(a: SortKey, x: FunctionView, b: SortKey, y: FunctionView) -> bool {
    &&& key_at_most(a, x.name, b, y.name)
    &&& key_at_most(b, y.name, a, x.name) ==> content::content_at_most(x, y)
}

/// Whether a function ranks no higher than another.
pub open spec fn at_most(a: FunctionView, b: FunctionView) -> bool {
    keyed_at_most(key_of(a), a, key_of(b), b)
}

/// The ranking of a list of functions.
pub open spec fn ranking_of(functions: Seq<FunctionView>) -> spec_fn(int, int) -> bool {
    |i: int, j: int| at_most(functions[i], functions[j])
}

/// The functions by rank.
pub open spec fn sorted(functions: Seq<FunctionView>) -> Seq<FunctionView> {
    let order = sort::order_of(ranking_of(functions), functions.len());
    Seq::new(functions.len(), |i: int| functions[order[i]])
}

/// Byte strings are ordered totally.
pub proof fn lemma_bytes_total(a: Seq<u8>, b: Seq<u8>, i: int)
    requires
        0 <= i,
    ensures
        bytes_at_most(a, b, i) || bytes_at_most(b, a, i),
        bytes_at_most(a, b, i) && bytes_at_most(b, a, i) && i <= a.len() && i <= b.len()
            ==> a.subrange(i, a.len() as int) == b.subrange(i, b.len() as int),
    decreases a.len() - i,
{
    if i < a.len() && i < b.len() && a[i] == b[i] {
        lemma_bytes_total(a, b, i + 1);
        if bytes_at_most(a, b, i) && bytes_at_most(b, a, i) {
            let x = a.subrange(i, a.len() as int);
            let y = b.subrange(i, b.len() as int);
            let p = a.subrange(i + 1, a.len() as int);
            let q = b.subrange(i + 1, b.len() as int);
            assert(x =~= seq![a[i]] + p);
            assert(y =~= seq![b[i]] + q);
        }
    } else if i == a.len() && i == b.len() {
        assert(a.subrange(i, a.len() as int) =~= b.subrange(i, b.len() as int));
    }
}

/// The order of byte strings is transitive.
pub proof fn lemma_bytes_chain(a: Seq<u8>, b: Seq<u8>, c: Seq<u8>, i: int)
    requires
        0 <= i,
        bytes_at_most(a, b, i),
        bytes_at_most(b, c, i),
    ensures
        bytes_at_most(a, c, i),
    decreases a.len() - i,
{
    if i < a.len() && a[i] == b[i] && b[i] == c[i] {
        lemma_bytes_chain(a, b, c, i + 1);
    }
}

proof fn lemma_key_total(a: SortKey, a_name: Seq<u8>, b: SortKey, b_name: Seq<u8>)
    ensures
        key_at_most(a, a_name, b, b_name) || key_at_most(b, b_name, a, a_name),
{
    lemma_bytes_total(a_name, b_name, 0);
}

proof fn lemma_key_chain(
    a: SortKey,
    a_name: Seq<u8>,
    b: SortKey,
    b_name: Seq<u8>,
    c: SortKey,
    c_name: Seq<u8>,
)
    requires
        key_at_most(a, a_name, b, b_name),
        key_at_most(b, b_name, c, c_name),
    ensures
        key_at_most(a, a_name, c, c_name),
{
    if bytes_at_most(a_name, b_name, 0) && bytes_at_most(b_name, c_name, 0) {
        lemma_bytes_chain(a_name, b_name, c_name, 0);
    }
    lemma_bytes_total(a_name, b_name, 0);
    assert(a_name.subrange(0, a_name.len() as int) =~= a_name);
    assert(b_name.subrange(0, b_name.len() as int) =~= b_name);
    assert(c_name.subrange(0, c_name.len() as int) =~= c_name);
}

proof fn lemma_keyed_total(a: SortKey, x: FunctionView, b: SortKey, y: FunctionView)
    ensures
        keyed_at_most(a, x, b, y) || keyed_at_most(b, y, a, x),
        keyed_at_most(a, x, b, y) && keyed_at_most(b, y, a, x) ==> x == y,
{
    lemma_key_total(a, x.name, b, y.name);
    content::lemma_content_total(x, y);
}

proof fn lemma_keyed_chain(
    a: SortKey,
    x: FunctionView,
    b: SortKey,
    y: FunctionView,
    c: SortKey,
    z: FunctionView,
)
    requires
        keyed_at_most(a, x, b, y),
        keyed_at_most(b, y, c, z),
    ensures
        keyed_at_most(a, x, c, z),
{
    lemma_key_chain(a, x.name, b, y.name, c, z.name);
    if key_at_most(c, z.name, a, x.name) {
        lemma_key_chain(c, z.name, a, x.name, b, y.name);
        lemma_key_chain(b, y.name, c, z.name, a, x.name);
        content::lemma_content_chain(x, y, z);
    }
}

/// Any two functions compare, and comparisons chain. Only a function itself ranks
/// neither higher nor lower than it.
pub proof fn law_functions_are_ranked(functions: Seq<FunctionView>)
    ensures
        sort::total_preorder(ranking_of(functions), functions.len()),
        forall|a: FunctionView, b: FunctionView| #[trigger]
            at_most(a, b) && #[trigger] at_most(b, a) ==> a == b,
{
    assert forall|a: FunctionView, b: FunctionView| #[trigger]
        at_most(a, b) && #[trigger] at_most(b, a) implies a == b by {
        lemma_keyed_total(key_of(a), a, key_of(b), b);
    }
    let le = ranking_of(functions);
    let n = functions.len();
    assert forall|i: int, j: int| 0 <= i < n && 0 <= j < n implies #[trigger] le(i, j) || le(
        j,
        i,
    ) by {
        let (a, b) = (functions[i], functions[j]);
        lemma_keyed_total(key_of(a), a, key_of(b), b);
    }
    assert forall|i: int, j: int, k: int|
        0 <= i < n && 0 <= j < n && 0 <= k < n && #[trigger] le(i, j) && #[trigger] le(
            j,
            k,
        ) implies le(i, k) by {
        let (a, b, c) = (functions[i], functions[j], functions[k]);
        lemma_keyed_chain(key_of(a), a, key_of(b), b, key_of(c), c);
    }
}

/// Sorting keeps every function, and puts the ranges in ascending order.
pub proof fn law_sorted_functions(functions: Seq<FunctionView>)
    ensures
        sorted(functions).len() == functions.len(),
        forall|i: int|
            0 <= i < functions.len() ==> functions.contains(#[trigger] sorted(functions)[i]),
        forall|x: FunctionView| functions.contains(x) ==> #[trigger] sorted(functions).contains(x),
        forall|i: int, j: int|
            0 <= i <= j < functions.len() ==> {
                let a = (#[trigger] sorted(functions)[i]).range;
                let b = (#[trigger] sorted(functions)[j]).range;
                a.start < b.start || (a.start == b.start && a.end <= b.end)
            },
{
    let le = ranking_of(functions);
    let n = functions.len();
    law_functions_are_ranked(functions);
    sort::lemma_order_exists(le, n);
    let order = sort::order_of(le, n);
    let result = sorted(functions);
    assert forall|i: int| 0 <= i < n implies functions.contains(#[trigger] result[i]) by {
        assert(0 <= order[i] < n);
        assert(functions[order[i]] == result[i]);
    }
    assert forall|x: FunctionView| functions.contains(x) implies #[trigger] result.contains(x) by {
        let k = choose|k: int| 0 <= k < n && functions[k] == x;
        assert(order.contains(k));
        let a = choose|a: int| 0 <= a < order.len() && order[a] == k;
        assert(result[a] == x);
    }
    assert forall|i: int, j: int| 0 <= i <= j < n implies {
        let a = (#[trigger] result[i]).range;
        let b = (#[trigger] result[j]).range;
        a.start < b.start || (a.start == b.start && a.end <= b.end)
    } by {
        if i < j {
            assert(sort::before(le, order[i], order[j]));
            assert(le(order[i], order[j]));
        }
    }
}

fn saturating_sum(a: usize, b: usize) -> (sum: usize)
    ensures
        sum == saturated(a + b),
{
    a.saturating_add(b)
}

/// Measures how much an inline tree says.
pub fn inline_quality(node: &InlineNode) -> (quality: InlineQuality)
    ensures
        quality == inline_quality_of(node@),
    decreases node,
{
    proof {
        model::lemma_inline_view(*node);
    }
    let ghost views = model::inline_views(node.children@);
    let mut quality = InlineQuality { nodes: 1, ranges: node.ranges.len(), depth: 1 };
    let mut i: usize = 0;
    while i < node.children.len()
        invariant
            i <= node.children@.len(),
            views == model::inline_views(node.children@),
            inline_quality_of(node@) == qualities_from(views, i as int, quality),
        decreases node.children@.len() - i,
    {
        assert(decreases_to!(node => node.children@[i as int]));
        assert(views[i as int] == node.children@[i as int]@);
        let child = inline_quality(&node.children[i]);
        let below: usize = saturating_sum(child.depth, 1);
        quality = InlineQuality {
            nodes: saturating_sum(quality.nodes, child.nodes),
            ranges: saturating_sum(quality.ranges, child.ranges),
            depth: if below > quality.depth {
                below
            } else {
                quality.depth
            },
        };
        i = i + 1;
    }
    quality
}

fn count_patterns(function: &Function) -> (count: usize)
    ensures
        count == pattern_count(function@.call_sites, function@.call_sites.len() as int),
{
    proof {
        model::lemma_function_view(*function);
    }
    let ghost views = model::call_site_views(function.call_sites@);
    let mut count: usize = 0;
    let mut i: usize = 0;
    while i < function.call_sites.len()
        invariant
            i <= function.call_sites@.len(),
            views == model::call_site_views(function.call_sites@),
            count == pattern_count(views, i as int),
        decreases function.call_sites@.len() - i,
    {
        let site = &function.call_sites[i];
        assert(views[i as int] == site@);
        count = saturating_sum(count, site.match_regex.len());
        i = i + 1;
    }
    count
}

fn sort_key(function: &Function) -> (key: SortKey)
    ensures
        key == key_of(function@),
{
    proof {
        model::lemma_function_view(*function);
        if function.inline is Some {
            model::lemma_inline_view(function.inline->0);
        }
    }
    let inline: InlineQuality = match &function.inline {
        Some(node) => inline_quality(node),
        None => InlineQuality { nodes: 0, ranges: 0, depth: 0 },
    };
    let inline_children: usize = match &function.inline {
        Some(node) => node.children.len(),
        None => 0,
    };
    SortKey {
        range: function.range,
        has_inline: function.inline.is_some(),
        inline,
        lines: function.lines.len(),
        call_sites: saturating_sum(function.call_sites.len(), count_patterns(function)),
        merged: function.merged.len(),
        inline_children,
        name_len: function.name.len(),
    }
}

/// How a byte string stands to another.
pub enum NameOrder {
    /// It comes before.
    Before,
    /// It equals the other.
    Same,
    /// It comes behind.
    Behind,
}

/// Orders two byte strings.
pub fn order_names(a: &[u8], b: &[u8]) -> (order: NameOrder)
    ensures
        match order {
            NameOrder::Same => a@ == b@,
            NameOrder::Before => a@ != b@ && bytes_at_most(a@, b@, 0),
            NameOrder::Behind => a@ != b@ && !bytes_at_most(a@, b@, 0),
        },
{
    let mut i: usize = 0;
    while i < a.len() && i < b.len()
        invariant
            i <= a@.len(),
            i <= b@.len(),
            forall|k: int| 0 <= k < i ==> a@[k] == b@[k],
            bytes_at_most(a@, b@, 0) == bytes_at_most(a@, b@, i as int),
        decreases a@.len() - i,
    {
        if a[i] < b[i] {
            return NameOrder::Before;
        }
        if a[i] > b[i] {
            return NameOrder::Behind;
        }
        i = i + 1;
    }
    if a.len() == b.len() {
        assert(a@ =~= b@);
        NameOrder::Same
    } else if a.len() < b.len() {
        NameOrder::Before
    } else {
        NameOrder::Behind
    }
}

fn is_key_at_most(a: SortKey, x: &[u8], b: SortKey, y: &[u8]) -> (result: bool)
    ensures
        result == key_at_most(a, x@, b, y@),
{
    if a.range.start != b.range.start {
        return a.range.start < b.range.start;
    }
    if a.range.end != b.range.end {
        return a.range.end < b.range.end;
    }
    if a.has_inline != b.has_inline {
        return b.has_inline;
    }
    if a.inline.nodes != b.inline.nodes {
        return a.inline.nodes < b.inline.nodes;
    }
    if a.inline.ranges != b.inline.ranges {
        return a.inline.ranges < b.inline.ranges;
    }
    if a.inline.depth != b.inline.depth {
        return a.inline.depth < b.inline.depth;
    }
    if a.lines != b.lines {
        return a.lines < b.lines;
    }
    if a.call_sites != b.call_sites {
        return a.call_sites < b.call_sites;
    }
    if a.merged != b.merged {
        return a.merged < b.merged;
    }
    match order_names(x, y) {
        NameOrder::Before => true,
        NameOrder::Behind => false,
        NameOrder::Same => if a.inline_children != b.inline_children {
            a.inline_children < b.inline_children
        } else {
            a.name_len <= b.name_len
        },
    }
}

/// Functions with their keys.
struct KeyedFunctions<'functions> {
    functions: &'functions Vec<Function>,
    keys: Vec<SortKey>,
}

impl<'functions> Ranked for KeyedFunctions<'functions> {
    closed spec fn count(&self) -> nat {
        if self.keys@.len() <= self.functions@.len() {
            self.keys@.len()
        } else {
            self.functions@.len()
        }
    }

    closed spec fn ranks(&self) -> spec_fn(int, int) -> bool {
        |i: int, j: int|
            keyed_at_most(
                self.keys@[i],
                self.functions@[i]@,
                self.keys@[j],
                self.functions@[j]@,
            )
    }

    proof fn ranking(&self) {
        let le = self.ranks();
        let n = self.count();
        assert forall|i: int, j: int| 0 <= i < n && 0 <= j < n implies #[trigger] le(i, j) || le(
            j,
            i,
        ) by {
            lemma_keyed_total(
                self.keys@[i],
                self.functions@[i]@,
                self.keys@[j],
                self.functions@[j]@,
            );
        }
        assert forall|i: int, j: int, k: int|
            0 <= i < n && 0 <= j < n && 0 <= k < n && #[trigger] le(i, j) && #[trigger] le(
                j,
                k,
            ) implies le(i, k) by {
            lemma_keyed_chain(
                self.keys@[i],
                self.functions@[i]@,
                self.keys@[j],
                self.functions@[j]@,
                self.keys@[k],
                self.functions@[k]@,
            );
        }
    }

    fn at_most(&self, i: usize, j: usize) -> (result: bool) {
        let a: SortKey = self.keys[i];
        let b: SortKey = self.keys[j];
        let x = self.functions[i].name.as_slice();
        let y = self.functions[j].name.as_slice();
        proof {
            model::lemma_function_view(self.functions@[i as int]);
            model::lemma_function_view(self.functions@[j as int]);
        }
        is_key_at_most(a, x, b, y) && (!is_key_at_most(b, y, a, x) || is_content_at_most(
            &self.functions[i],
            &self.functions[j],
        ))
    }
}

fn ranked_order(functions: &Vec<Function>) -> (order: Vec<usize>)
    ensures
        sort::indices(order@) == sort::order_of(
            ranking_of(model::function_views(functions@)),
            functions@.len(),
        ),
        sort::is_order(
            ranking_of(model::function_views(functions@)),
            functions@.len(),
            sort::indices(order@),
        ),
{
    let ghost views = model::function_views(functions@);
    let count: usize = functions.len();
    let mut keys: Vec<SortKey> = Vec::new();
    let mut i: usize = 0;
    while i < count
        invariant
            i <= count,
            count == functions@.len(),
            keys@.len() == i,
            views == model::function_views(functions@),
            forall|k: int| 0 <= k < i ==> #[trigger] keys@[k] == key_of(views[k]),
        decreases count - i,
    {
        keys.push(sort_key(&functions[i]));
        i = i + 1;
    }
    let keyed = KeyedFunctions { functions, keys };
    let order = sorted_order(&keyed, count);
    proof {
        let le = ranking_of(views);
        let other = keyed.ranks();
        assert forall|i: int, j: int| 0 <= i < count && 0 <= j < count implies #[trigger] le(i, j)
            == other(i, j) by {
            assert(keyed.keys@[i] == key_of(views[i]));
            assert(keyed.keys@[j] == key_of(views[j]));
            model::lemma_function_view(functions@[i]);
            model::lemma_function_view(functions@[j]);
        }
        let indices = sort::indices(order@);
        assert(sort::ascending(le, indices)) by {
            assert forall|a: int, b: int| 0 <= a < b < indices.len() implies sort::before(
                le,
                #[trigger] indices[a],
                #[trigger] indices[b],
            ) by {
                assert(sort::before(other, indices[a], indices[b]));
                assert(le(indices[a], indices[b]) == other(indices[a], indices[b]));
                assert(le(indices[b], indices[a]) == other(indices[b], indices[a]));
            }
        }
        law_functions_are_ranked(views);
        sort::lemma_order_unique(le, count as nat, indices);
    }
    order
}

/// Puts functions into slots, from which they can be taken one by one.
pub fn into_slots(functions: Vec<Function>) -> (slots: Vec<Option<Function>>)
    ensures
        slots@.len() == functions@.len(),
        forall|k: int| 0 <= k < functions@.len() ==> #[trigger] slots@[k] == Some(functions@[k]),
{
    let ghost given = functions@;
    let count: usize = functions.len();
    let mut slots: Vec<Option<Function>> = Vec::new();
    while slots.len() < count
        invariant
            slots@.len() <= count,
        decreases count - slots@.len(),
    {
        slots.push(None);
    }
    let mut source: Vec<Function> = functions;
    assert(given.subrange(0, given.len() as int) =~= given);
    while source.len() > 0
        invariant
            count == given.len(),
            slots@.len() == count,
            source@.len() <= count,
            source@ == given.subrange(0, source@.len() as int),
            forall|k: int|
                source@.len() <= k < count ==> #[trigger] slots@[k] == Some(given[k]),
        decreases source@.len(),
    {
        let taken: Option<Function> = source.pop();
        let at: usize = source.len();
        slots.set(at, taken);
    }
    slots
}

/// The functions in the given order.
pub open spec fn arranged(functions: Seq<FunctionView>, order: Seq<int>) -> Seq<FunctionView> {
    Seq::new(functions.len(), |i: int| functions[order[i]])
}

fn arrange(functions: Vec<Function>, order: Vec<usize>, ranks: Ghost<spec_fn(int, int) -> bool>) -> (arrangement:
    Vec<Function>)
    requires
        sort::is_order(ranks@, functions@.len(), sort::indices(order@)),
    ensures
        model::function_views(arrangement@) == arranged(
            model::function_views(functions@),
            sort::indices(order@),
        ),
{
    let ghost given = functions@;
    let ghost views = model::function_views(given);
    let ghost indices = sort::indices(order@);
    let count: usize = functions.len();
    let mut slots = into_slots(functions);
    let mut ordered: Vec<Function> = Vec::new();
    let mut i: usize = 0;
    while i < count
        invariant
            i <= count,
            count == given.len(),
            slots@.len() == count,
            order@.len() == count,
            indices == sort::indices(order@),
            sort::is_order(ranks@, count as nat, indices),
            forall|k: int|
                i <= k < count ==> slots@[#[trigger] indices[k]] == Some(given[indices[k]]),
            ordered@.len() == i,
            forall|k: int| 0 <= k < i ==> #[trigger] ordered@[k] == given[indices[k]],
        decreases count - i,
    {
        let at: usize = order[i];
        assert(indices[i as int] == at);
        let mut taken: Option<Function> = None;
        std::mem::swap(&mut taken, &mut slots[at]);
        assert forall|k: int| i + 1 <= k < count implies slots@[#[trigger] indices[k]] == Some(
            given[indices[k]],
        ) by {
            assert(sort::before(ranks@, indices[i as int], indices[k]));
            assert(indices[k] != at);
        }
        if let Some(function) = taken {
            ordered.push(function);
        }
        i = i + 1;
    }
    proof {
        assert(model::function_views(ordered@) =~= arranged(views, indices));
    }
    ordered
}

/// Sorts functions by rank.
pub fn sort_by_ordering_key(functions: Vec<Function>) -> (ordered: Vec<Function>)
    ensures
        model::function_views(ordered@) == sorted(model::function_views(functions@)),
{
    let ghost views = model::function_views(functions@);
    let order = ranked_order(&functions);
    arrange(functions, order, Ghost(ranking_of(views)))
}

/// The ranking of functions by where they start.
pub open spec fn start_ranking(functions: Seq<FunctionView>) -> spec_fn(int, int) -> bool {
    |i: int, j: int| functions[i].range.start <= functions[j].range.start
}

/// The functions by where they start, and those with one start as they stand.
pub open spec fn by_start(functions: Seq<FunctionView>) -> Seq<FunctionView> {
    arranged(functions, sort::order_of(start_ranking(functions), functions.len()))
}

/// Whether functions stand in ascending order of their starts.
pub open spec fn starts_ascend(functions: Seq<FunctionView>) -> bool {
    forall|i: int, j: int|
        0 <= i <= j < functions.len() ==> (#[trigger] functions[i]).range.start <= (
        #[trigger] functions[j]).range.start
}

/// Putting functions in order of their starts keeps each of them, and leaves
/// functions that are in order as they stand.
pub proof fn lemma_by_start(functions: Seq<FunctionView>)
    ensures
        by_start(functions).len() == functions.len(),
        forall|i: int|
            0 <= i < functions.len() ==> functions.contains(#[trigger] by_start(functions)[i]),
        starts_ascend(by_start(functions)),
        starts_ascend(functions) ==> by_start(functions) == functions,
{
    let le = start_ranking(functions);
    let n = functions.len();
    assert(sort::total_preorder(le, n));
    sort::lemma_order_exists(le, n);
    let order = sort::order_of(le, n);
    let result = by_start(functions);
    assert forall|i: int| 0 <= i < n implies functions.contains(#[trigger] result[i]) by {
        assert(0 <= order[i] < n);
        assert(functions[order[i]] == result[i]);
    }
    assert forall|i: int, j: int| 0 <= i <= j < n implies (#[trigger] result[i]).range.start <= (
    #[trigger] result[j]).range.start by {
        if i < j {
            assert(sort::before(le, order[i], order[j]));
            assert(le(order[i], order[j]));
        }
    }
    if starts_ascend(functions) {
        let same = Seq::new(n, |i: int| i);
        assert(sort::is_order(le, n, same)) by {
            assert forall|a: int, b: int| 0 <= a < b < same.len() implies sort::before(
                le,
                #[trigger] same[a],
                #[trigger] same[b],
            ) by {
                assert(functions[a].range.start <= functions[b].range.start);
            }
            assert forall|x: int| 0 <= x < n implies #[trigger] same.contains(x) by {
                assert(same[x] == x);
            }
        }
        sort::lemma_order_unique(le, n, same);
        assert(result =~= functions);
    }
}

/// Functions ranked by where they start.
struct ByStart<'functions> {
    functions: &'functions Vec<Function>,
}

impl<'functions> Ranked for ByStart<'functions> {
    closed spec fn count(&self) -> nat {
        self.functions@.len()
    }

    closed spec fn ranks(&self) -> spec_fn(int, int) -> bool {
        start_ranking(model::function_views(self.functions@))
    }

    proof fn ranking(&self) {
    }

    fn at_most(&self, i: usize, j: usize) -> (result: bool) {
        proof {
            model::lemma_function_view(self.functions@[i as int]);
            model::lemma_function_view(self.functions@[j as int]);
        }
        self.functions[i].range.start <= self.functions[j].range.start
    }
}

/// Sorts functions by where they start.
pub fn sort_by_start(functions: Vec<Function>) -> (ordered: Vec<Function>)
    ensures
        model::function_views(ordered@) == by_start(model::function_views(functions@)),
{
    let ghost views = model::function_views(functions@);
    let count: usize = functions.len();
    let ranked = ByStart { functions: &functions };
    let order = sorted_order(&ranked, count);
    arrange(functions, order, Ghost(start_ranking(views)))
}

} // verus!
