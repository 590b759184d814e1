//! An order of functions by everything that they say.
use vstd::prelude::*;
use crate::model;
use crate::model::{
    AddressRange, CallSite, CallSiteView, Function, FunctionView, InlineNode, InlineView,
    LineEntry,
};

verus! {

/// The bytes of a string from index `i` on, before `rest`.
pub open spec fn byte_words(bytes: Seq<u8>, i: int, rest: Seq<int>) -> Seq<int>
    decreases bytes.len() - i,
{
    if i >= bytes.len() {
        rest
    } else {
        seq![bytes[i] as int] + byte_words(bytes, i + 1, rest)
    }
}

/// The length and the bytes of a string, before `rest`.
pub open spec fn string_words(bytes: Seq<u8>, rest: Seq<int>) -> Seq<int> {
    seq![bytes.len() as int] + byte_words(bytes, 0, rest)
}

/// The strings of a list from index `i` on, before `rest`.
pub open spec fn strings_words(strings: Seq<Seq<u8>>, i: int, rest: Seq<int>) -> Seq<int>
    decreases strings.len() - i,
{
    if i >= strings.len() {
        rest
    } else {
        string_words(strings[i], strings_words(strings, i + 1, rest))
    }
}

/// The rows of a list from index `i` on, before `rest`.
pub open spec fn rows_words(rows: Seq<LineEntry>, i: int, rest: Seq<int>) -> Seq<int>
    decreases rows.len() - i,
{
    if i >= rows.len() {
        rest
    } else {
        seq![rows[i].address as int] + (seq![rows[i].file.0 as int] + (seq![rows[i].line as int]
            + rows_words(rows, i + 1, rest)))
    }
}

/// The ranges of a list from index `i` on, before `rest`.
pub open spec fn ranges_words(ranges: Seq<AddressRange>, i: int, rest: Seq<int>) -> Seq<int>
    decreases ranges.len() - i,
{
    if i >= ranges.len() {
        rest
    } else {
        seq![ranges[i].start as int] + (seq![ranges[i].end as int] + ranges_words(
            ranges,
            i + 1,
            rest,
        ))
    }
}

/// The call sites of a list from index `i` on, before `rest`.
pub open spec fn sites_words(sites: Seq<CallSiteView>, i: int, rest: Seq<int>) -> Seq<int>
    decreases sites.len() - i,
{
    if i >= sites.len() {
        rest
    } else {
        seq![sites[i].return_offset as int] + (seq![sites[i].flags.0 as int] + (seq![
            sites[i].match_regex.len() as int,
        ] + strings_words(sites[i].match_regex, 0, sites_words(sites, i + 1, rest))))
    }
}

/// What an inline tree says, before `rest`.
pub open spec fn inline_words(node: InlineView, rest: Seq<int>) -> Seq<int>
    decreases node, 0int,
{
    string_words(
        node.name,
        seq![node.call_file.0 as int] + (seq![node.call_line as int] + (seq![
            node.ranges.len() as int,
        ] + ranges_words(
            node.ranges,
            0,
            seq![node.children.len() as int] + inlines_words(node.children, 0, rest),
        ))),
    )
}

/// What the inline trees of a list say from index `i` on, before `rest`.
pub open spec fn inlines_words(nodes: Seq<InlineView>, i: int, rest: Seq<int>) -> Seq<int>
    decreases nodes, nodes.len() - i,
    when 0 <= i
{
    if i >= nodes.len() {
        rest
    } else {
        inline_words(nodes[i], inlines_words(nodes, i + 1, rest))
    }
}

/// What the inline tree of a function says, if there is one, before `rest`.
pub open spec fn root_words(inline: Option<InlineView>, rest: Seq<int>) -> Seq<int> {
    match inline {
        None => seq![0int] + rest,
        Some(node) => seq![1int] + inline_words(node, rest),
    }
}

/// What a function says, before `rest`.
pub open spec fn function_words(function: FunctionView, rest: Seq<int>) -> Seq<int>
    decreases function, 0int,
{
    seq![function.range.start as int] + (seq![function.range.end as int] + string_words(
        function.name,
        seq![function.lines.len() as int] + rows_words(
            function.lines,
            0,
            root_words(
                function.inline,
                seq![function.call_sites.len() as int] + sites_words(
                    function.call_sites,
                    0,
                    seq![function.merged.len() as int] + functions_words(
                        function.merged,
                        0,
                        rest,
                    ),
                ),
            ),
        ),
    ))
}

/// What the functions of a list say from index `i` on, before `rest`.
pub open spec fn functions_words(functions: Seq<FunctionView>, i: int, rest: Seq<int>) -> Seq<int>
    decreases functions, functions.len() - i,
    when 0 <= i
{
    if i >= functions.len() {
        rest
    } else {
        function_words(functions[i], functions_words(functions, i + 1, rest))
    }
}

/// All that a function says.
pub open spec fn content_of(function: FunctionView) -> Seq<int> {
    function_words(function, Seq::empty())
}

proof fn lemma_head(x: int, a: Seq<int>, y: int, b: Seq<int>)
    requires
        seq![x] + a == seq![y] + b,
    ensures
        x == y,
        a == b,
{
    let left = seq![x] + a;
    let right = seq![y] + b;
    assert(left[0] == x && right[0] == y);
    assert(left.len() == 1 + a.len() && right.len() == 1 + b.len());
    assert forall|i: int| 0 <= i < a.len() implies a[i] == b[i] by {
        assert(left[i + 1] == a[i] && right[i + 1] == b[i]);
    }
    assert(a =~= b);
}

proof fn lemma_bytes_told(a: Seq<u8>, b: Seq<u8>, i: int, x: Seq<int>, y: Seq<int>)
    requires
        0 <= i <= a.len(),
        a.len() == b.len(),
        byte_words(a, i, x) == byte_words(b, i, y),
    ensures
        forall|k: int| i <= k < a.len() ==> a[k] == b[k],
        x == y,
    decreases a.len() - i,
{
    if i < a.len() {
        lemma_head(a[i] as int, byte_words(a, i + 1, x), b[i] as int, byte_words(b, i + 1, y));
        lemma_bytes_told(a, b, i + 1, x, y);
    }
}

proof fn lemma_string_told(a: Seq<u8>, b: Seq<u8>, x: Seq<int>, y: Seq<int>)
    requires
        string_words(a, x) == string_words(b, y),
    ensures
        a == b,
        x == y,
{
    lemma_head(a.len() as int, byte_words(a, 0, x), b.len() as int, byte_words(b, 0, y));
    lemma_bytes_told(a, b, 0, x, y);
    assert(a =~= b);
}

proof fn lemma_strings_told(a: Seq<Seq<u8>>, b: Seq<Seq<u8>>, i: int, x: Seq<int>, y: Seq<int>)
    requires
        0 <= i <= a.len(),
        a.len() == b.len(),
        strings_words(a, i, x) == strings_words(b, i, y),
    ensures
        forall|k: int| i <= k < a.len() ==> a[k] == b[k],
        x == y,
    decreases a.len() - i,
{
    if i < a.len() {
        lemma_string_told(a[i], b[i], strings_words(a, i + 1, x), strings_words(b, i + 1, y));
        lemma_strings_told(a, b, i + 1, x, y);
    }
}

proof fn lemma_rows_told(a: Seq<LineEntry>, b: Seq<LineEntry>, i: int, x: Seq<int>, y: Seq<int>)
    requires
        0 <= i <= a.len(),
        a.len() == b.len(),
        rows_words(a, i, x) == rows_words(b, i, y),
    ensures
        forall|k: int| i <= k < a.len() ==> a[k] == b[k],
        x == y,
    decreases a.len() - i,
{
    if i < a.len() {
        let (p, q) = (rows_words(a, i + 1, x), rows_words(b, i + 1, y));
        lemma_head(
            a[i].address as int,
            seq![a[i].file.0 as int] + (seq![a[i].line as int] + p),
            b[i].address as int,
            seq![b[i].file.0 as int] + (seq![b[i].line as int] + q),
        );
        lemma_head(
            a[i].file.0 as int,
            seq![a[i].line as int] + p,
            b[i].file.0 as int,
            seq![b[i].line as int] + q,
        );
        lemma_head(a[i].line as int, p, b[i].line as int, q);
        lemma_rows_told(a, b, i + 1, x, y);
    }
}

proof fn lemma_ranges_told(
    a: Seq<AddressRange>,
    b: Seq<AddressRange>,
    i: int,
    x: Seq<int>,
    y: Seq<int>,
)
    requires
        0 <= i <= a.len(),
        a.len() == b.len(),
        ranges_words(a, i, x) == ranges_words(b, i, y),
    ensures
        forall|k: int| i <= k < a.len() ==> a[k] == b[k],
        x == y,
    decreases a.len() - i,
{
    if i < a.len() {
        let (p, q) = (ranges_words(a, i + 1, x), ranges_words(b, i + 1, y));
        lemma_head(
            a[i].start as int,
            seq![a[i].end as int] + p,
            b[i].start as int,
            seq![b[i].end as int] + q,
        );
        lemma_head(a[i].end as int, p, b[i].end as int, q);
        lemma_ranges_told(a, b, i + 1, x, y);
    }
}

proof fn lemma_sites_told(
    a: Seq<CallSiteView>,
    b: Seq<CallSiteView>,
    i: int,
    x: Seq<int>,
    y: Seq<int>,
)
    requires
        0 <= i <= a.len(),
        a.len() == b.len(),
        sites_words(a, i, x) == sites_words(b, i, y),
    ensures
        forall|k: int| i <= k < a.len() ==> a[k] == b[k],
        x == y,
    decreases a.len() - i,
{
    if i < a.len() {
        let (p, q) = (sites_words(a, i + 1, x), sites_words(b, i + 1, y));
        let (m, n) = (a[i].match_regex, b[i].match_regex);
        let c = seq![m.len() as int] + strings_words(m, 0, p);
        let d = seq![n.len() as int] + strings_words(n, 0, q);
        lemma_head(
            a[i].return_offset as int,
            seq![a[i].flags.0 as int] + c,
            b[i].return_offset as int,
            seq![b[i].flags.0 as int] + d,
        );
        lemma_head(a[i].flags.0 as int, c, b[i].flags.0 as int, d);
        lemma_head(
            m.len() as int,
            strings_words(m, 0, p),
            n.len() as int,
            strings_words(n, 0, q),
        );
        lemma_strings_told(m, n, 0, p, q);
        assert(m =~= n);
        lemma_sites_told(a, b, i + 1, x, y);
    }
}

proof fn lemma_inline_told(a: InlineView, b: InlineView, x: Seq<int>, y: Seq<int>)
    requires
        inline_words(a, x) == inline_words(b, y),
    ensures
        a == b,
        x == y,
    decreases a, 0int,
{
    let (p1, q1) = (inlines_words(a.children, 0, x), inlines_words(b.children, 0, y));
    let p2 = seq![a.children.len() as int] + p1;
    let q2 = seq![b.children.len() as int] + q1;
    let (p3, q3) = (ranges_words(a.ranges, 0, p2), ranges_words(b.ranges, 0, q2));
    let p4 = seq![a.ranges.len() as int] + p3;
    let q4 = seq![b.ranges.len() as int] + q3;
    let p5 = seq![a.call_line as int] + p4;
    let q5 = seq![b.call_line as int] + q4;
    lemma_string_told(
        a.name,
        b.name,
        seq![a.call_file.0 as int] + p5,
        seq![b.call_file.0 as int] + q5,
    );
    lemma_head(a.call_file.0 as int, p5, b.call_file.0 as int, q5);
    lemma_head(a.call_line as int, p4, b.call_line as int, q4);
    lemma_head(a.ranges.len() as int, p3, b.ranges.len() as int, q3);
    lemma_ranges_told(a.ranges, b.ranges, 0, p2, q2);
    lemma_head(a.children.len() as int, p1, b.children.len() as int, q1);
    lemma_inlines_told(a.children, b.children, 0, x, y);
    assert(a.ranges =~= b.ranges);
    assert(a.children =~= b.children);
}

proof fn lemma_inlines_told(
    a: Seq<InlineView>,
    b: Seq<InlineView>,
    i: int,
    x: Seq<int>,
    y: Seq<int>,
)
    requires
        0 <= i <= a.len(),
        a.len() == b.len(),
        inlines_words(a, i, x) == inlines_words(b, i, y),
    ensures
        forall|k: int| i <= k < a.len() ==> a[k] == b[k],
        x == y,
    decreases a, a.len() - i,
{
    if i < a.len() {
        lemma_inline_told(a[i], b[i], inlines_words(a, i + 1, x), inlines_words(b, i + 1, y));
        lemma_inlines_told(a, b, i + 1, x, y);
    }
}

proof fn lemma_root_told(
    a: Option<InlineView>,
    b: Option<InlineView>,
    x: Seq<int>,
    y: Seq<int>,
)
    requires
        root_words(a, x) == root_words(b, y),
    ensures
        a == b,
        x == y,
{
    let p = match a {
        None => x,
        Some(node) => inline_words(node, x),
    };
    let q = match b {
        None => y,
        Some(node) => inline_words(node, y),
    };
    let (m, n) = (
        if a is None {
            0int
        } else {
            1int
        },
        if b is None {
            0int
        } else {
            1int
        },
    );
    lemma_head(m, p, n, q);
    if a is Some {
        lemma_inline_told(a->0, b->0, x, y);
    }
}

proof fn lemma_function_told(a: FunctionView, b: FunctionView, x: Seq<int>, y: Seq<int>)
    requires
        function_words(a, x) == function_words(b, y),
    ensures
        a == b,
        x == y,
    decreases a, 0int,
{
    let (p1, q1) = (functions_words(a.merged, 0, x), functions_words(b.merged, 0, y));
    let p2 = seq![a.merged.len() as int] + p1;
    let q2 = seq![b.merged.len() as int] + q1;
    let (p3, q3) = (sites_words(a.call_sites, 0, p2), sites_words(b.call_sites, 0, q2));
    let p4 = seq![a.call_sites.len() as int] + p3;
    let q4 = seq![b.call_sites.len() as int] + q3;
    let (p5, q5) = (root_words(a.inline, p4), root_words(b.inline, q4));
    let (p6, q6) = (rows_words(a.lines, 0, p5), rows_words(b.lines, 0, q5));
    let p7 = seq![a.lines.len() as int] + p6;
    let q7 = seq![b.lines.len() as int] + q6;
    let (p8, q8) = (string_words(a.name, p7), string_words(b.name, q7));
    lemma_head(
        a.range.start as int,
        seq![a.range.end as int] + p8,
        b.range.start as int,
        seq![b.range.end as int] + q8,
    );
    lemma_head(a.range.end as int, p8, b.range.end as int, q8);
    lemma_string_told(a.name, b.name, p7, q7);
    lemma_head(a.lines.len() as int, p6, b.lines.len() as int, q6);
    lemma_rows_told(a.lines, b.lines, 0, p5, q5);
    lemma_root_told(a.inline, b.inline, p4, q4);
    lemma_head(a.call_sites.len() as int, p3, b.call_sites.len() as int, q3);
    lemma_sites_told(a.call_sites, b.call_sites, 0, p2, q2);
    lemma_head(a.merged.len() as int, p1, b.merged.len() as int, q1);
    lemma_functions_told(a.merged, b.merged, 0, x, y);
    assert(a.lines =~= b.lines);
    assert(a.call_sites =~= b.call_sites);
    assert(a.merged =~= b.merged);
}

proof fn lemma_functions_told(
    a: Seq<FunctionView>,
    b: Seq<FunctionView>,
    i: int,
    x: Seq<int>,
    y: Seq<int>,
)
    requires
        0 <= i <= a.len(),
        a.len() == b.len(),
        functions_words(a, i, x) == functions_words(b, i, y),
    ensures
        forall|k: int| i <= k < a.len() ==> a[k] == b[k],
        x == y,
    decreases a, a.len() - i,
{
    if i < a.len() {
        lemma_function_told(
            a[i],
            b[i],
            functions_words(a, i + 1, x),
            functions_words(b, i + 1, y),
        );
        lemma_functions_told(a, b, i + 1, x, y);
    }
}

/// Whether numbers come no later than others, from index `i` on.
pub open spec fn words_at_most(a: Seq<int>, b: Seq<int>, i: int) -> bool
    decreases a.len() - i,
{
    if i >= a.len() {
        true
    } else if i >= b.len() {
        false
    } else {
        a[i] < b[i] || (a[i] == b[i] && words_at_most(a, b, i + 1))
    }
}

/// Whether a function comes no later than another, by all that they say.
pub open spec fn content_at_most(a: FunctionView, b: FunctionView) -> bool {
    words_at_most(content_of(a), content_of(b), 0)
}

proof fn lemma_words_total(a: Seq<int>, b: Seq<int>, i: int)
    requires
        0 <= i <= a.len(),
        i <= b.len(),
        forall|k: int| 0 <= k < i ==> a[k] == b[k],
    ensures
        words_at_most(a, b, i) || words_at_most(b, a, i),
        words_at_most(a, b, i) && words_at_most(b, a, i) ==> a == b,
    decreases a.len() - i,
{
    if i < a.len() && i < b.len() && a[i] == b[i] {
        lemma_words_total(a, b, i + 1);
    } else if i == a.len() && i == b.len() {
        assert(a =~= b);
    }
}

proof fn lemma_words_chain(a: Seq<int>, b: Seq<int>, c: Seq<int>, i: int)
    requires
        0 <= i,
        words_at_most(a, b, i),
        words_at_most(b, c, i),
    ensures
        words_at_most(a, c, i),
    decreases a.len() - i,
{
    if i < a.len() && a[i] == b[i] && b[i] == c[i] {
        lemma_words_chain(a, b, c, i + 1);
    }
}

/// Any two functions compare by what they say, and only a function itself comes
/// both before and behind it.
pub proof fn lemma_content_total(a: FunctionView, b: FunctionView)
    ensures
        content_at_most(a, b) || content_at_most(b, a),
        content_at_most(a, b) && content_at_most(b, a) ==> a == b,
{
    lemma_words_total(content_of(a), content_of(b), 0);
    if content_of(a) == content_of(b) {
        lemma_function_told(a, b, Seq::empty(), Seq::empty());
    }
}

/// Comparisons of functions by what they say chain.
pub proof fn lemma_content_chain(a: FunctionView, b: FunctionView, c: FunctionView)
    requires
        content_at_most(a, b),
        content_at_most(b, c),
    ensures
        content_at_most(a, c),
{
    lemma_words_chain(content_of(a), content_of(b), content_of(c), 0);
}

/// The words of a stack, the topmost first.
spec fn stacked(stack: Seq<u64>) -> Seq<int> {
    Seq::new(stack.len(), |i: int| stack[stack.len() - 1 - i] as int)
}

fn push_word(stack: &mut Vec<u64>, word: u64)
    ensures
        stacked(final(stack)@) == seq![word as int] + stacked(old(stack)@),
{
    stack.push(word);
    assert(stacked(stack@) =~= seq![word as int] + stacked(old(stack)@));
}

fn push_string(stack: &mut Vec<u64>, bytes: &Vec<u8>)
    ensures
        stacked(final(stack)@) == string_words(bytes@, stacked(old(stack)@)),
{
    let ghost rest = stacked(stack@);
    let mut i: usize = bytes.len();
    while i > 0
        invariant
            i <= bytes@.len(),
            rest == stacked(old(stack)@),
            stacked(stack@) == byte_words(bytes@, i as int, rest),
        decreases i,
    {
        i = i - 1;
        push_word(stack, bytes[i] as u64);
    }
    push_word(stack, bytes.len() as u64);
}

fn push_rows(stack: &mut Vec<u64>, rows: &Vec<LineEntry>)
    ensures
        stacked(final(stack)@) == seq![rows@.len() as int] + rows_words(
            rows@,
            0,
            stacked(old(stack)@),
        ),
{
    let ghost rest = stacked(stack@);
    let mut i: usize = rows.len();
    while i > 0
        invariant
            i <= rows@.len(),
            rest == stacked(old(stack)@),
            stacked(stack@) == rows_words(rows@, i as int, rest),
        decreases i,
    {
        i = i - 1;
        push_word(stack, rows[i].line as u64);
        push_word(stack, rows[i].file.0 as u64);
        push_word(stack, rows[i].address);
    }
    push_word(stack, rows.len() as u64);
}

fn push_ranges(stack: &mut Vec<u64>, ranges: &Vec<AddressRange>)
    ensures
        stacked(final(stack)@) == seq![ranges@.len() as int] + ranges_words(
            ranges@,
            0,
            stacked(old(stack)@),
        ),
{
    let ghost rest = stacked(stack@);
    let mut i: usize = ranges.len();
    while i > 0
        invariant
            i <= ranges@.len(),
            rest == stacked(old(stack)@),
            stacked(stack@) == ranges_words(ranges@, i as int, rest),
        decreases i,
    {
        i = i - 1;
        push_word(stack, ranges[i].end);
        push_word(stack, ranges[i].start);
    }
    push_word(stack, ranges.len() as u64);
}

fn push_site(stack: &mut Vec<u64>, site: &CallSite)
    ensures
        stacked(final(stack)@) == seq![site@.return_offset as int] + (seq![
            site@.flags.0 as int,
        ] + (seq![site@.match_regex.len() as int] + strings_words(
            site@.match_regex,
            0,
            stacked(old(stack)@),
        ))),
{
    let ghost rest = stacked(stack@);
    let ghost patterns = site@.match_regex;
    let mut i: usize = site.match_regex.len();
    assert(patterns.len() == site.match_regex@.len());
    while i > 0
        invariant
            i <= site.match_regex@.len(),
            patterns == site@.match_regex,
            patterns.len() == site.match_regex@.len(),
            rest == stacked(old(stack)@),
            stacked(stack@) == strings_words(patterns, i as int, rest),
        decreases i,
    {
        i = i - 1;
        assert(patterns[i as int] == site.match_regex@[i as int]@);
        push_string(stack, &site.match_regex[i]);
    }
    push_word(stack, site.match_regex.len() as u64);
    push_word(stack, site.flags.0 as u64);
    push_word(stack, site.return_offset);
}

fn push_sites(stack: &mut Vec<u64>, sites: &Vec<CallSite>)
    ensures
        stacked(final(stack)@) == seq![sites@.len() as int] + sites_words(
            model::call_site_views(sites@),
            0,
            stacked(old(stack)@),
        ),
{
    let ghost rest = stacked(stack@);
    let ghost views = model::call_site_views(sites@);
    let mut i: usize = sites.len();
    while i > 0
        invariant
            i <= sites@.len(),
            views == model::call_site_views(sites@),
            rest == stacked(old(stack)@),
            stacked(stack@) == sites_words(views, i as int, rest),
        decreases i,
    {
        i = i - 1;
        assert(views[i as int] == sites@[i as int]@);
        push_site(stack, &sites[i]);
    }
    push_word(stack, sites.len() as u64);
}

fn push_inline(stack: &mut Vec<u64>, node: &InlineNode)
    ensures
        stacked(final(stack)@) == inline_words(node@, stacked(old(stack)@)),
    decreases node,
{
    proof {
        model::lemma_inline_view(*node);
    }
    let ghost rest = stacked(stack@);
    let ghost views = model::inline_views(node.children@);
    let mut i: usize = node.children.len();
    while i > 0
        invariant
            i <= node.children@.len(),
            views == model::inline_views(node.children@),
            rest == stacked(old(stack)@),
            stacked(stack@) == inlines_words(views, i as int, rest),
        decreases i,
    {
        i = i - 1;
        assert(decreases_to!(node => node.children@[i as int]));
        assert(views[i as int] == node.children@[i as int]@);
        push_inline(stack, &node.children[i]);
    }
    push_word(stack, node.children.len() as u64);
    push_ranges(stack, &node.ranges);
    push_word(stack, node.call_line as u64);
    push_word(stack, node.call_file.0 as u64);
    push_string(stack, &node.name);
}

fn push_function(stack: &mut Vec<u64>, function: &Function)
    ensures
        stacked(final(stack)@) == function_words(function@, stacked(old(stack)@)),
    decreases function,
{
    proof {
        model::lemma_function_view(*function);
    }
    let ghost rest = stacked(stack@);
    let ghost views = model::function_views(function.merged@);
    let mut i: usize = function.merged.len();
    while i > 0
        invariant
            i <= function.merged@.len(),
            views == model::function_views(function.merged@),
            rest == stacked(old(stack)@),
            stacked(stack@) == functions_words(views, i as int, rest),
        decreases i,
    {
        i = i - 1;
        assert(decreases_to!(function => function.merged@[i as int]));
        assert(views[i as int] == function.merged@[i as int]@);
        push_function(stack, &function.merged[i]);
    }
    push_word(stack, function.merged.len() as u64);
    push_sites(stack, &function.call_sites);
    match &function.inline {
        None => {
            push_word(stack, 0);
        },
        Some(node) => {
            push_inline(stack, node);
            push_word(stack, 1);
        },
    }
    push_rows(stack, &function.lines);
    push_string(stack, &function.name);
    push_word(stack, function.range.end);
    push_word(stack, function.range.start);
}

/// Decides whether a function comes no later than another, by all that they say.
pub fn is_content_at_most(a: &Function, b: &Function) -> (result: bool)
    ensures
        result == content_at_most(a@, b@),
{
    let mut left: Vec<u64> = Vec::new();
    let mut right: Vec<u64> = Vec::new();
    assert(stacked(left@) =~= Seq::<int>::empty());
    assert(stacked(right@) =~= Seq::<int>::empty());
    push_function(&mut left, a);
    push_function(&mut right, b);
    let ghost x = stacked(left@);
    let ghost y = stacked(right@);
    let mut i: usize = 0;
    while i < left.len() && i < right.len()
        invariant
            x == stacked(left@),
            y == stacked(right@),
            x == content_of(a@),
            y == content_of(b@),
            i <= left@.len(),
            i <= right@.len(),
            words_at_most(x, y, 0) == words_at_most(x, y, i as int),
        decreases left@.len() - i,
    {
        let p: u64 = left[left.len() - 1 - i];
        let q: u64 = right[right.len() - 1 - i];
        assert(x.len() == left@.len() && y.len() == right@.len());
        assert(x[i as int] == p && y[i as int] == q);
        if p != q {
            return p < q;
        }
        i = i + 1;
    }
    i >= left.len()
}

} // verus!
