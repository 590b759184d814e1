//! Equality of functions.
use vstd::prelude::*;
use crate::model;
use crate::model::{same_bytes, AddressRange, CallSite, Function, InlineNode, LineEntry};

verus! {

/// Compares address ranges.
pub fn same_ranges(a: &Vec<AddressRange>, b: &Vec<AddressRange>) -> (same: bool)
    ensures
        same == (a@ == b@),
{
    if a.len() != b.len() {
        return false;
    }
    let mut i: usize = 0;
    while i < a.len()
        invariant
            i <= a@.len(),
            a@.len() == b@.len(),
            forall|k: int| 0 <= k < i ==> a@[k] == b@[k],
        decreases a@.len() - i,
    {
        if a[i] != b[i] {
            return false;
        }
        i = i + 1;
    }
    assert(a@ =~= b@);
    true
}

/// Compares line rows.
pub fn same_lines(a: &Vec<LineEntry>, b: &Vec<LineEntry>) -> (same: bool)
    ensures
        same == (a@ == b@),
{
    if a.len() != b.len() {
        return false;
    }
    let mut i: usize = 0;
    while i < a.len()
        invariant
            i <= a@.len(),
            a@.len() == b@.len(),
            forall|k: int| 0 <= k < i ==> a@[k] == b@[k],
        decreases a@.len() - i,
    {
        if a[i] != b[i] {
            return false;
        }
        i = i + 1;
    }
    assert(a@ =~= b@);
    true
}

/// Compares byte strings.
pub fn same_strings(a: &Vec<Vec<u8>>, b: &Vec<Vec<u8>>) -> (same: bool)
    ensures
        same == (model::byte_views(a@) == model::byte_views(b@)),
{
    let ghost left = model::byte_views(a@);
    let ghost right = model::byte_views(b@);
    if a.len() != b.len() {
        assert(left.len() != right.len());
        return false;
    }
    let mut i: usize = 0;
    while i < a.len()
        invariant
            i <= a@.len(),
            a@.len() == b@.len(),
            left == model::byte_views(a@),
            right == model::byte_views(b@),
            forall|k: int| 0 <= k < i ==> left[k] == right[k],
        decreases a@.len() - i,
    {
        if !same_bytes(a[i].as_slice(), b[i].as_slice()) {
            assert(left[i as int] != right[i as int]);
            return false;
        }
        i = i + 1;
    }
    assert(left =~= right);
    true
}

/// Compares call sites.
pub fn same_call_sites(a: &Vec<CallSite>, b: &Vec<CallSite>) -> (same: bool)
    ensures
        same == (model::call_site_views(a@) == model::call_site_views(b@)),
{
    let ghost left = model::call_site_views(a@);
    let ghost right = model::call_site_views(b@);
    if a.len() != b.len() {
        assert(left.len() != right.len());
        return false;
    }
    let mut i: usize = 0;
    while i < a.len()
        invariant
            i <= a@.len(),
            a@.len() == b@.len(),
            left == model::call_site_views(a@),
            right == model::call_site_views(b@),
            forall|k: int| 0 <= k < i ==> left[k] == right[k],
        decreases a@.len() - i,
    {
        let one = &a[i];
        let two = &b[i];
        if one.return_offset != two.return_offset || one.flags != two.flags || !same_strings(
            &one.match_regex,
            &two.match_regex,
        ) {
            assert(left[i as int] != right[i as int]);
            return false;
        }
        i = i + 1;
    }
    assert(left =~= right);
    true
}

/// Compares inline trees.
pub fn same_inline(a: &InlineNode, b: &InlineNode) -> (same: bool)
    ensures
        same == (a@ == b@),
    decreases a,
{
    proof {
        model::lemma_inline_view(*a);
        model::lemma_inline_view(*b);
    }
    if !same_ranges(&a.ranges, &b.ranges) || !same_bytes(a.name.as_slice(), b.name.as_slice())
        || a.call_file != b.call_file || a.call_line != b.call_line {
        return false;
    }
    let ghost left = model::inline_views(a.children@);
    let ghost right = model::inline_views(b.children@);
    if a.children.len() != b.children.len() {
        assert(left.len() != right.len());
        return false;
    }
    let mut i: usize = 0;
    while i < a.children.len()
        invariant
            i <= a.children@.len(),
            a.children@.len() == b.children@.len(),
            left == model::inline_views(a.children@),
            right == model::inline_views(b.children@),
            a@.children == left,
            b@.children == right,
            forall|k: int| 0 <= k < i ==> left[k] == right[k],
        decreases a.children@.len() - i,
    {
        assert(decreases_to!(a => a.children@[i as int]));
        if !same_inline(&a.children[i], &b.children[i]) {
            assert(left[i as int] != right[i as int]);
            return false;
        }
        i = i + 1;
    }
    assert(left =~= right);
    true
}

/// Compares functions.
pub fn same_function(a: &Function, b: &Function) -> (same: bool)
    ensures
        same == (a@ == b@),
    decreases a,
{
    proof {
        model::lemma_function_view(*a);
        model::lemma_function_view(*b);
    }
    if a.range != b.range || !same_bytes(a.name.as_slice(), b.name.as_slice()) || !same_lines(
        &a.lines,
        &b.lines,
    ) || !same_call_sites(&a.call_sites, &b.call_sites) {
        return false;
    }
    let inline: bool = match (&a.inline, &b.inline) {
        (Some(one), Some(two)) => same_inline(one, two),
        (None, None) => true,
        _ => false,
    };
    if !inline {
        return false;
    }
    let ghost left = model::function_views(a.merged@);
    let ghost right = model::function_views(b.merged@);
    if a.merged.len() != b.merged.len() {
        assert(left.len() != right.len());
        return false;
    }
    let mut i: usize = 0;
    while i < a.merged.len()
        invariant
            i <= a.merged@.len(),
            a.merged@.len() == b.merged@.len(),
            left == model::function_views(a.merged@),
            right == model::function_views(b.merged@),
            a@.merged == left,
            b@.merged == right,
            forall|k: int| 0 <= k < i ==> left[k] == right[k],
        decreases a.merged@.len() - i,
    {
        assert(decreases_to!(a => a.merged@[i as int]));
        if !same_function(&a.merged[i], &b.merged[i]) {
            assert(left[i as int] != right[i as int]);
            return false;
        }
        i = i + 1;
    }
    assert(left =~= right);
    true
}

} // verus!
