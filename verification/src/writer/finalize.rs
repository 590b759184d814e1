//! The functions of a file as they are written.
use vstd::prelude::*;
use crate::equality::same_function;
use crate::model;
use crate::model::{copy_bytes, same_bytes, AddressRange, Function, FunctionView};
use crate::normalize;
use crate::normalize::compact_function_lines;
use crate::writer::ordering;
use crate::writer::ordering::{into_slots, sort_by_ordering_key};

verus! {

/// How finalization treats functions that share an address range.
#[derive(Clone, Copy, Debug, PartialEq, Eq, Structural)]
#[non_exhaustive]
pub enum FunctionSetPolicy {
    /// Keep the richest record of each equal-range group.
    Deduplicate,
    /// Keep equal-range aliases as merged records.
    MergeEqualRanges,
    /// Encode every function as supplied.
    Preserve,
}

impl Default for FunctionSetPolicy {
    fn default() -> (policy: Self)
        ensures
            policy == FunctionSetPolicy::Deduplicate,
    {
        FunctionSetPolicy::Deduplicate
    }
}

/// The list with its last item replaced.
pub open spec fn with_last(done: Seq<FunctionView>, function: FunctionView) -> Seq<FunctionView> {
    done.drop_last().push(function)
}

/// The functions `done` with one more, merged into the last one where they
/// share a range. One that repeats the function before it is left out.
pub open spec fn merge_step(done: Seq<FunctionView>, function: FunctionView) -> Seq<FunctionView> {
    if done.len() > 0 && done.last().range == function.range {
        let parent = done.last();
        let previous = if parent.merged.len() > 0 {
            parent.merged.last()
        } else {
            parent
        };
        if previous != function {
            with_last(done, FunctionView { merged: parent.merged.push(function), ..parent })
        } else {
            done
        }
    } else {
        done.push(function)
    }
}

/// The functions with those that share a range merged into the first of them.
pub open spec fn merged_functions(functions: Seq<FunctionView>) -> Seq<FunctionView>
    decreases functions.len(),
{
    if functions.len() == 0 {
        functions
    } else {
        merge_step(merged_functions(functions.drop_last()), functions.last())
    }
}

/// Whether a function says more than its range and name.
pub open spec fn is_rich(function: FunctionView) -> bool {
    function.lines.len() > 0 || function.inline is Some || function.call_sites.len() > 0
}

/// Whether a name is mangled in a way that is known.
pub open spec fn is_mangled(name: Seq<u8>) -> bool {
    name.len() >= 2 && ((name[0] == 0x5f && name[1] == 0x5a) || (name[0] == 0x24 && (name[1] == 0x73
        || name[1] == 0x53)))
}

/// The decimal digits of a number.
pub open spec fn decimal(number: nat) -> Seq<u8>
    decreases number,
{
    if number < 10 {
        seq![(0x30 + number) as u8]
    } else {
        decimal(number / 10).push((0x30 + number % 10) as u8)
    }
}

/// Whether `part` occurs in `whole`.
pub open spec fn occurs(part: Seq<u8>, whole: Seq<u8>) -> bool {
    exists|at: int|
        0 <= at <= whole.len() - part.len() && #[trigger] whole.subrange(at, at + part.len())
            == part
}

/// Whether `alternate` is the mangled form of the plain name `current`: it
/// holds the name behind the length of the name.
pub open spec fn mangles(alternate: Seq<u8>, current: Seq<u8>) -> bool {
    if current.len() == 0 {
        alternate.len() > 0
    } else {
        !is_mangled(current) && is_mangled(alternate) && occurs(
            decimal(current.len()) + current,
            alternate,
        )
    }
}

/// The one that is kept of two functions that share a range. A function with
/// records replaces one without, under the name of the other where that is its
/// mangled form. Otherwise the later one is kept.
pub open spec fn kept(previous: FunctionView, function: FunctionView) -> FunctionView {
    if is_rich(previous) && !is_rich(function) {
        previous
    } else if !is_rich(previous) && is_rich(function) && mangles(previous.name, function.name) {
        FunctionView { name: previous.name, ..function }
    } else {
        function
    }
}

/// The functions `done` with one more, of which one is kept where it shares a
/// range with the last one, or covers a last one of unknown size.
pub open spec fn deduplicate_step(done: Seq<FunctionView>, function: FunctionView) -> Seq<
    FunctionView,
> {
    if done.len() > 0 && done.last().range == function.range {
        with_last(done, kept(done.last(), function))
    } else if done.len() > 0 && done.last().range.spec_size() == 0 && function.range.spec_contains(
        done.last().range.start,
    ) {
        with_last(done, function)
    } else {
        done.push(function)
    }
}

/// The functions with one kept of those that share a range.
pub open spec fn deduplicated(functions: Seq<FunctionView>) -> Seq<FunctionView>
    decreases functions.len(),
{
    if functions.len() == 0 {
        functions
    } else {
        deduplicate_step(deduplicated(functions.drop_last()), functions.last())
    }
}

/// The end of the first of the ranges from index `i` on that contains `start`,
/// or `start` where there is none.
pub open spec fn enclosing_end(ranges: Seq<AddressRange>, i: int, start: u64) -> u64
    decreases ranges.len() - i,
{
    if i >= ranges.len() {
        start
    } else if ranges[i].spec_contains(start) {
        ranges[i].end
    } else {
        enclosing_end(ranges, i + 1, start)
    }
}

/// The range of a function of unknown size up to the end of the executable
/// range that it starts in.
pub open spec fn repaired_range(ranges: Seq<AddressRange>, start: u64) -> AddressRange {
    let end = enclosing_end(ranges, 0, start);
    AddressRange {
        start,
        end: if end - start > u32::MAX {
            (start + u32::MAX) as u64
        } else {
            end
        },
    }
}

/// Whether everything that a function says fits the given range.
pub open spec fn keeps_records(function: FunctionView, range: AddressRange) -> bool
    decreases function,
{
    &&& forall|i: int|
        0 <= i < function.lines.len() ==> range.spec_contains(
            (#[trigger] function.lines[i]).address,
        )
    &&& forall|i: int|
        0 <= i < function.call_sites.len() ==> (#[trigger] function.call_sites[i]).return_offset
            < range.spec_size()
    &&& function.inline is Some ==> forall|i: int|
        0 <= i < function.inline->0.ranges.len() ==> range.spec_contains_range(
            #[trigger] function.inline->0.ranges[i],
        )
    &&& forall|i: int|
        0 <= i < function.merged.len() ==> keeps_records(#[trigger] function.merged[i], range)
}

/// A function under another range, with everything that is merged into it.
pub open spec fn with_range(function: FunctionView, range: AddressRange) -> FunctionView
    decreases function,
{
    FunctionView {
        range,
        merged: Seq::new(
            function.merged.len(),
            |i: int|
                if 0 <= i < function.merged.len() {
                    with_range(function.merged[i], range)
                } else {
                    arbitrary()
                },
        ),
        ..function
    }
}

/// The functions of a list under another range.
pub open spec fn all_with_range(functions: Seq<FunctionView>, range: AddressRange) -> Seq<
    FunctionView,
> {
    Seq::new(functions.len(), |i: int| with_range(functions[i], range))
}

/// A function under another range, one level at a time.
pub proof fn lemma_with_range(function: FunctionView, range: AddressRange)
    ensures
        with_range(function, range) == (FunctionView {
            range,
            merged: all_with_range(function.merged, range),
            ..function
        }),
{
    assert(with_range(function, range).merged =~= all_with_range(function.merged, range));
}

/// The functions with the last one extended, where its size is unknown and it
/// can be.
pub open spec fn repaired(functions: Seq<FunctionView>, ranges: Seq<AddressRange>) -> Seq<
    FunctionView,
> {
    if functions.len() > 0 && functions.last().range.spec_size() == 0 {
        let range = repaired_range(ranges, functions.last().range.start);
        if keeps_records(functions.last(), range) {
            with_last(functions, with_range(functions.last(), range))
        } else {
            functions
        }
    } else {
        functions
    }
}

/// The functions without those that are merged into them.
pub open spec fn unmerged(functions: Seq<FunctionView>) -> Seq<FunctionView> {
    Seq::new(functions.len(), |i: int| FunctionView { merged: Seq::empty(), ..functions[i] })
}

/// The functions before they are put in order. Merged functions are written only
/// where functions with one range are merged, or all is written as supplied.
pub open spec fn prepared(functions: Seq<FunctionView>, policy: FunctionSetPolicy) -> Seq<
    FunctionView,
> {
    match policy {
        FunctionSetPolicy::MergeEqualRanges => normalize::functions_compacted(functions),
        FunctionSetPolicy::Deduplicate => unmerged(normalize::functions_compacted(functions)),
        FunctionSetPolicy::Preserve => functions,
    }
}

/// The functions as they are written.
pub open spec fn finalized(
    functions: Seq<FunctionView>,
    ranges: Seq<AddressRange>,
    repair: bool,
    policy: FunctionSetPolicy,
) -> Seq<FunctionView> {
    let ordered = ordering::sorted(prepared(functions, policy));
    let chosen = match policy {
        FunctionSetPolicy::MergeEqualRanges => merged_functions(ordered),
        FunctionSetPolicy::Deduplicate => deduplicated(ordered),
        FunctionSetPolicy::Preserve => ordered,
    };
    if repair {
        repaired(chosen, ranges)
    } else {
        chosen
    }
}

/// Merges functions that share a range into the first of them.
pub fn merge_equal_ranges(functions: Vec<Function>) -> (merged: Vec<Function>)
    ensures
        model::function_views(merged@) == merged_functions(model::function_views(functions@)),
{
    let ghost given = functions@;
    let ghost views = model::function_views(given);
    let count: usize = functions.len();
    let mut slots = into_slots(functions);
    let mut merged: Vec<Function> = Vec::new();
    let mut i: usize = 0;
    assert(views.subrange(0, 0) =~= Seq::<FunctionView>::empty());
    assert(model::function_views(merged@) =~= merged_functions(views.subrange(0, 0)));
    while i < count
        invariant
            i <= count,
            count == given.len(),
            slots@.len() == count,
            views == model::function_views(given),
            forall|k: int| i <= k < count ==> #[trigger] slots@[k] == Some(given[k]),
            model::function_views(merged@) == merged_functions(views.subrange(0, i as int)),
        decreases count - i,
    {
        let mut taken: Option<Function> = None;
        std::mem::swap(&mut taken, &mut slots[i]);
        let ghost done = model::function_views(merged@);
        proof {
            assert(views.subrange(0, i + 1).drop_last() =~= views.subrange(0, i as int));
            assert(views.subrange(0, i + 1).last() == given[i as int]@);
        }
        if let Some(function) = taken {
            let ghost view = function@;
            let last: Option<Function> = merged.pop();
            match last {
                None => {
                    merged.push(function);
                    assert(model::function_views(merged@) =~= merge_step(done, view));
                },
                Some(mut parent) => {
                    proof {
                        model::lemma_function_view(parent);
                        assert(done.last() == parent@);
                        assert(model::function_views(merged@) =~= done.drop_last());
                    }
                    if parent.range == function.range {
                        let children: usize = parent.merged.len();
                        let repeated: bool = if children > 0 {
                            assert(parent@.merged.last() == parent.merged@[children - 1]@);
                            same_function(&parent.merged[children - 1], &function)
                        } else {
                            same_function(&parent, &function)
                        };
                        let ghost before = parent@;
                        if !repeated {
                            let ghost list = model::function_views(parent.merged@);
                            parent.merged.push(function);
                            proof {
                                model::lemma_function_view(parent);
                                assert(model::function_views(parent.merged@) =~= list.push(view));
                            }
                        }
                        merged.push(parent);
                        proof {
                            assert(model::function_views(merged@) =~= with_last(done, parent@));
                            if repeated {
                                assert(with_last(done, parent@) =~= done);
                            }
                        }
                    } else {
                        merged.push(parent);
                        merged.push(function);
                        assert(model::function_views(merged@) =~= done.push(view));
                    }
                },
            }
        }
        i = i + 1;
    }
    assert(views.subrange(0, count as int) =~= views);
    merged
}

fn has_rich_info(function: &Function) -> (rich: bool)
    ensures
        rich == is_rich(function@),
{
    proof {
        model::lemma_function_view(*function);
    }
    function.lines.len() > 0 || function.inline.is_some() || function.call_sites.len() > 0
}

fn is_supported_mangled(name: &[u8]) -> (mangled: bool)
    ensures
        mangled == is_mangled(name@),
{
    name.len() >= 2 && ((name[0] == 0x5f && name[1] == 0x5a) || (name[0] == 0x24 && (name[1] == 0x73
        || name[1] == 0x53)))
}

/// Writes a number in decimal digits.
pub fn decimal_digits(number: usize) -> (digits: Vec<u8>)
    ensures
        digits@ == decimal(number as nat),
    decreases number,
{
    if number < 10 {
        let mut digits: Vec<u8> = Vec::new();
        digits.push(0x30 + number as u8);
        assert(digits@ =~= decimal(number as nat));
        digits
    } else {
        let mut digits = decimal_digits(number / 10);
        digits.push(0x30 + (number % 10) as u8);
        digits
    }
}

fn contains_bytes(whole: &[u8], part: &[u8]) -> (contains: bool)
    ensures
        contains == occurs(part@, whole@),
{
    let len: usize = whole.len();
    let size: usize = part.len();
    if size > len {
        return false;
    }
    let mut at: usize = 0;
    loop
        invariant
            len == whole@.len(),
            size == part@.len(),
            at <= len - size,
            forall|k: int|
                0 <= k < at ==> #[trigger] whole@.subrange(k, k + part@.len()) != part@,
        decreases len - size - at,
    {
        let window = vstd::slice::slice_subrange(whole, at, at + size);
        if same_bytes(window, part) {
            assert(whole@.subrange(at as int, at + part@.len()) == part@);
            return true;
        }
        if at == len - size {
            return false;
        }
        at = at + 1;
    }
}

/// Decides whether a name is to be replaced by its mangled form.
pub fn should_replace_with_mangled_name(alternate: &[u8], current: &[u8]) -> (replace: bool)
    ensures
        replace == mangles(alternate@, current@),
{
    if current.len() == 0 {
        return alternate.len() > 0;
    }
    if is_supported_mangled(current) || !is_supported_mangled(alternate) {
        return false;
    }
    let mut token = decimal_digits(current.len());
    token.extend_from_slice(current);
    assert(token@ =~= decimal(current@.len()) + current@);
    contains_bytes(alternate, token.as_slice())
}

fn keep_one(previous: Function, function: Function) -> (one: Function)
    ensures
        one@ == kept(previous@, function@),
{
    let mut function = function;
    let ghost given = function;
    proof {
        model::lemma_function_view(previous);
        model::lemma_function_view(function);
    }
    let previous_rich: bool = has_rich_info(&previous);
    let current_rich: bool = has_rich_info(&function);
    if previous_rich && !current_rich {
        return previous;
    }
    if !previous_rich && current_rich && should_replace_with_mangled_name(
        previous.name.as_slice(),
        function.name.as_slice(),
    ) {
        function.name = copy_bytes(previous.name.as_slice());
        proof {
            model::lemma_function_view(function);
        }
    }
    function
}

/// Keeps one of the functions that share a range.
pub fn deduplicate(functions: Vec<Function>) -> (kept_functions: Vec<Function>)
    ensures
        model::function_views(kept_functions@) == deduplicated(model::function_views(functions@)),
{
    let ghost given = functions@;
    let ghost views = model::function_views(given);
    let count: usize = functions.len();
    let mut slots = into_slots(functions);
    let mut result: Vec<Function> = Vec::new();
    let mut i: usize = 0;
    assert(views.subrange(0, 0) =~= Seq::<FunctionView>::empty());
    assert(model::function_views(result@) =~= deduplicated(views.subrange(0, 0)));
    while i < count
        invariant
            i <= count,
            count == given.len(),
            slots@.len() == count,
            views == model::function_views(given),
            forall|k: int| i <= k < count ==> #[trigger] slots@[k] == Some(given[k]),
            model::function_views(result@) == deduplicated(views.subrange(0, i as int)),
        decreases count - i,
    {
        let mut taken: Option<Function> = None;
        std::mem::swap(&mut taken, &mut slots[i]);
        let ghost done = model::function_views(result@);
        proof {
            assert(views.subrange(0, i + 1).drop_last() =~= views.subrange(0, i as int));
            assert(views.subrange(0, i + 1).last() == given[i as int]@);
        }
        if let Some(function) = taken {
            let ghost view = function@;
            let last: Option<Function> = result.pop();
            match last {
                None => {
                    result.push(function);
                    assert(model::function_views(result@) =~= done.push(view));
                },
                Some(previous) => {
                    let ghost before = previous@;
                    proof {
                        model::lemma_function_view(previous);
                        model::lemma_function_view(function);
                        assert(done.last() == previous@);
                        assert(model::function_views(result@) =~= done.drop_last());
                    }
                    if previous.range == function.range {
                        let one = keep_one(previous, function);
                        result.push(one);
                        assert(model::function_views(result@) =~= with_last(done, one@));
                    } else if previous.range.is_empty() && function.range.contains(
                        previous.range.start,
                    ) {
                        result.push(function);
                        assert(model::function_views(result@) =~= with_last(done, view));
                    } else {
                        result.push(previous);
                        result.push(function);
                        assert(model::function_views(result@) =~= done.push(view));
                    }
                },
            }
        }
        i = i + 1;
    }
    assert(views.subrange(0, count as int) =~= views);
    result
}

fn find_enclosing_end(ranges: &Vec<AddressRange>, start: u64) -> (end: u64)
    ensures
        end == enclosing_end(ranges@, 0, start),
        end >= start,
{
    let mut i: usize = 0;
    while i < ranges.len()
        invariant
            i <= ranges@.len(),
            enclosing_end(ranges@, 0, start) == enclosing_end(ranges@, i as int, start),
        decreases ranges@.len() - i,
    {
        if ranges[i].contains(start) {
            return ranges[i].end;
        }
        i = i + 1;
    }
    start
}

fn repair_keeps_records(function: &Function, range: AddressRange) -> (keeps: bool)
    ensures
        keeps == keeps_records(function@, range),
    decreases function,
{
    proof {
        model::lemma_function_view(*function);
        if function.inline is Some {
            model::lemma_inline_view(function.inline->0);
        }
    }
    let ghost view = function@;
    let mut i: usize = 0;
    while i < function.lines.len()
        invariant
            i <= function.lines@.len(),
            view == function@,
            view.lines == function.lines@,
            forall|k: int|
                0 <= k < i ==> range.spec_contains((#[trigger] view.lines[k]).address),
        decreases function.lines@.len() - i,
    {
        if !range.contains(function.lines[i].address) {
            assert(!range.spec_contains(view.lines[i as int].address));
            return false;
        }
        i = i + 1;
    }
    let mut j: usize = 0;
    while j < function.call_sites.len()
        invariant
            j <= function.call_sites@.len(),
            view == function@,
            view.call_sites == model::call_site_views(function.call_sites@),
            forall|k: int|
                0 <= k < j ==> (#[trigger] view.call_sites[k]).return_offset < range.spec_size(),
        decreases function.call_sites@.len() - j,
    {
        assert(view.call_sites[j as int] == function.call_sites@[j as int]@);
        if function.call_sites[j].return_offset >= range.size() {
            return false;
        }
        j = j + 1;
    }
    if let Some(inline) = &function.inline {
        let mut k: usize = 0;
        while k < inline.ranges.len()
            invariant
                k <= inline.ranges@.len(),
                view == function@,
                view.inline is Some,
                view.inline->0.ranges == inline.ranges@,
                forall|m: int|
                    0 <= m < k ==> range.spec_contains_range(
                        #[trigger] view.inline->0.ranges[m],
                    ),
            decreases inline.ranges@.len() - k,
        {
            if !range.contains_range(inline.ranges[k]) {
                assert(!range.spec_contains_range(view.inline->0.ranges[k as int]));
                return false;
            }
            k = k + 1;
        }
    }
    let ghost views = model::function_views(function.merged@);
    let mut n: usize = 0;
    while n < function.merged.len()
        invariant
            n <= function.merged@.len(),
            view == function@,
            view.merged == views,
            views == model::function_views(function.merged@),
            forall|m: int| 0 <= m < n ==> keeps_records(#[trigger] views[m], range),
        decreases function.merged@.len() - n,
    {
        assert(decreases_to!(function => function.merged@[n as int]));
        assert(views[n as int] == function.merged@[n as int]@);
        if !repair_keeps_records(&function.merged[n], range) {
            return false;
        }
        n = n + 1;
    }
    true
}

fn repair_merged_ranges(function: &mut Function, range: AddressRange)
    ensures
        final(function)@ == with_range(old(function)@, range),
    decreases *old(function),
{
    let ghost before = *function;
    proof {
        model::lemma_function_view(before);
        lemma_with_range(before@, range);
    }
    function.range = range;
    let mut merged: Vec<Function> = Vec::new();
    std::mem::swap(&mut merged, &mut function.merged);
    let ghost views = model::function_views(merged@);
    let count: usize = merged.len();
    let mut i: usize = 0;
    while i < count
        invariant
            i <= count,
            count == merged@.len(),
            before == *old(function),
            views == model::function_views(before.merged@),
            merged@.len() == before.merged@.len(),
            forall|k: int| i <= k < count ==> merged@[k] == before.merged@[k],
            forall|k: int| 0 <= k < i ==> (#[trigger] merged@[k])@ == with_range(views[k], range),
        decreases count - i,
    {
        assert(decreases_to!(before => before.merged@[i as int]));
        repair_merged_ranges(&mut merged[i], range);
        i = i + 1;
    }
    assert(model::function_views(merged@) =~= all_with_range(views, range));
    function.merged = merged;
    proof {
        model::lemma_function_view(*function);
    }
}

/// Extends the last function, where its size is unknown and it can be.
pub fn repair_final_range(functions: Vec<Function>, ranges: &Vec<AddressRange>) -> (result: Vec<
    Function,
>)
    ensures
        model::function_views(result@) == repaired(model::function_views(functions@), ranges@),
{
    let ghost views = model::function_views(functions@);
    let mut functions = functions;
    let taken: Option<Function> = functions.pop();
    match taken {
        None => functions,
        Some(mut last) => {
            proof {
                model::lemma_function_view(last);
                assert(views.last() == last@);
                assert(model::function_views(functions@) =~= views.drop_last());
            }
            if last.range.is_empty() {
                let start: u64 = last.range.start;
                let end: u64 = find_enclosing_end(ranges, start);
                let size: u64 = if end - start > u32::MAX as u64 {
                    u32::MAX as u64
                } else {
                    end - start
                };
                let range = AddressRange { start, end: start + size };
                if repair_keeps_records(&last, range) {
                    repair_merged_ranges(&mut last, range);
                }
            }
            let ghost one = last@;
            functions.push(last);
            proof {
                assert(model::function_views(functions@) =~= with_last(views, one));
                assert(with_last(views, views.last()) =~= views);
            }
            functions
        },
    }
}

fn compact_all(functions: Vec<Function>) -> (result: Vec<Function>)
    ensures
        model::function_views(result@) == normalize::functions_compacted(
            model::function_views(functions@),
        ),
{
    let ghost given = functions@;
    let ghost views = model::function_views(given);
    let mut functions = functions;
    let count: usize = functions.len();
    let mut i: usize = 0;
    while i < count
        invariant
            i <= count,
            count == functions@.len(),
            views == model::function_views(given),
            functions@.len() == given.len(),
            forall|k: int| i <= k < count ==> functions@[k] == given[k],
            forall|k: int|
                0 <= k < i ==> (#[trigger] functions@[k])@ == normalize::function_compacted(
                    views[k],
                ),
        decreases count - i,
    {
        compact_function_lines(&mut functions[i]);
        i = i + 1;
    }
    assert(model::function_views(functions@) =~= normalize::functions_compacted(views));
    functions
}

fn without_merged(functions: Vec<Function>) -> (result: Vec<Function>)
    ensures
        model::function_views(result@) == unmerged(model::function_views(functions@)),
{
    let ghost given = functions@;
    let ghost views = model::function_views(given);
    let mut functions = functions;
    let count: usize = functions.len();
    let mut i: usize = 0;
    while i < count
        invariant
            i <= count,
            count == functions@.len(),
            views == model::function_views(given),
            functions@.len() == given.len(),
            forall|k: int| i <= k < count ==> functions@[k] == given[k],
            forall|k: int| 0 <= k < i ==> (#[trigger] functions@[k])@ == unmerged(views)[k],
        decreases count - i,
    {
        let mut dropped: Vec<Function> = Vec::new();
        std::mem::swap(&mut dropped, &mut functions[i].merged);
        proof {
            model::lemma_function_view(given[i as int]);
            model::lemma_function_view(functions@[i as int]);
            assert(functions@[i as int]@.merged =~= Seq::<FunctionView>::empty());
            assert(views[i as int] == given[i as int]@);
        }
        i = i + 1;
    }
    assert(model::function_views(functions@) =~= unmerged(views));
    functions
}

/// Puts functions into the form in which they are written.
pub fn finalize(
    functions: Vec<Function>,
    ranges: &Vec<AddressRange>,
    repair: bool,
    policy: FunctionSetPolicy,
) -> (result: Vec<Function>)
    ensures
        model::function_views(result@) == finalized(
            model::function_views(functions@),
            ranges@,
            repair,
            policy,
        ),
{
    let prepared = match policy {
        FunctionSetPolicy::MergeEqualRanges => compact_all(functions),
        FunctionSetPolicy::Deduplicate => without_merged(compact_all(functions)),
        FunctionSetPolicy::Preserve => functions,
    };
    let ordered = sort_by_ordering_key(prepared);
    let chosen = match policy {
        FunctionSetPolicy::MergeEqualRanges => merge_equal_ranges(ordered),
        FunctionSetPolicy::Deduplicate => deduplicate(ordered),
        FunctionSetPolicy::Preserve => ordered,
    };
    if repair {
        repair_final_range(chosen, ranges)
    } else {
        chosen
    }
}

/// Whether a range comes before another: by its start, and then by its end.
pub open spec fn comes_before(a: AddressRange, b: AddressRange) -> bool {
    a.start < b.start || (a.start == b.start && a.end < b.end)
}

/// Whether the ranges of functions ascend, and no two of them are equal.
pub open spec fn strictly_ascending(functions: Seq<FunctionView>) -> bool {
    forall|i: int, j: int|
        0 <= i < j < functions.len() ==> comes_before(
            (#[trigger] functions[i]).range,
            (#[trigger] functions[j]).range,
        )
}

/// Whether the ranges of functions ascend.
pub open spec fn ascending(functions: Seq<FunctionView>) -> bool {
    forall|i: int, j: int|
        0 <= i < j < functions.len() ==> !comes_before(
            (#[trigger] functions[j]).range,
            (#[trigger] functions[i]).range,
        )
}

/// The ranges of merged functions ascend, and no two of them are equal.
pub proof fn lemma_merged_ascend(functions: Seq<FunctionView>)
    requires
        ascending(functions),
    ensures
        strictly_ascending(merged_functions(functions)),
        functions.len() > 0 ==> merged_functions(functions).len() > 0 && merged_functions(
            functions,
        ).last().range == functions.last().range,
    decreases functions.len(),
{
    if functions.len() > 0 {
        let rest = functions.drop_last();
        assert(ascending(rest)) by {
            assert forall|i: int, j: int| 0 <= i < j < rest.len() implies !comes_before(
                (#[trigger] rest[j]).range,
                (#[trigger] rest[i]).range,
            ) by {
                assert(!comes_before(functions[j].range, functions[i].range));
            }
        }
        lemma_merged_ascend(rest);
        let done = merged_functions(rest);
        let result = merged_functions(functions);
        if rest.len() > 0 {
            assert(!comes_before(
                functions[functions.len() - 1].range,
                functions[rest.len() - 1].range,
            ));
        }
        assert forall|i: int, j: int| 0 <= i < j < result.len() implies comes_before(
            (#[trigger] result[i]).range,
            (#[trigger] result[j]).range,
        ) by {
            if j < done.len() {
                assert(comes_before(done[i].range, done[j].range));
            } else if i < done.len() - 1 {
                assert(comes_before(done[i].range, done[done.len() - 1].range));
            }
        }
    }
}

/// The ranges of the functions that are kept ascend, and no two of them are equal.
pub proof fn lemma_deduplicated_ascend(functions: Seq<FunctionView>)
    requires
        ascending(functions),
    ensures
        strictly_ascending(deduplicated(functions)),
        functions.len() > 0 ==> deduplicated(functions).len() > 0 && deduplicated(
            functions,
        ).last().range == functions.last().range,
    decreases functions.len(),
{
    if functions.len() > 0 {
        let rest = functions.drop_last();
        assert(ascending(rest)) by {
            assert forall|i: int, j: int| 0 <= i < j < rest.len() implies !comes_before(
                (#[trigger] rest[j]).range,
                (#[trigger] rest[i]).range,
            ) by {
                assert(!comes_before(functions[j].range, functions[i].range));
            }
        }
        lemma_deduplicated_ascend(rest);
        let done = deduplicated(rest);
        let result = deduplicated(functions);
        if rest.len() > 0 {
            assert(!comes_before(
                functions[functions.len() - 1].range,
                functions[rest.len() - 1].range,
            ));
        }
        assert forall|i: int, j: int| 0 <= i < j < result.len() implies comes_before(
            (#[trigger] result[i]).range,
            (#[trigger] result[j]).range,
        ) by {
            if j < done.len() {
                assert(comes_before(done[i].range, done[j].range));
            } else if i < done.len() - 1 {
                assert(comes_before(done[i].range, done[done.len() - 1].range));
            }
        }
    }
}

/// The executable range that an address lies in does not end before it.
pub proof fn lemma_enclosing_end(ranges: Seq<AddressRange>, i: int, start: u64)
    requires
        0 <= i,
    ensures
        enclosing_end(ranges, i, start) >= start,
    decreases ranges.len() - i,
{
    if i < ranges.len() && !ranges[i].spec_contains(start) {
        lemma_enclosing_end(ranges, i + 1, start);
    }
}

/// The functions that are written stand in ascending order of their ranges.
/// Where functions that share a range are merged or deduplicated, no two of
/// them share one.
pub proof fn law_finalized_functions_ascend(
    functions: Seq<FunctionView>,
    ranges: Seq<AddressRange>,
    repair: bool,
    policy: FunctionSetPolicy,
)
    requires
        forall|i: int|
            0 <= i < functions.len() ==> (#[trigger] functions[i]).range.start
                <= functions[i].range.end,
    ensures
        ascending(finalized(functions, ranges, repair, policy)),
        policy != FunctionSetPolicy::Preserve ==> strictly_ascending(
            finalized(functions, ranges, repair, policy),
        ),
{
    let given = prepared(functions, policy);
    let ordered = ordering::sorted(given);
    ordering::law_sorted_functions(given);
    assert(ascending(ordered));
    lemma_merged_ascend(ordered);
    lemma_deduplicated_ascend(ordered);
    let chosen = match policy {
        FunctionSetPolicy::MergeEqualRanges => merged_functions(ordered),
        FunctionSetPolicy::Deduplicate => deduplicated(ordered),
        FunctionSetPolicy::Preserve => ordered,
    };
    assert(ascending(chosen)) by {
        if policy != FunctionSetPolicy::Preserve {
            assert forall|i: int, j: int| 0 <= i < j < chosen.len() implies !comes_before(
                (#[trigger] chosen[j]).range,
                (#[trigger] chosen[i]).range,
            ) by {
                assert(comes_before(chosen[i].range, chosen[j].range));
            }
        }
    }
    let result = finalized(functions, ranges, repair, policy);
    if repair && chosen.len() > 0 && chosen.last().range.spec_size() == 0 {
        let last = chosen.len() - 1;
        lemma_enclosing_end(ranges, 0, chosen.last().range.start);
        lemma_chosen_range(functions, policy);
        lemma_with_range(
            chosen.last(),
            repaired_range(ranges, chosen.last().range.start),
        );
        assert forall|i: int, j: int| 0 <= i < j < result.len() implies !comes_before(
            (#[trigger] result[j]).range,
            (#[trigger] result[i]).range,
        ) by {
            assert(!comes_before(chosen[j].range, chosen[i].range));
        }
        if policy != FunctionSetPolicy::Preserve {
            assert forall|i: int, j: int| 0 <= i < j < result.len() implies comes_before(
                (#[trigger] result[i]).range,
                (#[trigger] result[j]).range,
            ) by {
                assert(comes_before(chosen[i].range, chosen[j].range));
            }
        }
    }
}

/// The last of the functions that are chosen has a range that was given.
pub proof fn lemma_chosen_range(functions: Seq<FunctionView>, policy: FunctionSetPolicy)
    requires
        forall|i: int|
            0 <= i < functions.len() ==> (#[trigger] functions[i]).range.start
                <= functions[i].range.end,
        functions.len() > 0,
    ensures
        ({
            let ordered = ordering::sorted(prepared(functions, policy));
            let chosen = match policy {
                FunctionSetPolicy::MergeEqualRanges => merged_functions(ordered),
                FunctionSetPolicy::Deduplicate => deduplicated(ordered),
                FunctionSetPolicy::Preserve => ordered,
            };
            chosen.last().range.start <= chosen.last().range.end
        }),
{
    let given = prepared(functions, policy);
    let ordered = ordering::sorted(given);
    ordering::law_sorted_functions(given);
    assert(ascending(ordered));
    lemma_merged_ascend(ordered);
    lemma_deduplicated_ascend(ordered);
    let last = ordered[ordered.len() - 1];
    assert(given.contains(last));
    let k = choose|k: int| 0 <= k < given.len() && given[k] == last;
    normalize::lemma_function_compacted(functions[k]);
    assert(functions[k].range == last.range);
}

} // verus!
