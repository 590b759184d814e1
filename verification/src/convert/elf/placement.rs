//! Laws on where the sections of an image lie.
use vstd::prelude::*;

use crate::convert::dwarf::ranges;
use crate::convert::elf::image;
use crate::convert::elf::image::Layout;
use crate::convert::elf::object_file::{SectionKind, SectionView};
use crate::error::Error;
use crate::model;
use crate::model::AddressRange;
use crate::sort;

verus! {

/// Whether a section holds code.
pub open spec fn holds_code(section: SectionView) -> bool {
    section.kind == SectionKind::Text && section.size > 0
}

/// The sections that hold code, in order.
pub open spec fn code_sections(sections: Seq<SectionView>) -> Seq<SectionView> {
    sections.filter(|section: SectionView| holds_code(section))
}

/// The range of a section by its own address.
pub open spec fn own_range(section: SectionView) -> AddressRange {
    AddressRange { start: section.address, end: (section.address + section.size) as u64 }
}

/// The ranges of sections by their own addresses.
pub open spec fn own_ranges(sections: Seq<SectionView>) -> Seq<AddressRange> {
    sections.map_values(|section: SectionView| own_range(section))
}

proof fn lemma_code_pushed(sections: Seq<SectionView>, count: nat)
    requires
        count < sections.len(),
    ensures
        code_sections(sections.take(count as int + 1)) == if holds_code(sections[count as int]) {
            code_sections(sections.take(count as int)).push(sections[count as int])
        } else {
            code_sections(sections.take(count as int))
        },
{
    let longer = sections.take(count as int + 1);
    assert(longer.drop_last() =~= sections.take(count as int));
    assert(longer.last() == sections[count as int]);
    reveal(Seq::filter);
}

proof fn lemma_linked(sections: Seq<SectionView>, count: nat)
    requires
        count <= sections.len(),
    ensures
        ({
            let layout = image::text_layout(sections, false, count);
            &&& layout.bases == Map::<usize, u64>::empty()
            &&& match layout.error {
                None => {
                    &&& layout.ranges == own_ranges(code_sections(sections.take(count as int)))
                    &&& forall|i: int|
                        0 <= i < count && holds_code(#[trigger] sections[i]) ==> sections[i].address
                            + sections[i].size <= u64::MAX
                },
                Some(error) => {
                    &&& error == Error::Overflow("executable section end")
                    &&& exists|i: int|
                        0 <= i < count && holds_code(#[trigger] sections[i]) && sections[i].address
                            + sections[i].size > u64::MAX
                },
            }
        }),
    decreases count,
{
    if count == 0 {
        reveal(Seq::filter);
        assert(own_ranges(code_sections(sections.take(0))) =~= Seq::<AddressRange>::empty());
    } else {
        let m = (count - 1) as nat;
        lemma_linked(sections, m);
        lemma_code_pushed(sections, m);
        let before = code_sections(sections.take(m as int));
        let section = sections[m as int];
        assert(own_ranges(before.push(section)) =~= own_ranges(before).push(own_range(section)));
        if image::text_layout(sections, false, m).error is None {
            if holds_code(section) && section.address + section.size > u64::MAX {
                assert(holds_code(sections[m as int]));
            }
        }
    }
}

/// Sorting ranges keeps each of them, and puts them in order.
pub proof fn lemma_sorted_ranges(given: Seq<AddressRange>)
    ensures
        ranges::sorted_ranges(given).to_multiset() == given.to_multiset(),
        ranges::sorted_ranges(given).len() == given.len(),
        forall|i: int, j: int|
            0 <= i <= j < given.len() ==> model::range_at_most(
                #[trigger] ranges::sorted_ranges(given)[i],
                #[trigger] ranges::sorted_ranges(given)[j],
            ),
{
    let le = ranges::by_range(given);
    assert(sort::total_preorder(le, given.len()));
    sort::lemma_order_exists(le, given.len());
    let order = sort::order_of(le, given.len());
    sort::lemma_arranged(given, order, le);
    assert(ranges::sorted_ranges(given) =~= sort::rearranged(given, order));
    assert forall|i: int, j: int| 0 <= i <= j < given.len() implies model::range_at_most(
        #[trigger] ranges::sorted_ranges(given)[i],
        #[trigger] ranges::sorted_ranges(given)[j],
    ) by {
        if i < j {
            assert(sort::before(le, order[i], order[j]));
        }
    }
}

/// The executable ranges of a linked image are those of its sections that hold
/// code, as many as there are and each by the address and size that the section
/// gives, in order of their addresses. An image is refused only where such a
/// section ends beyond the last address.
pub proof fn law_linked_ranges_are_the_sections(sections: Seq<SectionView>)
    ensures
        match image::image_layout(sections, false) {
            Ok(view) => {
                &&& view.ranges.to_multiset() == own_ranges(code_sections(sections)).to_multiset()
                &&& view.ranges.len() == code_sections(sections).len()
                &&& forall|i: int|
                    0 <= i < sections.len() && holds_code(#[trigger] sections[i]) ==> {
                        &&& sections[i].address + sections[i].size <= u64::MAX
                        &&& view.ranges.contains(own_range(sections[i]))
                    }
                &&& forall|k: int|
                    0 <= k < view.ranges.len() ==> exists|i: int|
                        0 <= i < sections.len() && holds_code(#[trigger] sections[i])
                            && #[trigger] view.ranges[k] == own_range(sections[i])
                &&& forall|i: int, j: int|
                    0 <= i <= j < view.ranges.len() ==> model::range_at_most(
                        #[trigger] view.ranges[i],
                        #[trigger] view.ranges[j],
                    )
                &&& !view.relocatable
            },
            Err(error) => {
                &&& error == Error::Overflow("executable section end")
                &&& exists|i: int|
                    0 <= i < sections.len() && holds_code(#[trigger] sections[i])
                        && sections[i].address + sections[i].size > u64::MAX
            },
        },
{
    broadcast use vstd::seq_lib::group_to_multiset_ensures;

    lemma_linked(sections, sections.len());
    assert(sections.take(sections.len() as int) =~= sections);
    if let Ok(view) = image::image_layout(sections, false) {
        let code = code_sections(sections);
        let given = own_ranges(code);
        let executable = |section: SectionView| holds_code(section);
        lemma_sorted_ranges(given);
        assert forall|i: int| 0 <= i < sections.len() && holds_code(#[trigger] sections[i]) implies {
            &&& sections[i].address + sections[i].size <= u64::MAX
            &&& view.ranges.contains(own_range(sections[i]))
        } by {
            assert(executable(sections[i]));
            sections.lemma_filter_contains(executable, i);
            let k = choose|k: int| 0 <= k < code.len() && code[k] == sections[i];
            assert(given[k] == own_range(sections[i]));
            assert(given.contains(own_range(sections[i])));
            assert(given.to_multiset().count(own_range(sections[i])) > 0);
        }
        assert forall|k: int| 0 <= k < view.ranges.len() implies exists|i: int|
            0 <= i < sections.len() && holds_code(#[trigger] sections[i])
                && #[trigger] view.ranges[k] == own_range(sections[i]) by {
            assert(view.ranges.contains(view.ranges[k]));
            assert(view.ranges.to_multiset().count(view.ranges[k]) > 0);
            assert(given.to_multiset().count(view.ranges[k]) > 0);
            let c = choose|c: int| 0 <= c < given.len() && given[c] == view.ranges[k];
            sections.lemma_filter_pred(executable, c);
            assert(code.contains(code[c]));
            sections.lemma_filter_contains_rev(executable, code[c]);
            let i = choose|i: int| 0 <= i < sections.len() && sections[i] == code[c];
            assert(holds_code(sections[i]) && view.ranges[k] == own_range(sections[i]));
        }
    }
}

/// Whether a section of a relocatable object is given an address, though it
/// holds no code.
pub open spec fn is_placed_data(section: SectionView) -> bool {
    section.size > 0 && !holds_code(section) && !image::is_debug(section)
}

/// Whether the section at `i` is among the first `texts` that hold code or among
/// the first `others` of the rest.
pub open spec fn is_placed(sections: Seq<SectionView>, texts: int, others: int, i: int) -> bool {
    &&& 0 <= i < sections.len()
    &&& (holds_code(sections[i]) && i < texts) || (is_placed_data(sections[i]) && i < others)
}

/// Whether the section at `i` is given an address before the one at `j`: those
/// that hold code come first, and each kind stands in order.
pub open spec fn is_placed_before(sections: Seq<SectionView>, i: int, j: int) -> bool {
    if holds_code(sections[i]) == holds_code(sections[j]) {
        i < j
    } else {
        holds_code(sections[i])
    }
}

/// The address that a layout gives a section.
pub open spec fn place_of(bases: Map<usize, u64>, section: SectionView) -> int {
    bases[section.index] as int
}

/// Where a section ends in a layout.
pub open spec fn end_of(bases: Map<usize, u64>, section: SectionView) -> int {
    place_of(bases, section) + section.size
}

/// Whether an address is the next multiple of sixteen behind a section that is
/// placed, or zero.
pub open spec fn follows_closely(
    sections: Seq<SectionView>,
    bases: Map<usize, u64>,
    texts: int,
    others: int,
    address: int,
) -> bool {
    address == 0 || exists|j: int| #[trigger]
        is_placed(sections, texts, others, j) && end_of(bases, sections[j]) <= address < end_of(
            bases,
            sections[j],
        ) + 16
}

/// Whether the sections that are placed, and no others, have addresses: each on a
/// multiple of sixteen, one closely behind the other.
pub open spec fn places(
    sections: Seq<SectionView>,
    bases: Map<usize, u64>,
    texts: int,
    others: int,
) -> bool {
    &&& forall|i: int|
        0 <= i < sections.len() ==> (bases.dom().contains((#[trigger] sections[i]).index)
            <==> is_placed(sections, texts, others, i))
    &&& forall|i: int| #[trigger]
        is_placed(sections, texts, others, i) ==> {
            &&& place_of(bases, sections[i]) % 16 == 0
            &&& end_of(bases, sections[i]) <= u64::MAX
            &&& follows_closely(sections, bases, texts, others, place_of(bases, sections[i]))
        }
    &&& forall|i: int, j: int|
        #![trigger is_placed(sections, texts, others, i), is_placed(sections, texts, others, j)]
        is_placed(sections, texts, others, i) && is_placed(sections, texts, others, j)
            && is_placed_before(sections, i, j) ==> end_of(bases, sections[i]) <= place_of(
            bases,
            sections[j],
        )
}

/// Whether sections have indices of their own.
pub open spec fn indices_differ(sections: Seq<SectionView>) -> bool {
    forall|i: int, j: int|
        0 <= i < sections.len() && 0 <= j < sections.len() && i != j ==> (
        #[trigger] sections[i]).index != (#[trigger] sections[j]).index
}

spec fn placed_so_far(sections: Seq<SectionView>, layout: Layout, texts: int, others: int) -> bool {
    &&& places(sections, layout.bases, texts, others)
    &&& forall|i: int| #[trigger]
        is_placed(sections, texts, others, i) ==> end_of(layout.bases, sections[i]) <= layout.next
    &&& layout.next == 0 || exists|i: int| #[trigger]
        is_placed(sections, texts, others, i) && end_of(layout.bases, sections[i]) == layout.next
    &&& forall|i: int|
        is_placed(sections, texts, others, i) && holds_code(#[trigger] sections[i])
            ==> layout.ranges.contains(
            AddressRange {
                start: layout.bases[sections[i].index],
                end: end_of(layout.bases, sections[i]) as u64,
            },
        )
    &&& layout.ranges.len() == code_sections(sections.take(texts)).len()
}

/// A section behind all that are placed.
proof fn lemma_one_more(
    sections: Seq<SectionView>,
    before: Layout,
    after: Layout,
    texts: int,
    others: int,
    more_texts: int,
    more_others: int,
    at: int,
)
    requires
        indices_differ(sections),
        0 <= at < sections.len(),
        places(sections, before.bases, texts, others),
        forall|i: int| #[trigger]
            is_placed(sections, texts, others, i) ==> end_of(before.bases, sections[i])
                <= before.next,
        before.next == 0 || exists|i: int| #[trigger]
            is_placed(sections, texts, others, i) && end_of(before.bases, sections[i])
                == before.next,
        forall|i: int|
            is_placed(sections, more_texts, more_others, i) <==> (i == at || is_placed(
                sections,
                texts,
                others,
                i,
            )),
        !is_placed(sections, texts, others, at),
        forall|i: int| #[trigger]
            is_placed(sections, texts, others, i) ==> is_placed_before(sections, i, at)
                && !is_placed_before(sections, at, i),
        image::aligned(before.next) matches Ok(base) && base + sections[at].size <= u64::MAX
            && after.bases == before.bases.insert(sections[at].index, base) && after.next == base
            + sections[at].size,
    ensures
        places(sections, after.bases, more_texts, more_others),
        forall|i: int| #[trigger]
            is_placed(sections, more_texts, more_others, i) ==> end_of(after.bases, sections[i])
                <= after.next,
        exists|i: int| #[trigger]
            is_placed(sections, more_texts, more_others, i) && end_of(after.bases, sections[i])
                == after.next,
{
    let base = image::aligned(before.next)->Ok_0;
    assert(base % 16 == 0 && before.next <= base < before.next + 16);
    assert(is_placed(sections, more_texts, more_others, at));
    assert(place_of(after.bases, sections[at]) == base);
    assert forall|i: int| is_placed(sections, texts, others, i) implies {
        &&& #[trigger] is_placed(sections, more_texts, more_others, i)
        &&& place_of(after.bases, sections[i]) == place_of(before.bases, sections[i])
    } by {
        assert(sections[i].index != sections[at].index);
    }
    assert forall|i: int| #[trigger] is_placed(sections, more_texts, more_others, i) implies {
        &&& place_of(after.bases, sections[i]) % 16 == 0
        &&& end_of(after.bases, sections[i]) <= after.next
        &&& follows_closely(
            sections,
            after.bases,
            more_texts,
            more_others,
            place_of(after.bases, sections[i]),
        )
    } by {
        if i == at {
            if before.next != 0 {
                let j = choose|j: int| #[trigger]
                    is_placed(sections, texts, others, j) && end_of(before.bases, sections[j])
                        == before.next;
                assert(is_placed(sections, more_texts, more_others, j));
            }
        } else {
            assert(is_placed(sections, texts, others, i));
            let place = place_of(before.bases, sections[i]);
            if place != 0 {
                assert(follows_closely(sections, before.bases, texts, others, place));
                let j = choose|j: int| #[trigger]
                    is_placed(sections, texts, others, j) && end_of(before.bases, sections[j])
                        <= place < end_of(before.bases, sections[j]) + 16;
                assert(is_placed(sections, more_texts, more_others, j));
            }
        }
    }
    assert forall|i: int, j: int|
        #![trigger is_placed(sections, more_texts, more_others, i), is_placed(sections, more_texts, more_others, j)]
        is_placed(sections, more_texts, more_others, i) && is_placed(
            sections,
            more_texts,
            more_others,
            j,
        ) && is_placed_before(sections, i, j) implies end_of(after.bases, sections[i]) <= place_of(
        after.bases,
        sections[j],
    ) by {
        if i != at {
            assert(is_placed(sections, texts, others, i));
        }
        if j != at {
            assert(is_placed(sections, texts, others, j));
        }
    }
    assert forall|i: int| 0 <= i < sections.len() implies (after.bases.dom().contains(
        (#[trigger] sections[i]).index,
    ) <==> is_placed(sections, more_texts, more_others, i)) by {
        assert(is_placed(sections, more_texts, more_others, i) <==> (i == at || is_placed(
            sections,
            texts,
            others,
            i,
        )));
        if i != at {
            assert(sections[i].index != sections[at].index);
        }
    }
}

proof fn lemma_texts_placed(sections: Seq<SectionView>, count: nat)
    requires
        count <= sections.len(),
        indices_differ(sections),
        image::text_layout(sections, true, count).error is None,
    ensures
        placed_so_far(sections, image::text_layout(sections, true, count), count as int, 0),
    decreases count,
{
    let layout = image::text_layout(sections, true, count);
    if count == 0 {
        reveal(Seq::filter);
        assert(layout.bases == Map::<usize, u64>::empty());
    } else {
        let m = (count - 1) as nat;
        let before = image::text_layout(sections, true, m);
        let section = sections[m as int];
        lemma_texts_placed(sections, m);
        lemma_code_pushed(sections, m);
        if holds_code(section) {
            assert forall|i: int|
                is_placed(sections, count as int, 0, i) <==> (i == m || is_placed(
                    sections,
                    m as int,
                    0,
                    i,
                )) by {}
            lemma_one_more(sections, before, layout, m as int, 0, count as int, 0, m as int);
            assert forall|i: int|
                is_placed(sections, count as int, 0, i) && holds_code(
                    #[trigger] sections[i],
                ) implies layout.ranges.contains(
                AddressRange {
                    start: layout.bases[sections[i].index],
                    end: end_of(layout.bases, sections[i]) as u64,
                },
            ) by {
                let range = AddressRange {
                    start: layout.bases[sections[i].index],
                    end: end_of(layout.bases, sections[i]) as u64,
                };
                if i == m {
                    assert(layout.ranges.last() == range);
                } else {
                    assert(is_placed(sections, m as int, 0, i));
                    assert(sections[i].index != section.index);
                    assert(before.ranges.contains(range));
                    let k = choose|k: int|
                        0 <= k < before.ranges.len() && before.ranges[k] == range;
                    assert(layout.ranges[k] == range);
                }
            }
        } else {
            assert(layout == before);
            assert forall|i: int|
                is_placed(sections, count as int, 0, i) <==> #[trigger] is_placed(
                    sections,
                    m as int,
                    0,
                    i,
                ) by {}
            assert(placed_so_far(sections, layout, count as int, 0)) by {
                lemma_same_placed(sections, layout, m as int, 0, count as int, 0);
            }
        }
    }
}

proof fn lemma_same_placed(
    sections: Seq<SectionView>,
    layout: Layout,
    texts: int,
    others: int,
    more_texts: int,
    more_others: int,
)
    requires
        placed_so_far(sections, layout, texts, others),
        code_sections(sections.take(texts)).len() == code_sections(
            sections.take(more_texts),
        ).len(),
        forall|i: int|
            is_placed(sections, more_texts, more_others, i) <==> #[trigger] is_placed(
                sections,
                texts,
                others,
                i,
            ),
    ensures
        placed_so_far(sections, layout, more_texts, more_others),
{
    assert forall|i: int|
        #![trigger is_placed(sections, more_texts, more_others, i)]
        is_placed(sections, more_texts, more_others, i) == is_placed(sections, texts, others, i) by {}
    assert forall|i: int| #[trigger] is_placed(sections, more_texts, more_others, i) implies {
        follows_closely(
            sections,
            layout.bases,
            more_texts,
            more_others,
            place_of(layout.bases, sections[i]),
        )
    } by {
        let place = place_of(layout.bases, sections[i]);
        assert(is_placed(sections, texts, others, i));
        assert(follows_closely(sections, layout.bases, texts, others, place));
        if place != 0 {
            let j = choose|j: int| #[trigger]
                is_placed(sections, texts, others, j) && end_of(layout.bases, sections[j]) <= place
                    < end_of(layout.bases, sections[j]) + 16;
            assert(is_placed(sections, more_texts, more_others, j));
        }
    }
    if layout.next != 0 {
        let i = choose|i: int| #[trigger]
            is_placed(sections, texts, others, i) && end_of(layout.bases, sections[i])
                == layout.next;
        assert(is_placed(sections, more_texts, more_others, i));
    }
}

proof fn lemma_others_placed(sections: Seq<SectionView>, text: Layout, count: nat)
    requires
        count <= sections.len(),
        indices_differ(sections),
        placed_so_far(sections, text, sections.len() as int, 0),
        image::other_layout(text, sections, count).error is None,
    ensures
        placed_so_far(
            sections,
            image::other_layout(text, sections, count),
            sections.len() as int,
            count as int,
        ),
        image::other_layout(text, sections, count).ranges == text.ranges,
    decreases count,
{
    let n = sections.len() as int;
    let layout = image::other_layout(text, sections, count);
    if count > 0 {
        let m = (count - 1) as nat;
        let before = image::other_layout(text, sections, m);
        let section = sections[m as int];
        lemma_others_placed(sections, text, m);
        if is_placed_data(section) {
            assert(!is_placed(sections, n, m as int, m as int));
            assert(!before.bases.dom().contains(sections[m as int].index));
            assert forall|i: int|
                is_placed(sections, n, count as int, i) <==> (i == m || is_placed(
                    sections,
                    n,
                    m as int,
                    i,
                )) by {}
            lemma_one_more(sections, before, layout, n, m as int, n, count as int, m as int);
            assert forall|i: int|
                is_placed(sections, n, count as int, i) && holds_code(
                    #[trigger] sections[i],
                ) implies layout.ranges.contains(
                AddressRange {
                    start: layout.bases[sections[i].index],
                    end: end_of(layout.bases, sections[i]) as u64,
                },
            ) by {
                assert(is_placed(sections, n, m as int, i));
                assert(sections[i].index != section.index);
            }
        } else {
            if holds_code(section) {
                assert(is_placed(sections, n, m as int, m as int));
                assert(before.bases.dom().contains(sections[m as int].index));
            }
            assert(layout == before);
            assert forall|i: int|
                is_placed(sections, n, count as int, i) <==> #[trigger] is_placed(
                    sections,
                    n,
                    m as int,
                    i,
                ) by {}
            lemma_same_placed(sections, layout, n, m as int, n, count as int);
        }
    }
}

/// The sections of a relocatable object that are not empty and hold no debugging
/// information, or hold code, are given addresses, and no others: first those
/// that hold code and then the rest, each kind in order. Each starts at the first
/// multiple of sixteen behind the one before, the first at zero. The executable
/// ranges are those of the sections that hold code.
pub proof fn law_relocatable_sections_are_placed(sections: Seq<SectionView>)
    requires
        indices_differ(sections),
    ensures
        image::image_layout(sections, true) matches Ok(view) ==> {
            let n = sections.len() as int;
            &&& places(sections, view.bases, n, n)
            &&& view.ranges.len() == code_sections(sections).len()
            &&& forall|i: int|
                0 <= i < n && holds_code(#[trigger] sections[i]) ==> view.ranges.contains(
                    AddressRange {
                        start: view.bases[sections[i].index],
                        end: end_of(view.bases, sections[i]) as u64,
                    },
                )
        },
{
    broadcast use vstd::seq_lib::group_to_multiset_ensures;

    if let Ok(view) = image::image_layout(sections, true) {
        let n = sections.len() as int;
        let text = image::text_layout(sections, true, sections.len());
        let layout = image::layout_of(sections, true);
        lemma_texts_placed(sections, sections.len());
        lemma_others_placed(sections, text, sections.len());
        lemma_sorted_ranges(layout.ranges);
        assert(sections.take(n) =~= sections);
        assert forall|i: int| 0 <= i < n && holds_code(#[trigger] sections[i]) implies view.ranges.contains(
            AddressRange {
                start: view.bases[sections[i].index],
                end: end_of(view.bases, sections[i]) as u64,
            },
        ) by {
            let range = AddressRange {
                start: view.bases[sections[i].index],
                end: end_of(view.bases, sections[i]) as u64,
            };
            assert(is_placed(sections, n, n, i));
            assert(layout.ranges.contains(range));
            assert(layout.ranges.to_multiset().count(range) > 0);
        }
    }
}

} // verus!
