//! Laws on the base address and the address offsets of a file.
use vstd::arithmetic::power::pow;
use vstd::prelude::*;

use crate::builder::OptionsView;
use crate::model::{FileView, FunctionView};
use crate::writer::finalize;
use crate::writer::finalize::FunctionSetPolicy;
use crate::writer::image;
use crate::writer::options::WriterView;
use crate::writer::tables;

verus! {

/// Whether a number of bytes holds a value.
pub open spec fn holds(width: nat, value: int) -> bool {
    0 <= value < pow(256, width)
}

/// Address offsets have the least number of bytes, of one, two, four or eight, that
/// holds the largest of them.
pub proof fn law_offsets_have_the_least_width(maximum: u64)
    ensures
        ({
            let width = tables::width_of(maximum);
            &&& width == 1 || width == 2 || width == 4 || width == 8
            &&& holds(width as nat, maximum as int)
            &&& width > 1 ==> !holds((width / 2) as nat, maximum as int)
        }),
{
    reveal_with_fuel(pow, 9);
    assert(pow(256, 1) == 0x100);
    assert(pow(256, 2) == 0x1_0000);
    assert(pow(256, 4) == 0x1_0000_0000);
    assert(pow(256, 8) == 0x1_0000_0000_0000_0000);
}

/// A file has the base address that was asked for, or else the least address of a
/// function. From there every function's offset fits the width.
pub proof fn law_every_address_has_an_offset(
    options: OptionsView,
    policy: FunctionSetPolicy,
    functions: Seq<FunctionView>,
)
    requires
        forall|i: int|
            0 <= i < functions.len() ==> (#[trigger] functions[i]).range.start
                <= functions[i].range.end,
    ensures
        ({
            let written = image::final_functions(options, policy, functions);
            let base = image::base_of(options.writer, written);
            let width = image::offset_width(options.writer, written);
            written.len() > 0 ==> {
                &&& options.writer.base_address matches Some(given) ==> base == given
                &&& options.writer.base_address is None ==> (exists|i: int|
                    0 <= i < written.len() && (#[trigger] written[i]).range.start == base)
                    && forall|i: int|
                    0 <= i < written.len() ==> base <= (#[trigger] written[i]).range.start
                &&& forall|i: int|
                    0 <= i < written.len() && base <= (#[trigger] written[i]).range.start ==> holds(
                        width as nat,
                        written[i].range.start - base,
                    )
            }
        }),
{
    let written = image::final_functions(options, policy, functions);
    finalize::law_finalized_functions_ascend(
        functions,
        options.executable_ranges,
        options.repair_zero_sized_functions,
        policy,
    );
    if written.len() > 0 {
        let last = written.len() - 1;
        let base = image::base_of(options.writer, written);
        assert forall|i: int| 0 <= i < written.len() implies written[0].range.start <= (
        #[trigger] written[i]).range.start <= written[last].range.start by {
            if 0 < i {
                assert(!finalize::comes_before(written[i].range, written[0].range));
            }
            if i < last {
                assert(!finalize::comes_before(written[last].range, written[i].range));
            }
        }
        assert(written[0].range.start == written[0].range.start);
        if base <= written[last].range.start {
            law_offsets_have_the_least_width((written[last].range.start - base) as u64);
        }
    }
}

/// A file is written only if it has a function, and none lies before the base address.
pub proof fn law_no_function_precedes_the_base(
    writer: WriterView,
    files: Seq<FileView>,
    functions: Seq<FunctionView>,
)
    ensures
        image::finalized_image(writer, files, functions) is Ok ==> {
            &&& functions.len() > 0
            &&& forall|i: int|
                0 <= i < functions.len() ==> image::base_of(writer, functions) <= (
                #[trigger] functions[i]).range.start
        },
{
}

} // verus!
