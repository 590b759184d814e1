//! Laws on the search for companion files.
use vstd::prelude::*;
use vstd::string::*;

use crate::convert::diagnostic::WarningView;
use crate::convert::elf::consistency;
use crate::convert::elf::discovery;
use crate::convert::elf::discovery::{Candidate, FetchOutcome, FetchStepView};
use crate::convert::elf::object_file;
use crate::error::ErrorView;
use crate::text;

verus! {

/// Whether bytes are an ELF file.
pub open spec fn is_elf(bytes: Seq<u8>) -> bool {
    object_file::object_header(bytes) matches Ok(header) && header.elf
}

/// Whether bytes are a file with a build identifier, for the machine of the image
/// where there is one.
pub open spec fn answers(image: Option<Seq<u8>>, build_id: Seq<u8>, bytes: Seq<u8>) -> bool {
    &&& is_elf(bytes)
    &&& object_file::object_build_id(bytes) == Ok::<Option<Seq<u8>>, Seq<char>>(Some(build_id))
    &&& image matches Some(image) ==> consistency::belongs_to(image, bytes)
}

/// A response of a server is used only if it is no longer than the limit, has the
/// build identifier that was asked for and belongs to the image. One that is not
/// used is warned of, and so is a server that gave none, unless it has no such file.
pub proof fn law_only_answers_are_stored(
    outcome: FetchOutcome,
    server: Seq<char>,
    image: Option<Seq<u8>>,
    build_id: Seq<u8>,
    artifact: Seq<char>,
    limit: u64,
)
    requires
        image matches Some(image) ==> is_elf(image),
    ensures
        ({
            let step = discovery::fetch_step(
                outcome,
                server,
                build_id,
                artifact,
                limit,
                |bytes: Seq<u8>| discovery::is_response(image, build_id, bytes),
            );
            &&& step matches FetchStepView::Store(stored) ==> {
                &&& outcome matches FetchOutcome::Received { bytes, .. }
                &&& stored == bytes@
                &&& stored.len() <= limit
                &&& answers(image, build_id, stored)
            }
            &&& step is Continue <==> outcome is Nothing
        }),
{
}

/// A debug file that is found is used only if it belongs to the image. One that does
/// is used if the build identifiers can be read.
pub proof fn law_companions_that_are_found_belong_to_the_image(image: Seq<u8>, bytes: Seq<u8>)
    requires
        is_elf(image),
    ensures
        discovery::is_companion(image, bytes) ==> consistency::belongs_to(image, bytes),
        object_file::object_build_id(image) is Ok && object_file::object_build_id(bytes) is Ok
            && consistency::belongs_to(image, bytes) ==> discovery::is_companion(image, bytes),
{
}

/// The debug file that an image holds is used only if it can be unpacked and belongs
/// to the image. Where there is one that is not used, there is one more warning.
pub proof fn law_embedded_files_belong_to_the_image(
    image: Seq<u8>,
    unpacked: Result<Option<Seq<u8>>, ErrorView>,
    warnings: Seq<WarningView>,
)
    requires
        is_elf(image),
    ensures
        ({
            let found = discovery::embedded(image, unpacked, warnings);
            &&& found.bytes matches Some(bytes) ==> {
                &&& unpacked == Ok::<Option<Seq<u8>>, ErrorView>(Some(bytes))
                &&& consistency::belongs_to(image, bytes)
                &&& found.warnings == warnings
            }
            &&& found.bytes is None && unpacked != Ok::<Option<Seq<u8>>, ErrorView>(None) ==> {
                &&& found.warnings.len() == warnings.len() + 1
                &&& found.warnings.drop_last() == warnings
            }
            &&& unpacked == Ok::<Option<Seq<u8>>, ErrorView>(None) ==> found.warnings == warnings
        }),
{
    let found = discovery::embedded(image, unpacked, warnings);
    if found.warnings.len() > warnings.len() {
        assert(found.warnings.drop_last() =~= warnings);
    }
}

/// Whether the first of two places is looked at before the second.
pub open spec fn is_before(a: Candidate, b: Candidate) -> bool {
    match (a, b) {
        (Candidate::Sibling, _) => !(b is Sibling),
        (Candidate::DebugDirectory, Candidate::Mirrored(_)) => true,
        (Candidate::Mirrored(i), Candidate::Mirrored(j)) => i < j,
        _ => false,
    }
}

/// A linked debug file is looked for beside the image, then in the debug directory
/// beside it, then below each debug root in turn, and nowhere else.
pub proof fn law_linked_files_are_looked_for_in_turn(parent: bool, mirrors: bool, roots: usize)
    ensures
        ({
            let places = discovery::linked_places(parent, mirrors, roots as nat);
            &&& places.contains(Candidate::Sibling) <==> parent
            &&& places.contains(Candidate::DebugDirectory) <==> parent
            &&& forall|i: usize| #[trigger]
                places.contains(Candidate::Mirrored(i)) <==> mirrors && i < roots
            &&& forall|a: int, b: int|
                0 <= a < b < places.len() ==> is_before(#[trigger] places[a], #[trigger] places[b])
        }),
{
    let places = discovery::linked_places(parent, mirrors, roots as nat);
    let first: int = if parent {
        2
    } else {
        0
    };
    if parent {
        assert(places[0] == Candidate::Sibling);
        assert(places[1] == Candidate::DebugDirectory);
    }
    assert forall|i: usize| mirrors && i < roots implies #[trigger] places.contains(
        Candidate::Mirrored(i),
    ) by {
        assert(places[first + i] == Candidate::Mirrored(i));
    }
}

/// The directory and the file name of a build identifier are its digits, of which the
/// first two name the directory.
pub proof fn law_build_identifiers_name_their_files(build_id: Seq<u8>)
    ensures
        discovery::build_id_place(build_id) is Some <==> build_id.len() >= 2,
        discovery::build_id_place(build_id) matches Some((directory, file)) ==> {
            &&& directory.len() == 2
            &&& directory + file == discovery::hex_digits(build_id) + ".debug"@
        },
{
    if let Some((directory, file)) = discovery::build_id_place(build_id) {
        let whole = discovery::hex_digits(build_id);
        let rest = build_id.subrange(1, build_id.len() as int);
        assert(whole.len() == directory.len() + discovery::hex_digits(rest).len());
        assert forall|i: int| 2 <= i < whole.len() implies #[trigger] whole[i]
            == discovery::hex_digits(rest)[i - 2] by {
            assert(rest[(i - 2) / 2] == build_id[i / 2]);
        }
        assert(directory + file =~= whole + ".debug"@);
    }
}

/// Each byte is written as two lower-case hexadecimal digits that stand for it.
pub proof fn law_bytes_are_written_as_digits(bytes: Seq<u8>, i: int)
    requires
        0 <= i < bytes.len(),
    ensures
        ({
            let written = discovery::hex_digits(bytes);
            &&& written.len() == 2 * bytes.len()
            &&& text::is_digit(written[2 * i]) && text::is_digit(written[2 * i + 1])
            &&& bytes[i] == 16 * text::digit_value(written[2 * i]) + text::digit_value(
                written[2 * i + 1],
            )
        }),
{
    assert((2 * i) % 2 == 0 && (2 * i) / 2 == i);
    assert((2 * i + 1) % 2 == 1 && (2 * i + 1) / 2 == i);
    text::lemma_digit_value(bytes[i] as nat / 16);
    text::lemma_digit_value(bytes[i] as nat % 16);
}

/// A link to a debug file is used as it is given. One without a name is an error, and
/// so is one that cannot be read.
pub proof fn law_links_have_names(link: Result<Option<(Seq<u8>, u32)>, Seq<char>>)
    ensures
        discovery::link_of(link) is Err <==> link is Err || (link matches Ok(Some((name, _)))
            && name.len() == 0),
        discovery::link_of(link) matches Ok(used) ==> link == Ok::<
            Option<(Seq<u8>, u32)>,
            Seq<char>,
        >(used),
{
}

/// The build identifier of an image is looked for if it can name a directory and a
/// file in it.
pub proof fn law_short_identifiers_are_not_looked_for(
    id: Result<Option<Seq<u8>>, Seq<char>>,
)
    ensures
        discovery::image_id(id) is Err <==> id is Err,
        discovery::image_id(id) matches Ok(Some(used)) ==> id == Ok::<
            Option<Seq<u8>>,
            Seq<char>,
        >(Some(used)) && discovery::build_id_place(used) is Some,
        id matches Ok(Some(given)) ==> (discovery::build_id_place(given) is Some ==> (
        discovery::image_id(id) matches Ok(Some(used)) && used == given)),
{
}

/// A supplementary file is used only if it has the build identifier that is expected.
pub proof fn law_supplementary_files_are_the_expected_ones(bytes: Seq<u8>, expected: Seq<u8>)
    ensures
        ({
            let header = object_file::object_header(bytes);
            let id = object_file::object_build_id(bytes);
            let used = discovery::supplementary_matches(header, id, expected);
            used == Ok::<bool, ErrorView>(true) <==> is_elf(bytes) && id == Ok::<
                Option<Seq<u8>>,
                Seq<char>,
            >(Some(expected))
        }),
{
}

} // verus!
