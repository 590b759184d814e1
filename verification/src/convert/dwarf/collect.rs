//! Collection of a unit's line rows.
use std::collections::HashMap;

use vstd::prelude::*;
use vstd::std_specs::hash::*;

use crate::builder;
use crate::builder::{BuilderView, GsymBuilder};
use crate::convert::diagnostic;
use crate::convert::diagnostic::{ConversionWarning, WarningView};
use crate::convert::dwarf::lines;
use crate::convert::dwarf::lines::{LineSequenceRange, SequencedLine, UnitLines};
use crate::convert::dwarf::model;
use crate::convert::dwarf::model::{
    attribute_bytes, dwarf_error, FileName, LineProgram, LineRow, LineSequence,
};
use crate::convert::dwarf::program;
use crate::convert::dwarf::program::scan_line_sequence_offsets;
use crate::error::{Error, ErrorView};
use crate::model::{AddressRange, FileEntry, FileIndex, FileView, LineEntry};
use crate::sort;
use crate::sort::{sorted_order, Ranked};

verus! {

broadcast use vstd::std_specs::hash::group_hash_axioms;

/// Outcome of adding a file of a line program to a file table: nothing for a
/// file without a name, else its index and the table with it.
pub open spec fn interned(table: Seq<FileView>, name: FileName, supplementary: bool) -> Result<
    Option<(FileIndex, Seq<FileView>)>,
    ErrorView,
> {
    match model::text_bytes(name.path, supplementary) {
        Err(error) => Err(error),
        Ok(basename) => if basename.len() == 0 {
            Ok(None)
        } else {
            match directory_of(name, supplementary) {
                Err(error) => Err(error),
                Ok(directory) => {
                    let file = FileView { directory, basename };
                    match builder::add_file_error(table, file) {
                        Some(error) => Err(error@),
                        None => Ok(
                            Some(
                                (
                                    builder::file_index_of(table, file),
                                    builder::files_with(table, file),
                                ),
                            ),
                        ),
                    }
                },
            }
        },
    }
}

/// The directory of a file.
pub open spec fn directory_of(name: FileName, supplementary: bool) -> Result<Seq<u8>, ErrorView> {
    match name.directory {
        None => Ok(Seq::empty()),
        Some(directory) => model::text_bytes(directory, supplementary),
    }
}

/// What collecting lines has gathered.
pub struct Gathered {
    /// Files by the index that the line program gives them.
    pub files: Map<u64, FileIndex>,
    /// File table.
    pub table: Seq<FileView>,
    /// Rows in the order of the program.
    pub rows: Seq<SequencedLine>,
    /// Warnings.
    pub warnings: Seq<WarningView>,
    /// The error that ended the collection.
    pub error: Option<ErrorView>,
}

/// The index of the first file of a line program.
pub open spec fn first_file_index(version: u16) -> u64 {
    if version <= 4 {
        1
    } else {
        0
    }
}

/// Number of files of a program among the first `limit`.
pub open spec fn file_count(program: LineProgram, limit: usize) -> nat {
    if limit <= program.files@.len() {
        limit as nat
    } else {
        program.files@.len()
    }
}

/// What is gathered once the first `count` files of a header are added.
pub open spec fn header_files(
    program: LineProgram,
    count: nat,
    supplementary: bool,
    table: Seq<FileView>,
) -> Gathered
    decreases count,
{
    if count == 0 {
        gathering(table, Seq::empty())
    } else {
        let before = header_files(program, (count - 1) as nat, supplementary, table);
        if before.error is Some {
            before
        } else {
            match interned(before.table, program.files@[count - 1], supplementary) {
                Err(error) => Gathered { error: Some(error), ..before },
                Ok(None) => before,
                Ok(Some((file, table))) => Gathered {
                    files: before.files.insert(
                        (first_file_index(program.version) + (count - 1)) as u64,
                        file,
                    ),
                    table,
                    ..before
                },
            }
        }
    }
}

/// What is gathered once a row of a known file is added.
pub open spec fn with_line(
    gathered: Gathered,
    row: LineRow,
    file: FileIndex,
    sequence: Option<u64>,
) -> Gathered {
    let line = match row.line {
        Some(line) => line,
        None => 0,
    };
    if line > u32::MAX {
        Gathered {
            warnings: gathered.warnings.push(
                WarningView::Plain(
                    ConversionWarning::UnrepresentableLine { address: row.address, line },
                ),
            ),
            ..gathered
        }
    } else {
        Gathered {
            rows: gathered.rows.push(
                SequencedLine {
                    entry: LineEntry { address: row.address, file, line: line as u32 },
                    statement_sequence: sequence,
                },
            ),
            ..gathered
        }
    }
}

/// What is gathered once a row is added.
pub open spec fn with_row(
    gathered: Gathered,
    row: LineRow,
    names: Seq<FileName>,
    sequence: Option<u64>,
    supplementary: bool,
) -> Gathered {
    if row.end_sequence {
        gathered
    } else if gathered.files.dom().contains(row.file_index) {
        with_line(gathered, row, gathered.files[row.file_index], sequence)
    } else if row.file is None || row.file->0 >= names.len() {
        Gathered {
            warnings: gathered.warnings.push(
                WarningView::Plain(
                    ConversionWarning::MissingLineFile {
                        address: row.address,
                        index: row.file_index,
                    },
                ),
            ),
            ..gathered
        }
    } else {
        match interned(gathered.table, names[row.file->0 as int], supplementary) {
            Err(error) => Gathered { error: Some(error), ..gathered },
            Ok(None) => gathered,
            Ok(Some((file, table))) => with_line(
                Gathered { files: gathered.files.insert(row.file_index, file), table, ..gathered },
                row,
                file,
                sequence,
            ),
        }
    }
}

/// What is gathered once the first `count` rows of a sequence are added.
pub open spec fn with_rows(
    gathered: Gathered,
    rows: Seq<LineRow>,
    count: nat,
    names: Seq<FileName>,
    sequence: Option<u64>,
    supplementary: bool,
) -> Gathered
    decreases count,
{
    if count == 0 {
        gathered
    } else {
        let before = with_rows(
            gathered,
            rows,
            (count - 1) as nat,
            names,
            sequence,
            supplementary,
        );
        if before.error is Some {
            before
        } else {
            with_row(before, rows[count - 1], names, sequence, supplementary)
        }
    }
}

/// What is gathered once a sequence is added.
pub open spec fn with_sequence(
    gathered: Gathered,
    sequence: LineSequence,
    names: Seq<FileName>,
    offset: Option<u64>,
    supplementary: bool,
) -> Gathered {
    let read = with_rows(
        gathered,
        sequence.rows@,
        sequence.rows@.len(),
        names,
        offset,
        supplementary,
    );
    if read.error is Some {
        read
    } else {
        match sequence.failure {
            Some(source) => Gathered { error: Some(model::rejected(source)), ..read },
            None => read,
        }
    }
}

/// The offset at which a sequence begins, if it was found.
pub open spec fn offset_of(offsets: Seq<u64>, index: int) -> Option<u64> {
    if 0 <= index < offsets.len() {
        Some(offsets[index])
    } else {
        None
    }
}

/// What is gathered once the first `count` sequences are added.
pub open spec fn with_sequences(
    gathered: Gathered,
    sequences: Seq<LineSequence>,
    count: nat,
    names: Seq<FileName>,
    offsets: Seq<u64>,
    supplementary: bool,
) -> Gathered
    decreases count,
{
    if count == 0 {
        gathered
    } else {
        let before = with_sequences(
            gathered,
            sequences,
            (count - 1) as nat,
            names,
            offsets,
            supplementary,
        );
        if before.error is Some {
            before
        } else {
            with_sequence(
                before,
                sequences[count - 1],
                names,
                offset_of(offsets, count - 1),
                supplementary,
            )
        }
    }
}

/// What the first `count` sequences cover.
pub open spec fn covered_ranges(
    sequences: Seq<LineSequence>,
    count: nat,
    offsets: Seq<u64>,
) -> Seq<LineSequenceRange>
    decreases count,
{
    if count == 0 {
        Seq::empty()
    } else {
        let before = covered_ranges(sequences, (count - 1) as nat, offsets);
        let sequence = sequences[count - 1];
        if sequence.start < sequence.end {
            before.push(
                LineSequenceRange {
                    range: AddressRange { start: sequence.start, end: sequence.end },
                    statement_sequence: offset_of(offsets, count - 1),
                },
            )
        } else {
            before
        }
    }
}

/// The rows ranked by address.
pub open spec fn by_address(rows: Seq<SequencedLine>) -> spec_fn(int, int) -> bool {
    |i: int, j: int| rows[i].entry.address <= rows[j].entry.address
}

/// The rows by address, and those with one address as they stand.
pub open spec fn sorted_rows(rows: Seq<SequencedLine>) -> Seq<SequencedLine> {
    let order = sort::order_of(by_address(rows), rows.len());
    Seq::new(order.len(), |i: int| rows[order[i]])
}

/// The rows without those that equal the one before.
pub open spec fn distinct_rows(rows: Seq<SequencedLine>) -> Seq<SequencedLine>
    decreases rows.len(),
{
    if rows.len() == 0 {
        rows
    } else {
        let rest = distinct_rows(rows.drop_last());
        if rest.len() > 0 && rest.last() == rows.last() {
            rest
        } else {
            rest.push(rows.last())
        }
    }
}

/// The offset of the first instruction of a program.
pub open spec fn program_offset(program: LineProgram) -> Result<u64, Error> {
    let offset = program.offset + (if program.dwarf64 {
        12int
    } else {
        4
    }) + 2 + (if program.version >= 5 {
        2int
    } else {
        0
    }) + (if program.dwarf64 {
        8int
    } else {
        4
    }) + program.header_length;
    if offset > u64::MAX {
        Err(Error::Overflow("DWARF line-program offset"))
    } else {
        Ok(offset as u64)
    }
}

/// The offsets at which the sequences of a program begin.
pub open spec fn offsets_of(program: LineProgram) -> Result<Seq<u64>, Error> {
    match program_offset(program) {
        Err(error) => Err(error),
        Ok(offset) => program::sequence_offsets(
            program.program@,
            program.standard_opcode_lengths@,
            program.opcode_base,
            offset,
        ),
    }
}

/// The warnings of a program whose sequences were found at `offsets`.
pub open spec fn mismatch_warnings(
    warnings: Seq<WarningView>,
    sequences: nat,
    offsets: nat,
) -> Seq<WarningView> {
    if sequences == offsets {
        warnings
    } else {
        warnings.push(
            WarningView::Plain(
                ConversionWarning::LineSequenceMismatch {
                    sequences: sequences as usize,
                    offsets: offsets as usize,
                },
            ),
        )
    }
}

/// Nothing gathered yet.
pub open spec fn gathering(table: Seq<FileView>, warnings: Seq<WarningView>) -> Gathered {
    Gathered { files: Map::empty(), table, rows: Seq::empty(), warnings, error: None }
}

/// What is gathered of a line program.
pub open spec fn gathered_lines(
    program: Option<LineProgram>,
    supplementary: bool,
    table: Seq<FileView>,
    warnings: Seq<WarningView>,
) -> Gathered {
    let start = gathering(table, warnings);
    match program {
        None => start,
        Some(program) => match program.sequences {
            Err(source) => Gathered { error: Some(model::rejected(source)), ..start },
            Ok(sequences) => match offsets_of(program) {
                Err(error) => Gathered { error: Some(error@), ..start },
                Ok(offsets) => {
                    let named = Gathered {
                        warnings: mismatch_warnings(warnings, sequences@.len(), offsets.len()),
                        ..header_files(
                            program,
                            file_count(program, program.listed_files),
                            supplementary,
                            table,
                        )
                    };
                    if named.error is Some {
                        named
                    } else {
                        with_sequences(
                            named,
                            sequences@,
                            sequences@.len(),
                            program.files@,
                            offsets,
                            supplementary,
                        )
                    }
                },
            },
        },
    }
}

/// What the sequences of a line program cover.
pub open spec fn program_ranges(program: Option<LineProgram>) -> Seq<LineSequenceRange> {
    match program {
        None => Seq::empty(),
        Some(program) => match (program.sequences, offsets_of(program)) {
            (Ok(sequences), Ok(offsets)) => covered_ranges(
                sequences@,
                sequences@.len(),
                offsets,
            ),
            _ => Seq::empty(),
        },
    }
}

/// Whether `lines` are what was gathered of a line program.
pub open spec fn is_gathered(
    lines: UnitLines,
    gathered: Gathered,
    program: Option<LineProgram>,
) -> bool {
    &&& lines.entries@ == distinct_rows(sorted_rows(gathered.rows))
    &&& lines.files@ == gathered.files
    &&& lines.sequences@ == program_ranges(program)
}

proof fn lemma_distinct_ascends(rows: Seq<SequencedLine>)
    requires
        lines::ascend(rows),
    ensures
        lines::ascend(distinct_rows(rows)),
        rows.len() > 0 ==> distinct_rows(rows).len() > 0 && distinct_rows(rows).last()
            == rows.last(),
    decreases rows.len(),
{
    if rows.len() > 0 {
        let head = rows.drop_last();
        let last = rows.last();
        let rest = distinct_rows(head);
        assert(lines::ascend(head)) by {
            assert forall|i: int, j: int| 0 <= i <= j < head.len() implies (
            #[trigger] head[i]).entry.address <= (#[trigger] head[j]).entry.address by {
                assert(head[i] == rows[i] && head[j] == rows[j]);
            }
        }
        lemma_distinct_ascends(head);
        if head.len() > 0 {
            assert(head.last() == rows[rows.len() - 2] && last == rows[rows.len() - 1]);
        } else {
            assert(rest.len() == 0);
        }
        let grown = rest.push(last);
        assert forall|i: int, j: int| 0 <= i <= j < grown.len() implies (
        #[trigger] grown[i]).entry.address <= (#[trigger] grown[j]).entry.address by {
            if i < rest.len() {
                assert(rest[i].entry.address <= rest[rest.len() - 1].entry.address);
            }
        }
    }
}

proof fn lemma_sorted_ascends(rows: Seq<SequencedLine>)
    requires
        sort::is_order(
            by_address(rows),
            rows.len(),
            sort::order_of(by_address(rows), rows.len()),
        ),
    ensures
        lines::ascend(sorted_rows(rows)),
{
    let order = sort::order_of(by_address(rows), rows.len());
    let sorted = sorted_rows(rows);
    assert forall|i: int, j: int| 0 <= i <= j < sorted.len() implies (
    #[trigger] sorted[i]).entry.address <= (#[trigger] sorted[j]).entry.address by {
        if i < j {
            assert(sort::before(by_address(rows), order[i], order[j]));
        }
    }
}

/// Rows that are sorted and not repeated ascend.
pub proof fn lemma_collected_ascend(rows: Seq<SequencedLine>)
    ensures
        lines::ascend(distinct_rows(sorted_rows(rows))),
{
    let le = by_address(rows);
    assert(sort::total_preorder(le, rows.len()));
    sort::lemma_order_exists(le, rows.len());
    lemma_sorted_ascends(rows);
    lemma_distinct_ascends(sorted_rows(rows));
}

/// Rows ranked by address.
struct AddressRows<'rows> {
    rows: &'rows Vec<SequencedLine>,
}

impl<'rows> Ranked for AddressRows<'rows> {
    closed spec fn count(&self) -> nat {
        self.rows@.len()
    }

    closed spec fn ranks(&self) -> spec_fn(int, int) -> bool {
        by_address(self.rows@)
    }

    proof fn ranking(&self) {
    }

    fn at_most(&self, i: usize, j: usize) -> (result: bool) {
        self.rows[i].entry.address <= self.rows[j].entry.address
    }
}

fn sort_rows(rows: &Vec<SequencedLine>) -> (sorted: Vec<SequencedLine>)
    ensures
        sorted@ == sorted_rows(rows@),
        lines::ascend(sorted@),
{
    let ranked = AddressRows { rows };
    let order = sorted_order(&ranked, rows.len());
    let ghost places = sort::order_of(by_address(rows@), rows@.len());
    let mut sorted: Vec<SequencedLine> = Vec::with_capacity(order.len());
    let mut i: usize = 0;
    while i < order.len()
        invariant
            places == sort::order_of(by_address(rows@), rows@.len()),
            sort::is_order(by_address(rows@), rows@.len(), places),
            places == sort::indices(order@),
            i <= order@.len(),
            sorted@.len() == i,
            forall|k: int| 0 <= k < i ==> #[trigger] sorted@[k] == rows@[places[k]],
        decreases order@.len() - i,
    {
        assert(places[i as int] == order@[i as int]);
        let place: usize = order[i];
        sorted.push(rows[place]);
        i = i + 1;
    }
    assert(sorted@ =~= sorted_rows(rows@));
    proof {
        lemma_sorted_ascends(rows@);
    }
    sorted
}

fn same_row(a: &SequencedLine, b: &SequencedLine) -> (same: bool)
    ensures
        same == (*a == *b),
{
    let same_sequence: bool = match a.statement_sequence {
        Some(first) => match b.statement_sequence {
            Some(second) => first == second,
            None => false,
        },
        None => b.statement_sequence.is_none(),
    };
    same_sequence && a.entry.address == b.entry.address && a.entry.file == b.entry.file
        && a.entry.line == b.entry.line
}

fn drop_repeated_rows(rows: &Vec<SequencedLine>) -> (kept: Vec<SequencedLine>)
    ensures
        kept@ == distinct_rows(rows@),
{
    let mut kept: Vec<SequencedLine> = Vec::with_capacity(rows.len());
    let mut i: usize = 0;
    assert(kept@ =~= distinct_rows(rows@.subrange(0, 0)));
    while i < rows.len()
        invariant
            i <= rows@.len(),
            kept@ == distinct_rows(rows@.subrange(0, i as int)),
        decreases rows@.len() - i,
    {
        assert(rows@.subrange(0, i + 1).drop_last() =~= rows@.subrange(0, i as int));
        let row: SequencedLine = rows[i];
        let count: usize = kept.len();
        if count == 0 || !same_row(&kept[count - 1], &row) {
            kept.push(row);
        }
        i = i + 1;
    }
    assert(rows@.subrange(0, rows@.len() as int) =~= rows@);
    kept
}

/// Adds a file of a line program to a builder.
pub fn intern_file(name: &FileName, supplementary: bool, builder: &mut GsymBuilder) -> (result:
    Result<Option<FileIndex>, Error>)
    requires
        old(builder).wf(),
    ensures
        final(builder).wf(),
        match interned(old(builder)@.files, *name, supplementary) {
            Err(view) => (result matches Err(error) && error@ == view) && final(builder)@ == old(
                builder,
            )@,
            Ok(None) => result == Ok::<Option<FileIndex>, Error>(None) && final(builder)@ == old(
                builder,
            )@,
            Ok(Some((file, table))) => result == Ok::<Option<FileIndex>, Error>(Some(file))
                && final(builder)@ == (BuilderView { files: table, ..old(builder)@ }),
        },
{
    let basename = attribute_bytes(&name.path, supplementary)?;
    if basename.len() == 0 {
        return Ok(None);
    }
    let directory: Vec<u8> = match &name.directory {
        Some(directory) => attribute_bytes(directory, supplementary)?,
        None => Vec::new(),
    };
    assert(directory_of(*name, supplementary) == Ok::<Seq<u8>, ErrorView>(directory@));
    let index: FileIndex = builder.add_file(FileEntry { directory, basename })?;
    Ok(Some(index))
}

/// Adds the first `limit` files of a line program to a builder.
pub fn intern_header_files(
    program: &LineProgram,
    limit: usize,
    supplementary: bool,
    builder: &mut GsymBuilder,
) -> (result: Result<HashMap<u64, FileIndex>, Error>)
    requires
        old(builder).wf(),
    ensures
        final(builder).wf(),
        ({
            let named = header_files(
                *program,
                file_count(*program, limit),
                supplementary,
                old(builder)@.files,
            );
            &&& final(builder)@ == (BuilderView { files: named.table, ..old(builder)@ })
            &&& match named.error {
                Some(view) => result matches Err(error) && error@ == view,
                None => result matches Ok(files) && files@ == named.files,
            }
        }),
{
    let first: u64 = if program.version <= 4 {
        1
    } else {
        0
    };
    let known: usize = program.files.len();
    let count: usize = if limit <= known {
        limit
    } else {
        known
    };
    let ghost start = builder@;
    let mut files: HashMap<u64, FileIndex> = HashMap::new();
    let mut i: usize = 0;
    assert(files@ =~= Map::empty());
    assert(builder@ == (BuilderView { files: start.files, ..start }));
    while i < count
        invariant
            builder.wf(),
            i <= count <= known,
            known == program.files@.len(),
            count == file_count(*program, limit),
            first == first_file_index(program.version),
            start == old(builder)@,
            ({
                let named = header_files(*program, i as nat, supplementary, start.files);
                &&& builder@ == (BuilderView { files: named.table, ..start })
                &&& files@ == named.files
                &&& named.error is None
            }),
        decreases count - i,
    {
        let ghost named = header_files(*program, i as nat, supplementary, start.files);
        let ghost next = header_files(*program, (i + 1) as nat, supplementary, start.files);
        proof {
            if interned(named.table, program.files@[i as int], supplementary) is Err {
                lemma_header_stops(
                    *program,
                    (i + 1) as nat,
                    count as nat,
                    supplementary,
                    start.files,
                );
            }
        }
        if let Some(file) = intern_file(&program.files[i], supplementary, builder)? {
            files.insert(first + i as u64, file);
        }
        i = i + 1;
    }
    Ok(files)
}

proof fn lemma_header_stops(
    program: LineProgram,
    count: nat,
    whole: nat,
    supplementary: bool,
    table: Seq<FileView>,
)
    requires
        count <= whole,
        header_files(program, count, supplementary, table).error is Some,
    ensures
        header_files(program, whole, supplementary, table) == header_files(
            program,
            count,
            supplementary,
            table,
        ),
    decreases whole,
{
    if count < whole {
        lemma_header_stops(program, count, (whole - 1) as nat, supplementary, table);
    }
}

proof fn lemma_rows_stop(
    gathered: Gathered,
    rows: Seq<LineRow>,
    count: nat,
    whole: nat,
    names: Seq<FileName>,
    sequence: Option<u64>,
    supplementary: bool,
)
    requires
        count <= whole,
        with_rows(gathered, rows, count, names, sequence, supplementary).error is Some,
    ensures
        with_rows(gathered, rows, whole, names, sequence, supplementary) == with_rows(
            gathered,
            rows,
            count,
            names,
            sequence,
            supplementary,
        ),
    decreases whole,
{
    if count < whole {
        lemma_rows_stop(
            gathered,
            rows,
            count,
            (whole - 1) as nat,
            names,
            sequence,
            supplementary,
        );
    }
}

proof fn lemma_sequences_stop(
    gathered: Gathered,
    sequences: Seq<LineSequence>,
    count: nat,
    whole: nat,
    names: Seq<FileName>,
    offsets: Seq<u64>,
    supplementary: bool,
)
    requires
        count <= whole,
        with_sequences(gathered, sequences, count, names, offsets, supplementary).error is Some,
    ensures
        with_sequences(gathered, sequences, whole, names, offsets, supplementary)
            == with_sequences(gathered, sequences, count, names, offsets, supplementary),
    decreases whole,
{
    if count < whole {
        lemma_sequences_stop(
            gathered,
            sequences,
            count,
            (whole - 1) as nat,
            names,
            offsets,
            supplementary,
        );
    }
}

/// Finds the offsets at which the sequences of a line program begin.
pub fn line_sequence_offsets(program: &LineProgram) -> (result: Result<Vec<u64>, Error>)
    ensures
        match offsets_of(*program) {
            Ok(offsets) => result matches Ok(found) && found@ == offsets,
            Err(error) => result == Err::<Vec<u64>, Error>(error),
        },
{
    let fixed: u64 = (if program.dwarf64 {
        20u64
    } else {
        8
    }) + 2 + (if program.version >= 5 {
        2u64
    } else {
        0
    });
    let start: u64 = match program.offset.checked_add(fixed) {
        Some(start) => start,
        None => return Err(Error::Overflow("DWARF line-program offset")),
    };
    let offset: u64 = match start.checked_add(program.header_length) {
        Some(offset) => offset,
        None => return Err(Error::Overflow("DWARF line-program offset")),
    };
    scan_line_sequence_offsets(
        program.program.as_slice(),
        program.standard_opcode_lengths.as_slice(),
        program.opcode_base,
        offset,
    )
}

/// Rows that are being collected.
struct Collector {
    files: HashMap<u64, FileIndex>,
    rows: Vec<SequencedLine>,
}

/// What a collector, a builder and warnings hold together.
spec fn held(
    collector: Collector,
    builder: BuilderView,
    warnings: Seq<ConversionWarning>,
) -> Gathered {
    Gathered {
        files: collector.files@,
        table: builder.files,
        rows: collector.rows@,
        warnings: diagnostic::warning_views(warnings),
        error: None,
    }
}

/// Adds a warning.
pub fn push_warning(warnings: &mut Vec<ConversionWarning>, warning: ConversionWarning)
    ensures
        diagnostic::warning_views(final(warnings)@) == diagnostic::warning_views(
            old(warnings)@,
        ).push(warning@),
{
    proof {
        diagnostic::lemma_warning_pushed(warnings@, warning);
    }
    warnings.push(warning);
}

/// Adds a row of a known file.
fn add_line(
    collector: &mut Collector,
    row: &LineRow,
    file: FileIndex,
    sequence: Option<u64>,
    builder: &GsymBuilder,
    warnings: &mut Vec<ConversionWarning>,
)
    ensures
        held(*final(collector), builder@, final(warnings)@) == with_line(
            held(*old(collector), builder@, old(warnings)@),
            *row,
            file,
            sequence,
        ),
{
    let line: u64 = match row.line {
        Some(line) => line,
        None => 0,
    };
    if line > u32::MAX as u64 {
        push_warning(
            warnings,
            ConversionWarning::UnrepresentableLine { address: row.address, line },
        );
    } else {
        collector.rows.push(
            SequencedLine {
                entry: LineEntry { address: row.address, file, line: line as u32 },
                statement_sequence: sequence,
            },
        );
    }
}

/// Adds a row.
fn add_row(
    collector: &mut Collector,
    row: &LineRow,
    names: &Vec<FileName>,
    sequence: Option<u64>,
    supplementary: bool,
    builder: &mut GsymBuilder,
    warnings: &mut Vec<ConversionWarning>,
) -> (result: Result<(), Error>)
    requires
        old(builder).wf(),
    ensures
        final(builder).wf(),
        final(builder)@ == (BuilderView { files: final(builder)@.files, ..old(builder)@ }),
        ({
            let next = with_row(
                held(*old(collector), old(builder)@, old(warnings)@),
                *row,
                names@,
                sequence,
                supplementary,
            );
            &&& held(*final(collector), final(builder)@, final(warnings)@) == (Gathered {
                error: None,
                ..next
            })
            &&& match next.error {
                Some(view) => result matches Err(error) && error@ == view,
                None => result == Ok::<(), Error>(()),
            }
        }),
{
    if row.end_sequence {
        return Ok(());
    }
    let known: Option<FileIndex> = match collector.files.get(&row.file_index) {
        Some(file) => Some(*file),
        None => None,
    };
    if let Some(file) = known {
        add_line(collector, row, file, sequence, builder, warnings);
        return Ok(());
    }
    let count: usize = names.len();
    let place: usize = match row.file {
        Some(place) => place,
        None => count,
    };
    if place >= count {
        push_warning(
            warnings,
            ConversionWarning::MissingLineFile { address: row.address, index: row.file_index },
        );
        return Ok(());
    }
    if let Some(file) = intern_file(&names[place], supplementary, builder)? {
        collector.files.insert(row.file_index, file);
        add_line(collector, row, file, sequence, builder, warnings);
    }
    Ok(())
}

/// Adds the rows of a sequence.
fn add_sequence(
    collector: &mut Collector,
    sequence: &LineSequence,
    names: &Vec<FileName>,
    offset: Option<u64>,
    supplementary: bool,
    builder: &mut GsymBuilder,
    warnings: &mut Vec<ConversionWarning>,
) -> (result: Result<(), Error>)
    requires
        old(builder).wf(),
    ensures
        final(builder).wf(),
        final(builder)@ == (BuilderView { files: final(builder)@.files, ..old(builder)@ }),
        ({
            let next = with_sequence(
                held(*old(collector), old(builder)@, old(warnings)@),
                *sequence,
                names@,
                offset,
                supplementary,
            );
            &&& held(*final(collector), final(builder)@, final(warnings)@) == (Gathered {
                error: None,
                ..next
            })
            &&& match next.error {
                Some(view) => result matches Err(error) && error@ == view,
                None => result == Ok::<(), Error>(()),
            }
        }),
{
    let ghost start = held(*collector, builder@, warnings@);
    let ghost rows = sequence.rows@;
    let mut i: usize = 0;
    while i < sequence.rows.len()
        invariant
            builder.wf(),
            builder@ == (BuilderView { files: builder@.files, ..old(builder)@ }),
            rows == sequence.rows@,
            i <= rows.len(),
            start == held(*old(collector), old(builder)@, old(warnings)@),
            held(*collector, builder@, warnings@) == with_rows(
                start,
                rows,
                i as nat,
                names@,
                offset,
                supplementary,
            ),
        decreases rows.len() - i,
    {
        proof {
            if with_rows(
                start,
                rows,
                (i + 1) as nat,
                names@,
                offset,
                supplementary,
            ).error is Some {
                lemma_rows_stop(
                    start,
                    rows,
                    (i + 1) as nat,
                    rows.len(),
                    names@,
                    offset,
                    supplementary,
                );
            }
        }
        add_row(
            collector,
            &sequence.rows[i],
            names,
            offset,
            supplementary,
            builder,
            warnings,
        )?;
        i = i + 1;
    }
    match &sequence.failure {
        Some(source) => Err(dwarf_error(source)),
        None => Ok(()),
    }
}

fn found_offset(offsets: &Vec<u64>, index: usize) -> (offset: Option<u64>)
    ensures
        offset == offset_of(offsets@, index as int),
{
    if index < offsets.len() {
        Some(offsets[index])
    } else {
        None
    }
}

fn collect_ranges(sequences: &Vec<LineSequence>, offsets: &Vec<u64>) -> (ranges: Vec<
    LineSequenceRange,
>)
    ensures
        ranges@ == covered_ranges(sequences@, sequences@.len(), offsets@),
{
    let mut ranges: Vec<LineSequenceRange> = Vec::new();
    let mut i: usize = 0;
    assert(ranges@ =~= Seq::<LineSequenceRange>::empty());
    while i < sequences.len()
        invariant
            i <= sequences@.len(),
            ranges@ == covered_ranges(sequences@, i as nat, offsets@),
        decreases sequences@.len() - i,
    {
        let sequence: &LineSequence = &sequences[i];
        if sequence.start < sequence.end {
            ranges.push(
                LineSequenceRange {
                    range: AddressRange::new(sequence.start, sequence.end),
                    statement_sequence: found_offset(offsets, i),
                },
            );
        }
        i = i + 1;
    }
    ranges
}

/// Adds the rows of all sequences.
fn add_sequences(
    collector: &mut Collector,
    sequences: &Vec<LineSequence>,
    names: &Vec<FileName>,
    offsets: &Vec<u64>,
    supplementary: bool,
    builder: &mut GsymBuilder,
    warnings: &mut Vec<ConversionWarning>,
) -> (result: Result<(), Error>)
    requires
        old(builder).wf(),
    ensures
        final(builder).wf(),
        final(builder)@ == (BuilderView { files: final(builder)@.files, ..old(builder)@ }),
        ({
            let next = with_sequences(
                held(*old(collector), old(builder)@, old(warnings)@),
                sequences@,
                sequences@.len(),
                names@,
                offsets@,
                supplementary,
            );
            &&& held(*final(collector), final(builder)@, final(warnings)@) == (Gathered {
                error: None,
                ..next
            })
            &&& match next.error {
                Some(view) => result matches Err(error) && error@ == view,
                None => result == Ok::<(), Error>(()),
            }
        }),
{
    let ghost start = held(*collector, builder@, warnings@);
    let mut i: usize = 0;
    while i < sequences.len()
        invariant
            builder.wf(),
            builder@ == (BuilderView { files: builder@.files, ..old(builder)@ }),
            i <= sequences@.len(),
            start == held(*old(collector), old(builder)@, old(warnings)@),
            held(*collector, builder@, warnings@) == with_sequences(
                start,
                sequences@,
                i as nat,
                names@,
                offsets@,
                supplementary,
            ),
        decreases sequences@.len() - i,
    {
        proof {
            if with_sequences(
                start,
                sequences@,
                (i + 1) as nat,
                names@,
                offsets@,
                supplementary,
            ).error is Some {
                lemma_sequences_stop(
                    start,
                    sequences@,
                    (i + 1) as nat,
                    sequences@.len(),
                    names@,
                    offsets@,
                    supplementary,
                );
            }
        }
        add_sequence(
            collector,
            &sequences[i],
            names,
            found_offset(offsets, i),
            supplementary,
            builder,
            warnings,
        )?;
        i = i + 1;
    }
    Ok(())
}

/// Collects the line rows of a unit, and adds its files to a builder.
///
/// A row whose file is missing or whose line does not fit 32 bits is left out
/// with a warning.
pub fn collect_lines(
    line_program: &Option<LineProgram>,
    supplementary: bool,
    builder: &mut GsymBuilder,
    warnings: &mut Vec<ConversionWarning>,
) -> (result: Result<UnitLines, Error>)
    requires
        old(builder).wf(),
    ensures
        final(builder).wf(),
        ({
            let gathered = gathered_lines(
                *line_program,
                supplementary,
                old(builder)@.files,
                diagnostic::warning_views(old(warnings)@),
            );
            &&& final(builder)@ == (BuilderView { files: gathered.table, ..old(builder)@ })
            &&& diagnostic::warning_views(final(warnings)@) == gathered.warnings
            &&& match gathered.error {
                Some(view) => result matches Err(error) && error@ == view,
                None => result matches Ok(lines) && lines.wf() && is_gathered(
                    lines,
                    gathered,
                    *line_program,
                ),
            }
        }),
{
    let ghost before = builder@;
    assert(before == (BuilderView { files: before.files, ..before }));
    let program: &LineProgram = match line_program {
        Some(program) => program,
        None => {
            let entries: Vec<SequencedLine> = Vec::new();
            let files: HashMap<u64, FileIndex> = HashMap::new();
            let sequences: Vec<LineSequenceRange> = Vec::new();
            proof {
                let order = sort::order_of(by_address(Seq::empty()), 0);
                sort::lemma_order_exists(by_address(Seq::empty()), 0);
                assert(sorted_rows(Seq::empty()) =~= Seq::<SequencedLine>::empty());
                assert(files@ =~= Map::empty());
            }
            return Ok(UnitLines { entries, files, sequences });
        },
    };
    let sequences: &Vec<LineSequence> = match &program.sequences {
        Ok(sequences) => sequences,
        Err(source) => return Err(dwarf_error(source)),
    };
    let offsets = line_sequence_offsets(program)?;
    if offsets.len() != sequences.len() {
        push_warning(
            warnings,
            ConversionWarning::LineSequenceMismatch {
                sequences: sequences.len(),
                offsets: offsets.len(),
            },
        );
    }
    let files = intern_header_files(program, program.listed_files, supplementary, builder)?;
    let mut collector = Collector { files, rows: Vec::new() };
    proof {
        let named = header_files(
            *program,
            file_count(*program, program.listed_files),
            supplementary,
            before.files,
        );
        lemma_header_rows(
            *program,
            file_count(*program, program.listed_files),
            supplementary,
            before.files,
        );
        assert(collector.rows@ =~= Seq::<SequencedLine>::empty());
    }
    add_sequences(
        &mut collector,
        sequences,
        &program.files,
        &offsets,
        supplementary,
        builder,
        warnings,
    )?;
    let ranges = collect_ranges(sequences, &offsets);
    let sorted = sort_rows(&collector.rows);
    let entries = drop_repeated_rows(&sorted);
    proof {
        lemma_distinct_ascends(sorted@);
    }
    Ok(UnitLines { entries, files: collector.files, sequences: ranges })
}

/// The files of a header bring no rows.
pub proof fn lemma_header_rows(
    program: LineProgram,
    count: nat,
    supplementary: bool,
    table: Seq<FileView>,
)
    ensures
        header_files(program, count, supplementary, table).rows == Seq::<SequencedLine>::empty(),
    decreases count,
{
    if count > 0 {
        lemma_header_rows(program, (count - 1) as nat, supplementary, table);
    }
}

} // verus!
