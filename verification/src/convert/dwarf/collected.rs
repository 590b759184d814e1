//! Laws on the files and rows that are collected of a line program.
use vstd::prelude::*;

use crate::builder;
use crate::convert::diagnostic::WarningView;
use crate::convert::dwarf::collect;
use crate::convert::dwarf::collect::Gathered;
use crate::convert::dwarf::lines;
use crate::convert::dwarf::lines::{LineSequenceRange, SequencedLine, UnitLines};
use crate::convert::dwarf::model;
use crate::convert::dwarf::model::{FileName, LineProgram, LineRow, LineSequence};
use crate::convert::dwarf::reading;
use crate::convert::dwarf::records;
use crate::convert::dwarf::source::ContentsView;
use crate::model::{FileIndex, FileView};
use crate::sort;

verus! {

/// Number of files that a program lists.
pub open spec fn listed(program: LineProgram) -> int {
    if program.listed_files <= program.files@.len() {
        program.listed_files as int
    } else {
        program.files@.len() as int
    }
}

/// The place among the files of a program of the file that an index stands for.
/// From version five on the files that are listed count from zero. Before, they
/// count from one, and zero stands for the file behind them, if there is one.
pub open spec fn place_of_index(program: LineProgram, index: u64) -> Option<int> {
    if program.version >= 5 {
        if index < listed(program) {
            Some(index as int)
        } else {
            None
        }
    } else if index == 0 {
        if listed(program) < program.files@.len() {
            Some(listed(program))
        } else {
            None
        }
    } else if index <= listed(program) {
        Some(index - 1)
    } else {
        None
    }
}

/// The file of a name, if it has one and its texts can be read.
pub open spec fn named_file(name: FileName, supplementary: bool) -> Option<FileView> {
    let directory = match name.directory {
        None => Some(Seq::<u8>::empty()),
        Some(text) => model::text_bytes(text, supplementary).ok(),
    };
    match (model::text_bytes(name.path, supplementary), directory) {
        (Ok(basename), Some(directory)) if basename.len() > 0 => Some(
            FileView { directory, basename },
        ),
        _ => None,
    }
}

/// Whether a file of a file table is the one that an index of a program stands
/// for.
pub open spec fn is_denoted(
    program: LineProgram,
    supplementary: bool,
    index: u64,
    table: Seq<FileView>,
    file: FileIndex,
) -> bool {
    &&& place_of_index(program, index) matches Some(place)
    &&& file.0 < table.len()
    &&& named_file(program.files@[place], supplementary) == Some(table[file.0 as int])
}

/// The line number of a row; zero where it has none.
pub open spec fn line_of(row: LineRow) -> u64 {
    match row.line {
        Some(line) => line,
        None => 0,
    }
}

/// Whether a collected row says what a row of a sequence says: its address, its
/// line, the file that its index stands for, and the sequence.
pub open spec fn tells(
    program: LineProgram,
    supplementary: bool,
    table: Seq<FileView>,
    row: LineRow,
    offset: Option<u64>,
    told: SequencedLine,
) -> bool {
    &&& !row.end_sequence
    &&& told.entry.address == row.address
    &&& told.entry.line == line_of(row)
    &&& told.statement_sequence == offset
    &&& is_denoted(program, supplementary, row.file_index, table, told.entry.file)
}

/// Whether a row of a sequence is collected: it does not end the sequence, its
/// index stands for a file with a name, and its line fits.
pub open spec fn is_collected(program: LineProgram, supplementary: bool, row: LineRow) -> bool {
    &&& !row.end_sequence
    &&& line_of(row) <= u32::MAX
    &&& place_of_index(program, row.file_index) matches Some(place) && named_file(
        program.files@[place],
        supplementary,
    ) is Some
}

/// The offset at which a sequence begins, if it was found.
pub open spec fn start_of(offsets: Seq<u64>, sequence: int) -> Option<u64> {
    if sequence < offsets.len() {
        Some(offsets[sequence])
    } else {
        None
    }
}

/// Whether the rows of a program are given the places of their files.
pub open spec fn rows_are_placed(program: LineProgram) -> bool {
    program.sequences matches Ok(sequences) ==> forall|a: int, b: int|
        0 <= a < sequences@.len() && 0 <= b < sequences@[a].rows@.len() ==> ({
            let row = #[trigger] sequences@[a].rows@[b];
            match place_of_index(program, row.file_index) {
                Some(place) => row.file == Some(place as usize),
                None => row.file is None,
            }
        })
}

/// The rows that are read of a line program are given the places of their files.
pub proof fn law_rows_are_placed(program: LineProgram, contents: ContentsView, unit: usize)
    requires
        records::says_program(Some(program), contents, unit),
    ensures
        rows_are_placed(program),
{
    if let Ok(sequences) = program.sequences {
        let views = records::program_sequences(contents, unit)->Ok_0;
        let known = program.files.len();
        let paths = records::listed_paths(contents, unit);
        let all = records::program_paths(contents, unit, program.version);
        let files = all.map_values(
            |path: reading::PathView|
                records::file_of(contents, unit, program.version, path),
        );
        assert(reading::file_views(program.files@).len()
            == program.files@.len());
        assert(files.len() == all.len());
        assert(program.listed_files <= program.files@.len());
        assert forall|a: int, b: int|
            0 <= a < sequences@.len() && 0 <= b < sequences@[a].rows@.len() implies ({
            let row = #[trigger] sequences@[a].rows@[b];
            match place_of_index(program, row.file_index) {
                Some(place) => row.file == Some(place as usize),
                None => row.file is None,
            }
        }) by {
            assert(records::says_sequence(
                sequences@[a],
                views[a],
                program.version,
                program.listed_files as nat,
                program.files@.len(),
            ));
        }
    }
}

proof fn lemma_denoted_stays(
    program: LineProgram,
    supplementary: bool,
    index: u64,
    table: Seq<FileView>,
    more: FileView,
    file: FileIndex,
)
    requires
        is_denoted(program, supplementary, index, table, file),
    ensures
        is_denoted(program, supplementary, index, builder::files_with(table, more), file),
{
}

/// Whether the files that were gathered are those that their indices stand for.
pub open spec fn files_denoted(
    program: LineProgram,
    supplementary: bool,
    files: Map<u64, FileIndex>,
    table: Seq<FileView>,
) -> bool {
    forall|index: u64| #[trigger]
        files.dom().contains(index) ==> is_denoted(
            program,
            supplementary,
            index,
            table,
            files[index],
        )
}

proof fn lemma_interned(
    table: Seq<FileView>,
    name: FileName,
    supplementary: bool,
)
    requires
        builder::is_file_table(table),
    ensures
        match collect::interned(table, name, supplementary) {
            Err(_) => true,
            Ok(None) => named_file(name, supplementary) is None,
            Ok(Some((file, grown))) => {
                &&& named_file(name, supplementary) matches Some(view)
                &&& builder::is_file_table(grown)
                &&& grown == builder::files_with(table, view)
                &&& file.0 < grown.len()
                &&& grown[file.0 as int] == view
            },
        },
{
    if let Ok(Some(_)) = collect::interned(table, name, supplementary) {
        let view = named_file(name, supplementary)->0;
        builder::law_files_are_interned(table, view, view);
    }
}

/// The files that a program lists are gathered by their indices: each index of a
/// listed file with a name leads to that file, and nothing else is gathered.
pub proof fn law_listed_files_are_numbered(
    program: LineProgram,
    count: nat,
    supplementary: bool,
    table: Seq<FileView>,
)
    requires
        builder::is_file_table(table),
        count <= listed(program),
    ensures
        ({
            let named = collect::header_files(program, count, supplementary, table);
            named.error is None ==> {
                &&& builder::is_file_table(named.table)
                &&& table.len() <= named.table.len()
                &&& named.table.take(table.len() as int) == table
                &&& files_denoted(program, supplementary, named.files, named.table)
                &&& forall|index: u64| #[trigger]
                    named.files.dom().contains(index) <==> (place_of_index(program, index) matches Some(
                        place,
                    ) && place < count && named_file(program.files@[place], supplementary) is Some)
            }
        }),
    decreases count,
{
    let known = program.files.len();
    let named = collect::header_files(program, count, supplementary, table);
    if count == 0 {
        assert(table.take(table.len() as int) =~= table);
    } else if named.error is None {
        let m = (count - 1) as nat;
        law_listed_files_are_numbered(program, m, supplementary, table);
        let before = collect::header_files(program, m, supplementary, table);
        let name = program.files@[m as int];
        lemma_interned(before.table, name, supplementary);
        let key = if program.version >= 5 {
            m as u64
        } else {
            (m + 1) as u64
        };
        assert(place_of_index(program, key) == Some(m as int));
        assert forall|index: u64| #[trigger]
            place_of_index(program, index) == Some(m as int) implies index == key by {}
        if let Ok(Some((file, grown))) = collect::interned(before.table, name, supplementary) {
            let view = named_file(name, supplementary)->0;
            assert(named.files == before.files.insert(key, file));
            assert forall|index: u64| #[trigger]
                named.files.dom().contains(index) implies is_denoted(
                program,
                supplementary,
                index,
                named.table,
                named.files[index],
            ) by {
                if index != key {
                    assert(before.files.dom().contains(index));
                    lemma_denoted_stays(
                        program,
                        supplementary,
                        index,
                        before.table,
                        view,
                        before.files[index],
                    );
                }
            }
            assert(named.table.take(table.len() as int) =~= before.table.take(table.len() as int));
        }
    }
}

/// Whether a row stands before the row `i` of the sequence `s`.
spec fn is_done(sequences: Seq<LineSequence>, s: int, i: int, a: int, b: int) -> bool {
    &&& 0 <= a < sequences.len()
    &&& 0 <= b < sequences[a].rows@.len()
    &&& a < s || (a == s && b < i)
}

/// Whether a row that was gathered comes from a row before the row `i` of the
/// sequence `s`.
spec fn has_source(
    program: LineProgram,
    supplementary: bool,
    sequences: Seq<LineSequence>,
    offsets: Seq<u64>,
    table: Seq<FileView>,
    s: int,
    i: int,
    told: SequencedLine,
) -> bool {
    exists|a: int, b: int| #[trigger]
        is_done(sequences, s, i, a, b) && tells(
            program,
            supplementary,
            table,
            sequences[a].rows@[b],
            start_of(offsets, a),
            told,
        )
}

/// Whether one of the rows that were gathered says what a row says.
spec fn is_told(
    program: LineProgram,
    supplementary: bool,
    table: Seq<FileView>,
    row: LineRow,
    offset: Option<u64>,
    rows: Seq<SequencedLine>,
) -> bool {
    exists|r: int|
        0 <= r < rows.len() && tells(
            program,
            supplementary,
            table,
            row,
            offset,
            #[trigger] rows[r],
        )
}

spec fn gathered_by(
    program: LineProgram,
    supplementary: bool,
    sequences: Seq<LineSequence>,
    offsets: Seq<u64>,
    s: int,
    i: int,
    g: Gathered,
) -> bool {
    &&& builder::is_file_table(g.table)
    &&& files_denoted(program, supplementary, g.files, g.table)
    &&& forall|r: int|
        0 <= r < g.rows.len() ==> has_source(
            program,
            supplementary,
            sequences,
            offsets,
            g.table,
            s,
            i,
            #[trigger] g.rows[r],
        )
    &&& forall|a: int, b: int| #[trigger]
        is_done(sequences, s, i, a, b) && is_collected(
            program,
            supplementary,
            sequences[a].rows@[b],
        ) ==> is_told(
            program,
            supplementary,
            g.table,
            sequences[a].rows@[b],
            start_of(offsets, a),
            g.rows,
        )
}

/// Files that are added leave what was gathered as it is.
proof fn lemma_more_files(
    program: LineProgram,
    supplementary: bool,
    sequences: Seq<LineSequence>,
    offsets: Seq<u64>,
    s: int,
    i: int,
    g: Gathered,
    more: FileView,
    file: FileIndex,
    index: u64,
)
    requires
        gathered_by(program, supplementary, sequences, offsets, s, i, g),
        builder::is_file_table(builder::files_with(g.table, more)),
        is_denoted(program, supplementary, index, builder::files_with(g.table, more), file),
    ensures
        gathered_by(
            program,
            supplementary,
            sequences,
            offsets,
            s,
            i,
            Gathered {
                files: g.files.insert(index, file),
                table: builder::files_with(g.table, more),
                ..g
            },
        ),
{
    let table = builder::files_with(g.table, more);
    let files = g.files.insert(index, file);
    assert forall|k: u32| k < g.table.len() implies #[trigger] table[k as int] == g.table[k as int] by {}
    assert(files_denoted(program, supplementary, files, table)) by {
        assert forall|key: u64| #[trigger] files.dom().contains(key) implies is_denoted(
            program,
            supplementary,
            key,
            table,
            files[key],
        ) by {
            if key != index {
                assert(g.files.dom().contains(key));
                lemma_denoted_stays(program, supplementary, key, g.table, more, g.files[key]);
            }
        }
    }
    assert forall|r: int| 0 <= r < g.rows.len() implies has_source(
        program,
        supplementary,
        sequences,
        offsets,
        table,
        s,
        i,
        #[trigger] g.rows[r],
    ) by {
        let told = g.rows[r];
        assert(has_source(program, supplementary, sequences, offsets, g.table, s, i, told));
        let (a, b) = choose|a: int, b: int| #[trigger]
            is_done(sequences, s, i, a, b) && tells(
                program,
                supplementary,
                g.table,
                sequences[a].rows@[b],
                start_of(offsets, a),
                told,
            );
        assert(is_done(sequences, s, i, a, b) && tells(
            program,
            supplementary,
            table,
            sequences[a].rows@[b],
            start_of(offsets, a),
            told,
        ));
    }
    assert forall|a: int, b: int| #[trigger]
        is_done(sequences, s, i, a, b) && is_collected(
            program,
            supplementary,
            sequences[a].rows@[b],
        ) implies is_told(
        program,
        supplementary,
        table,
        sequences[a].rows@[b],
        start_of(offsets, a),
        g.rows,
    ) by {
        let row = sequences[a].rows@[b];
        let offset = start_of(offsets, a);
        assert(is_told(program, supplementary, g.table, row, offset, g.rows));
        let r = choose|r: int|
            0 <= r < g.rows.len() && tells(
                program,
                supplementary,
                g.table,
                row,
                offset,
                #[trigger] g.rows[r],
            );
        assert(tells(program, supplementary, table, row, offset, g.rows[r]));
    }
}

/// A row that is done with, and gathered where it is to be.
proof fn lemma_next_row(
    program: LineProgram,
    supplementary: bool,
    sequences: Seq<LineSequence>,
    offsets: Seq<u64>,
    s: int,
    i: int,
    g: Gathered,
    after: Gathered,
)
    requires
        is_done(sequences, s, i + 1, s, i),
        gathered_by(program, supplementary, sequences, offsets, s, i, g),
        after.table == g.table,
        after.files == g.files,
        ({
            let row = sequences[s].rows@[i];
            ||| after.rows == g.rows && !is_collected(program, supplementary, row)
            ||| after.rows.len() == g.rows.len() + 1 && after.rows.drop_last() == g.rows && tells(
                program,
                supplementary,
                g.table,
                row,
                start_of(offsets, s),
                after.rows.last(),
            )
        }),
    ensures
        gathered_by(program, supplementary, sequences, offsets, s, i + 1, after),
{
    let table = g.table;
    assert forall|a: int, b: int| #[trigger] is_done(sequences, s, i + 1, a, b) implies is_done(
        sequences,
        s,
        i,
        a,
        b,
    ) || (a == s && b == i) by {}
    assert forall|r: int| 0 <= r < after.rows.len() implies has_source(
        program,
        supplementary,
        sequences,
        offsets,
        table,
        s,
        i + 1,
        #[trigger] after.rows[r],
    ) by {
        let told = after.rows[r];
        if r < g.rows.len() {
            assert(told == g.rows[r]);
            assert(has_source(program, supplementary, sequences, offsets, table, s, i, told));
            let (a, b) = choose|a: int, b: int| #[trigger]
                is_done(sequences, s, i, a, b) && tells(
                    program,
                    supplementary,
                    table,
                    sequences[a].rows@[b],
                    start_of(offsets, a),
                    told,
                );
            assert(is_done(sequences, s, i + 1, a, b));
        }
    }
    assert forall|a: int, b: int| #[trigger]
        is_done(sequences, s, i + 1, a, b) && is_collected(
            program,
            supplementary,
            sequences[a].rows@[b],
        ) implies is_told(
        program,
        supplementary,
        table,
        sequences[a].rows@[b],
        start_of(offsets, a),
        after.rows,
    ) by {
        let row = sequences[a].rows@[b];
        let offset = start_of(offsets, a);
        if a == s && b == i {
            let r = after.rows.len() - 1;
            assert(tells(program, supplementary, table, row, offset, after.rows[r]));
        } else {
            assert(is_done(sequences, s, i, a, b));
            assert(is_told(program, supplementary, table, row, offset, g.rows));
            let r = choose|r: int|
                0 <= r < g.rows.len() && tells(
                    program,
                    supplementary,
                    table,
                    row,
                    offset,
                    #[trigger] g.rows[r],
                );
            assert(after.rows[r] == g.rows[r]);
        }
    }
}

proof fn lemma_row_gathered(
    program: LineProgram,
    supplementary: bool,
    sequences: Seq<LineSequence>,
    offsets: Seq<u64>,
    s: int,
    i: int,
    g: Gathered,
)
    requires
        0 <= s < sequences.len(),
        0 <= i < sequences[s].rows@.len(),
        gathered_by(program, supplementary, sequences, offsets, s, i, g),
        ({
            let row = sequences[s].rows@[i];
            match place_of_index(program, row.file_index) {
                Some(place) => row.file == Some(place as usize),
                None => row.file is None,
            }
        }),
        collect::with_row(
            g,
            sequences[s].rows@[i],
            program.files@,
            start_of(offsets, s),
            supplementary,
        ).error is None,
    ensures
        gathered_by(
            program,
            supplementary,
            sequences,
            offsets,
            s,
            i + 1,
            collect::with_row(
                g,
                sequences[s].rows@[i],
                program.files@,
                start_of(offsets, s),
                supplementary,
            ),
        ),
{
    let row = sequences[s].rows@[i];
    let offset = start_of(offsets, s);
    let after = collect::with_row(g, row, program.files@, offset, supplementary);
    let known = program.files.len();
    assert(is_done(sequences, s, i + 1, s, i));
    if row.end_sequence {
        lemma_next_row(program, supplementary, sequences, offsets, s, i, g, after);
    } else if g.files.dom().contains(row.file_index) {
        lemma_line_gathered(
            program,
            supplementary,
            sequences,
            offsets,
            s,
            i,
            g,
            g.files[row.file_index],
        );
    } else if row.file is None || row.file->0 >= program.files@.len() {
        lemma_next_row(program, supplementary, sequences, offsets, s, i, g, after);
    } else {
        let place = place_of_index(program, row.file_index)->0;
        let name = program.files@[place];
        assert(row.file->0 == place);
        lemma_interned(g.table, name, supplementary);
        match collect::interned(g.table, name, supplementary) {
            Err(_) => {},
            Ok(None) => {
                lemma_next_row(program, supplementary, sequences, offsets, s, i, g, after);
            },
            Ok(Some((file, grown))) => {
                let view = named_file(name, supplementary)->0;
                lemma_more_files(
                    program,
                    supplementary,
                    sequences,
                    offsets,
                    s,
                    i,
                    g,
                    view,
                    file,
                    row.file_index,
                );
                let wider = Gathered {
                    files: g.files.insert(row.file_index, file),
                    table: grown,
                    ..g
                };
                lemma_line_gathered(
                    program,
                    supplementary,
                    sequences,
                    offsets,
                    s,
                    i,
                    wider,
                    file,
                );
            },
        }
    }
}

proof fn lemma_line_gathered(
    program: LineProgram,
    supplementary: bool,
    sequences: Seq<LineSequence>,
    offsets: Seq<u64>,
    s: int,
    i: int,
    g: Gathered,
    file: FileIndex,
)
    requires
        is_done(sequences, s, i + 1, s, i),
        gathered_by(program, supplementary, sequences, offsets, s, i, g),
        !sequences[s].rows@[i].end_sequence,
        is_denoted(program, supplementary, sequences[s].rows@[i].file_index, g.table, file),
    ensures
        gathered_by(
            program,
            supplementary,
            sequences,
            offsets,
            s,
            i + 1,
            collect::with_line(g, sequences[s].rows@[i], file, start_of(offsets, s)),
        ),
{
    let row = sequences[s].rows@[i];
    let after = collect::with_line(g, row, file, start_of(offsets, s));
    if line_of(row) <= u32::MAX {
        assert(after.rows.drop_last() =~= g.rows);
    }
    lemma_next_row(program, supplementary, sequences, offsets, s, i, g, after);
}

proof fn lemma_rows_gathered(
    program: LineProgram,
    supplementary: bool,
    sequences: Seq<LineSequence>,
    offsets: Seq<u64>,
    s: int,
    count: nat,
    g: Gathered,
)
    requires
        program.sequences matches Ok(all) && all@ == sequences,
        rows_are_placed(program),
        0 <= s < sequences.len(),
        count <= sequences[s].rows@.len(),
        gathered_by(program, supplementary, sequences, offsets, s, 0, g),
        collect::with_rows(
            g,
            sequences[s].rows@,
            count,
            program.files@,
            start_of(offsets, s),
            supplementary,
        ).error is None,
    ensures
        gathered_by(
            program,
            supplementary,
            sequences,
            offsets,
            s,
            count as int,
            collect::with_rows(
                g,
                sequences[s].rows@,
                count,
                program.files@,
                start_of(offsets, s),
                supplementary,
            ),
        ),
    decreases count,
{
    if count > 0 {
        let m = (count - 1) as nat;
        let before = collect::with_rows(
            g,
            sequences[s].rows@,
            m,
            program.files@,
            start_of(offsets, s),
            supplementary,
        );
        lemma_rows_gathered(program, supplementary, sequences, offsets, s, m, g);
        let row = sequences[s].rows@[m as int];
        lemma_row_gathered(program, supplementary, sequences, offsets, s, m as int, before);
    }
}

proof fn lemma_sequences_gathered(
    program: LineProgram,
    supplementary: bool,
    sequences: Seq<LineSequence>,
    offsets: Seq<u64>,
    count: nat,
    g: Gathered,
)
    requires
        program.sequences matches Ok(all) && all@ == sequences,
        rows_are_placed(program),
        count <= sequences.len(),
        gathered_by(program, supplementary, sequences, offsets, 0, 0, g),
        collect::with_sequences(
            g,
            sequences,
            count,
            program.files@,
            offsets,
            supplementary,
        ).error is None,
    ensures
        gathered_by(
            program,
            supplementary,
            sequences,
            offsets,
            count as int,
            0,
            collect::with_sequences(g, sequences, count, program.files@, offsets, supplementary),
        ),
    decreases count,
{
    if count > 0 {
        let m = (count - 1) as nat;
        let s = m as int;
        let before = collect::with_sequences(
            g,
            sequences,
            m,
            program.files@,
            offsets,
            supplementary,
        );
        lemma_sequences_gathered(program, supplementary, sequences, offsets, m, g);
        let rows = sequences[s].rows@;
        assert(collect::offset_of(offsets, s) == start_of(offsets, s));
        lemma_rows_gathered(program, supplementary, sequences, offsets, s, rows.len(), before);
        let after = collect::with_sequences(
            g,
            sequences,
            count,
            program.files@,
            offsets,
            supplementary,
        );
        assert(after == collect::with_rows(
            before,
            rows,
            rows.len(),
            program.files@,
            start_of(offsets, s),
            supplementary,
        ));
        assert forall|a: int, b: int|
            is_done(sequences, s, rows.len() as int, a, b) == #[trigger] is_done(
                sequences,
                s + 1,
                0,
                a,
                b,
            ) by {}
        assert forall|r: int| 0 <= r < after.rows.len() implies has_source(
            program,
            supplementary,
            sequences,
            offsets,
            after.table,
            s + 1,
            0,
            #[trigger] after.rows[r],
        ) by {
            let told = after.rows[r];
            assert(has_source(
                program,
                supplementary,
                sequences,
                offsets,
                after.table,
                s,
                rows.len() as int,
                told,
            ));
            let (a, b) = choose|a: int, b: int| #[trigger]
                is_done(sequences, s, rows.len() as int, a, b) && tells(
                    program,
                    supplementary,
                    after.table,
                    sequences[a].rows@[b],
                    start_of(offsets, a),
                    told,
                );
            assert(is_done(sequences, s + 1, 0, a, b));
        }
        assert forall|a: int, b: int| #[trigger]
            is_done(sequences, s + 1, 0, a, b) && is_collected(
                program,
                supplementary,
                sequences[a].rows@[b],
            ) implies is_told(
            program,
            supplementary,
            after.table,
            sequences[a].rows@[b],
            start_of(offsets, a),
            after.rows,
        ) by {
            assert(is_done(sequences, s, rows.len() as int, a, b));
        }
        assert(gathered_by(program, supplementary, sequences, offsets, s + 1, 0, after));
    }
}

proof fn lemma_covered_ranges(sequences: Seq<LineSequence>, count: nat, offsets: Seq<u64>)
    requires
        count <= sequences.len(),
    ensures
        forall|covered: LineSequenceRange| #[trigger]
            collect::covered_ranges(sequences, count, offsets).contains(covered) <==> exists|
                a: int,
            |
                0 <= a < count && covers(#[trigger] sequences[a], start_of(offsets, a), covered),
    decreases count,
{
    let all = collect::covered_ranges(sequences, count, offsets);
    if count > 0 {
        let m = (count - 1) as nat;
        let before = collect::covered_ranges(sequences, m, offsets);
        lemma_covered_ranges(sequences, m, offsets);
        assert forall|covered: LineSequenceRange| #[trigger]
            all.contains(covered) <==> exists|a: int|
                0 <= a < count && covers(
                    #[trigger] sequences[a],
                    start_of(offsets, a),
                    covered,
                ) by {
            if all.contains(covered) {
                let k = choose|k: int| 0 <= k < all.len() && all[k] == covered;
                if k < before.len() {
                    assert(before[k] == covered);
                    assert(before.contains(covered));
                    let a = choose|a: int|
                        0 <= a < m && covers(
                            #[trigger] sequences[a],
                            start_of(offsets, a),
                            covered,
                        );
                    assert(covers(sequences[a], start_of(offsets, a), covered));
                } else {
                    assert(covers(sequences[m as int], start_of(offsets, m as int), covered));
                }
            }
            if exists|a: int|
                0 <= a < count && covers(
                    #[trigger] sequences[a],
                    start_of(offsets, a),
                    covered,
                ) {
                let a = choose|a: int|
                    0 <= a < count && covers(
                        #[trigger] sequences[a],
                        start_of(offsets, a),
                        covered,
                    );
                if a < m {
                    assert(before.contains(covered));
                    let k = choose|k: int| 0 <= k < before.len() && before[k] == covered;
                    assert(all[k] == covered);
                } else {
                    assert(all[before.len() as int] == covered);
                }
            }
        }
    }
}

/// Whether what a sequence covers is what it says: its addresses, if there are any,
/// and where it begins.
pub open spec fn covers(
    sequence: LineSequence,
    offset: Option<u64>,
    covered: LineSequenceRange,
) -> bool {
    &&& sequence.start < sequence.end
    &&& covered.range.start == sequence.start
    &&& covered.range.end == sequence.end
    &&& covered.statement_sequence == offset
}

proof fn lemma_distinct_keeps(rows: Seq<SequencedLine>)
    ensures
        forall|told: SequencedLine|
            collect::distinct_rows(rows).contains(told) <==> #[trigger] rows.contains(told),
        rows.len() > 0 ==> collect::distinct_rows(rows).len() > 0,
    decreases rows.len(),
{
    let kept = collect::distinct_rows(rows);
    if rows.len() > 0 {
        let head = rows.drop_last();
        let rest = collect::distinct_rows(head);
        lemma_distinct_keeps(head);
        assert forall|told: SequencedLine|
            kept.contains(told) <==> #[trigger] rows.contains(told) by {
            if kept.contains(told) {
                let k = choose|k: int| 0 <= k < kept.len() && kept[k] == told;
                if k < rest.len() {
                    assert(rest[k] == told);
                    assert(rest.contains(told));
                    assert(head.contains(told));
                    let r = choose|r: int| 0 <= r < head.len() && head[r] == told;
                    assert(rows[r] == told);
                } else {
                    assert(rows[rows.len() - 1] == told);
                }
            }
            if rows.contains(told) {
                let r = choose|r: int| 0 <= r < rows.len() && rows[r] == told;
                if r < head.len() {
                    assert(head[r] == told);
                    assert(head.contains(told));
                    assert(rest.contains(told));
                    let k = choose|k: int| 0 <= k < rest.len() && rest[k] == told;
                    assert(kept[k] == told);
                } else {
                    assert(kept[kept.len() - 1] == told);
                }
            }
        }
    } else {
        assert(kept == rows);
    }
}

proof fn lemma_entries_are_rows(rows: Seq<SequencedLine>)
    ensures
        forall|told: SequencedLine|
            collect::distinct_rows(collect::sorted_rows(rows)).contains(told)
                <==> #[trigger] rows.contains(told),
{
    broadcast use vstd::seq_lib::group_to_multiset_ensures;

    let le = collect::by_address(rows);
    assert(sort::total_preorder(le, rows.len()));
    sort::lemma_order_exists(le, rows.len());
    let order = sort::order_of(le, rows.len());
    let sorted = collect::sorted_rows(rows);
    sort::lemma_arranged(rows, order, le);
    assert(sorted =~= sort::rearranged(rows, order));
    lemma_distinct_keeps(sorted);
    assert forall|told: SequencedLine|
        sorted.contains(told) <==> #[trigger] rows.contains(told) by {
        assert(sorted.contains(told) <==> sorted.to_multiset().count(told) > 0);
        assert(rows.contains(told) <==> rows.to_multiset().count(told) > 0);
    }
}

/// The rows that are collected of a line program are those of its sequences that
/// do not end one, whose line fits and whose file has a name: each with its
/// address, its line and its sequence, and with the file of the file table that
/// the row's index stands for. No row is left out and none is made up. The rows ascend
/// by address, and the addresses that each sequence covers are kept.
pub proof fn law_collected_rows_are_the_programs(
    program: LineProgram,
    supplementary: bool,
    table: Seq<FileView>,
    warnings: Seq<WarningView>,
    collected: UnitLines,
)
    requires
        builder::is_file_table(table),
        rows_are_placed(program),
        collect::gathered_lines(Some(program), supplementary, table, warnings).error is None,
        collect::is_gathered(
            collected,
            collect::gathered_lines(Some(program), supplementary, table, warnings),
            Some(program),
        ),
    ensures
        ({
            let files = collect::gathered_lines(Some(program), supplementary, table, warnings).table;
            &&& program.sequences matches Ok(sequences)
            &&& collect::offsets_of(program) matches Ok(offsets)
            &&& builder::is_file_table(files)
            &&& files_denoted(program, supplementary, collected.files@, files)
            &&& lines::ascend(collected.entries@)
            &&& forall|covered: LineSequenceRange| #[trigger]
                collected.sequences@.contains(covered) <==> exists|a: int|
                    0 <= a < sequences@.len() && covers(
                        #[trigger] sequences@[a],
                        start_of(offsets, a),
                        covered,
                    )
            &&& forall|r: int|
                0 <= r < collected.entries@.len() ==> exists|a: int, b: int|
                    0 <= a < sequences@.len() && 0 <= b < sequences@[a].rows@.len() && tells(
                        program,
                        supplementary,
                        files,
                        #[trigger] sequences@[a].rows@[b],
                        start_of(offsets, a),
                        #[trigger] collected.entries@[r],
                    )
            &&& forall|a: int, b: int|
                0 <= a < sequences@.len() && 0 <= b < sequences@[a].rows@.len() && is_collected(
                    program,
                    supplementary,
                    #[trigger] sequences@[a].rows@[b],
                ) ==> exists|r: int|
                    0 <= r < collected.entries@.len() && tells(
                        program,
                        supplementary,
                        files,
                        sequences@[a].rows@[b],
                        start_of(offsets, a),
                        #[trigger] collected.entries@[r],
                    )
        }),
{
    let sequences = program.sequences->Ok_0@;
    let offsets = collect::offsets_of(program)->Ok_0;
    let n = sequences.len() as int;
    let count = collect::file_count(program, program.listed_files);
    let named = Gathered {
        warnings: collect::mismatch_warnings(warnings, sequences.len(), offsets.len()),
        ..collect::header_files(program, count, supplementary, table)
    };
    if named.error is None {
        law_listed_files_are_numbered(program, count, supplementary, table);
        collect::lemma_header_rows(program, count, supplementary, table);
        assert(gathered_by(program, supplementary, sequences, offsets, 0, 0, named));
        lemma_sequences_gathered(
            program,
            supplementary,
            sequences,
            offsets,
            sequences.len(),
            named,
        );
    }
    let g = collect::gathered_lines(Some(program), supplementary, table, warnings);
    let entries = collected.entries@;
    lemma_entries_are_rows(g.rows);
    lemma_covered_ranges(sequences, sequences.len(), offsets);
    collect::lemma_collected_ascend(g.rows);
    assert forall|r: int| 0 <= r < entries.len() implies exists|a: int, b: int|
        0 <= a < sequences.len() && 0 <= b < sequences[a].rows@.len() && tells(
            program,
            supplementary,
            g.table,
            #[trigger] sequences[a].rows@[b],
            start_of(offsets, a),
            #[trigger] entries[r],
        ) by {
        let told = entries[r];
        assert(entries.contains(told));
        assert(g.rows.contains(told));
        let at = choose|at: int| 0 <= at < g.rows.len() && g.rows[at] == told;
        assert(has_source(
            program,
            supplementary,
            sequences,
            offsets,
            g.table,
            n,
            0,
            g.rows[at],
        ));
        let (a, b) = choose|a: int, b: int| #[trigger]
            is_done(sequences, n, 0, a, b) && tells(
                program,
                supplementary,
                g.table,
                sequences[a].rows@[b],
                start_of(offsets, a),
                told,
            );
        assert(0 <= a < sequences.len() && 0 <= b < sequences[a].rows@.len() && tells(
            program,
            supplementary,
            g.table,
            sequences[a].rows@[b],
            start_of(offsets, a),
            entries[r],
        ));
    }
    assert forall|a: int, b: int|
        0 <= a < sequences.len() && 0 <= b < sequences[a].rows@.len() && is_collected(
            program,
            supplementary,
            #[trigger] sequences[a].rows@[b],
        ) implies exists|r: int|
        0 <= r < entries.len() && tells(
            program,
            supplementary,
            g.table,
            sequences[a].rows@[b],
            start_of(offsets, a),
            #[trigger] entries[r],
        ) by {
        let row = sequences[a].rows@[b];
        let offset = start_of(offsets, a);
        assert(is_done(sequences, n, 0, a, b));
        assert(is_told(program, supplementary, g.table, row, offset, g.rows));
        let at = choose|at: int|
            0 <= at < g.rows.len() && tells(
                program,
                supplementary,
                g.table,
                row,
                offset,
                #[trigger] g.rows[at],
            );
        assert(g.rows.contains(g.rows[at]));
        assert(entries.contains(g.rows[at]));
        let r = choose|r: int| 0 <= r < entries.len() && entries[r] == g.rows[at];
        assert(tells(program, supplementary, g.table, row, offset, entries[r]));
    }
}

} // verus!
