//! Line tables: a byte-coded program that emits address-to-line rows.
use vstd::prelude::*;
use crate::format::leb;
use crate::bytes;
use crate::endian::{Cursor, Encoder, Endian};
use crate::error::{Detail, Error};
use crate::format::leb::{read_sleb, read_uleb, write_sleb, write_uleb};
use crate::model::{FileIndex, LineEntry};

verus! {

/// Opcode that ends the program.
pub const END_SEQUENCE: u8 = 0;

/// Opcode that sets the current file.
pub const SET_FILE: u8 = 1;

/// Opcode that advances the address and emits a row.
pub const ADVANCE_PC: u8 = 2;

/// Opcode that advances the line.
pub const ADVANCE_LINE: u8 = 3;

/// First of the opcodes that advance address and line and emit a row.
pub const FIRST_SPECIAL: u8 = 4;

/// Widest range of line deltas that the encoder gives special opcodes to.
pub const MAXIMUM_LINE_RANGE: i64 = 14;

/// What one opcode does to the current row.
pub enum LineStep {
    /// The program ended.
    End,
    /// The row changed and is not emitted.
    Update(LineEntry),
    /// The row changed and is emitted.
    Emit(LineEntry),
}

/// The parameters of a line program and its first row.
#[derive(Clone, Copy, Debug, PartialEq, Eq)]
pub struct LineHeader {
    /// Line delta of the first special opcode.
    pub minimum_delta: i64,
    /// Number of line deltas that special opcodes cover.
    pub line_range: u64,
    /// Row that the program starts from.
    pub row: LineEntry,
}

/// Number of line deltas from `minimum` to `maximum`.
pub open spec fn line_range(minimum: i64, maximum: i64) -> Result<u64, Error> {
    if maximum < minimum {
        Err(Error::InvalidFormat("line-table maximum delta precedes minimum delta"))
    } else if maximum - minimum > i64::MAX {
        Err(Error::Overflow("line-table delta range"))
    } else {
        Ok((maximum - minimum + 1) as u64)
    }
}

/// The line `delta` lines after `line`.
pub open spec fn moved_line(line: u32, delta: i64) -> Result<u32, Error> {
    if 0 <= line + delta <= u32::MAX {
        Ok((line + delta) as u32)
    } else {
        Err(Error::Malformed { context: "line table", detail: Detail::LineOutsideU32 { line, delta } })
    }
}

/// The address `delta` bytes after `address`.
pub open spec fn moved_address(address: u64, delta: u64) -> Result<u64, Error> {
    if address + delta <= u64::MAX {
        Ok((address + delta) as u64)
    } else {
        Err(Error::Overflow("line-table address"))
    }
}

/// Outcome of reading the parameters of a line program at `pos`.
pub open spec fn header_at(s: Seq<u8>, pos: int, base: u64) -> Result<(LineHeader, int), Error> {
    match leb::sleb_at(s, pos) {
        Err(error) => Err(error),
        Ok((minimum, p1)) => match leb::sleb_at(s, p1) {
            Err(error) => Err(error),
            Ok((maximum, p2)) => match line_range(minimum, maximum) {
                Err(error) => Err(error),
                Ok(range) => match leb::uleb_at(s, p2) {
                    Err(error) => Err(error),
                    Ok((line, p3)) => if line > u32::MAX {
                        Err(
                            Error::OutOfRange {
                                field: "line number",
                                value: line,
                                max: u32::MAX as u64,
                            },
                        )
                    } else {
                        Ok(
                            (
                                LineHeader {
                                    minimum_delta: minimum,
                                    line_range: range,
                                    row: LineEntry {
                                        address: base,
                                        file: FileIndex(1),
                                        line: line as u32,
                                    },
                                },
                                p3,
                            ),
                        )
                    },
                },
            },
        },
    }
}

/// What the special opcode `opcode` does to `row`.
pub open spec fn special_step(header: LineHeader, row: LineEntry, opcode: u8) -> Result<
    LineEntry,
    Error,
> {
    let adjusted = opcode - FIRST_SPECIAL;
    let delta = header.minimum_delta + adjusted % (header.line_range as int);
    if delta > i64::MAX {
        Err(Error::Overflow("line-table line delta"))
    } else {
        match moved_line(row.line, delta as i64) {
            Err(error) => Err(error),
            Ok(line) => match moved_address(
                row.address,
                (adjusted / (header.line_range as int)) as u64,
            ) {
                Err(error) => Err(error),
                Ok(address) => Ok(LineEntry { address, file: row.file, line }),
            },
        }
    }
}

/// Outcome of executing the opcode at `pos` on `row`.
pub open spec fn step_at(s: Seq<u8>, pos: int, header: LineHeader, row: LineEntry) -> Result<
    (LineStep, int),
    Error,
> {
    if pos >= s.len() {
        Err(Error::InvalidFormat("line table has no end-sequence opcode"))
    } else if s[pos] == END_SEQUENCE {
        Ok((LineStep::End, pos + 1))
    } else if s[pos] == SET_FILE {
        match leb::uleb_at(s, pos + 1) {
            Err(error) => Err(error),
            Ok((file, end)) => if file > u32::MAX {
                Err(
                    Error::OutOfRange {
                        field: "line-table file index",
                        value: file,
                        max: u32::MAX as u64,
                    },
                )
            } else {
                Ok(
                    (
                        LineStep::Update(
                            LineEntry {
                                address: row.address,
                                file: FileIndex(file as u32),
                                line: row.line,
                            },
                        ),
                        end,
                    ),
                )
            },
        }
    } else if s[pos] == ADVANCE_PC {
        match leb::uleb_at(s, pos + 1) {
            Err(error) => Err(error),
            Ok((delta, end)) => match moved_address(row.address, delta) {
                Err(error) => Err(error),
                Ok(address) => Ok(
                    (LineStep::Emit(LineEntry { address, file: row.file, line: row.line }), end),
                ),
            },
        }
    } else if s[pos] == ADVANCE_LINE {
        match leb::sleb_at(s, pos + 1) {
            Err(error) => Err(error),
            Ok((delta, end)) => match moved_line(row.line, delta) {
                Err(error) => Err(error),
                Ok(line) => Ok(
                    (
                        LineStep::Update(
                            LineEntry { address: row.address, file: row.file, line },
                        ),
                        end,
                    ),
                ),
            },
        }
    } else {
        match special_step(header, row, s[pos]) {
            Err(error) => Err(error),
            Ok(next) => Ok((LineStep::Emit(next), pos + 1)),
        }
    }
}

pub proof fn lemma_step_advances(s: Seq<u8>, pos: int, header: LineHeader, row: LineEntry)
    requires
        0 <= pos,
    ensures
        step_at(s, pos, header, row) matches Ok((step, end)) ==> pos < end <= s.len(),
{
    if pos < s.len() {
        leb::lemma_uleb_advances(s, pos + 1, pos + 1, 0, 0, 64);
        leb::lemma_sleb_advances(s, pos + 1, pos + 1, 0, 0, 64);
    }
}

/// The rows that the program at `pos` emits, starting from `row`.
pub open spec fn rows_at(s: Seq<u8>, pos: int, header: LineHeader, row: LineEntry) -> Result<
    Seq<LineEntry>,
    Error,
>
    decreases s.len() - pos,
    when 0 <= pos
    via rows_at_decreases
{
    match step_at(s, pos, header, row) {
        Err(error) => Err(error),
        Ok((LineStep::End, _)) => Ok(Seq::empty()),
        Ok((LineStep::Update(next), end)) => rows_at(s, end, header, next),
        Ok((LineStep::Emit(next), end)) => match rows_at(s, end, header, next) {
            Err(error) => Err(error),
            Ok(rest) => Ok(seq![next] + rest),
        },
    }
}

#[via_fn]
proof fn rows_at_decreases(s: Seq<u8>, pos: int, header: LineHeader, row: LineEntry) {
    lemma_step_advances(s, pos, header, row);
}

/// The row in effect at `address`: of the program at `pos`, started from `row`,
/// the last row emitted before the first that lies beyond `address`. Nothing
/// behind that first row is read.
pub open spec fn seek_at(
    s: Seq<u8>,
    pos: int,
    header: LineHeader,
    row: LineEntry,
    address: u64,
    found: Option<LineEntry>,
) -> Result<Option<LineEntry>, Error>
    decreases s.len() - pos,
    when 0 <= pos
    via seek_at_decreases
{
    match step_at(s, pos, header, row) {
        Err(error) => Err(error),
        Ok((LineStep::End, _)) => Ok(found),
        Ok((LineStep::Update(next), end)) => seek_at(s, end, header, next, address, found),
        Ok((LineStep::Emit(next), end)) => if address < next.address {
            Ok(found)
        } else {
            seek_at(s, end, header, next, address, Some(next))
        },
    }
}

#[via_fn]
proof fn seek_at_decreases(
    s: Seq<u8>,
    pos: int,
    header: LineHeader,
    row: LineEntry,
    address: u64,
    found: Option<LineEntry>,
) {
    lemma_step_advances(s, pos, header, row);
}

/// The rows of the line table `s` of a function that starts at `base`.
#[verifier::opaque]
pub open spec fn decoded(s: Seq<u8>, base: u64) -> Result<Seq<LineEntry>, Error> {
    match header_at(s, 0, base) {
        Err(error) => Err(error),
        Ok((header, pos)) => rows_at(s, pos, header, header.row),
    }
}

/// The row of the line table `s` in effect at `address`.
pub open spec fn looked_up(s: Seq<u8>, base: u64, address: u64) -> Result<
    Option<LineEntry>,
    Error,
> {
    match header_at(s, 0, base) {
        Err(error) => Err(error),
        Ok((header, pos)) => seek_at(s, pos, header, header.row, address, None),
    }
}

/// The last of `rows` that starts at or before `address`.
pub open spec fn row_in_effect(rows: Seq<LineEntry>, address: u64) -> Option<LineEntry>
    decreases rows.len(),
{
    if rows.len() == 0 {
        None
    } else if rows.last().address <= address {
        Some(rows.last())
    } else {
        row_in_effect(rows.drop_last(), address)
    }
}

/// Whether the addresses of `rows` never fall, from `low` on.
pub open spec fn rows_sorted(rows: Seq<LineEntry>, low: u64) -> bool {
    &&& forall|i: int| 0 <= i < rows.len() ==> low <= #[trigger] rows[i].address
    &&& forall|i: int, j: int|
        0 <= i <= j < rows.len() ==> (#[trigger] rows[i]).address <= (#[trigger] rows[j]).address
}

proof fn lemma_rows_sorted(s: Seq<u8>, pos: int, header: LineHeader, row: LineEntry)
    requires
        0 <= pos,
    ensures
        rows_at(s, pos, header, row) matches Ok(rows) ==> rows_sorted(rows, row.address),
    decreases s.len() - pos,
{
    lemma_step_advances(s, pos, header, row);
    match step_at(s, pos, header, row) {
        Err(_) => {},
        Ok((LineStep::End, _)) => {},
        Ok((LineStep::Update(next), end)) => {
            lemma_rows_sorted(s, end, header, next);
        },
        Ok((LineStep::Emit(next), end)) => {
            lemma_rows_sorted(s, end, header, next);
        },
    }
}

/// The addresses of a decoded line table never fall and never precede the
/// function.
pub proof fn law_decoded_rows_are_sorted(s: Seq<u8>, base: u64)
    ensures
        decoded(s, base) matches Ok(rows) ==> rows_sorted(rows, base),
{
    reveal(decoded);
    lemma_header_advances(s, 0, base);
    if let Ok((header, pos)) = header_at(s, 0, base) {
        lemma_rows_sorted(s, pos, header, header.row);
    }
}

proof fn lemma_row_in_effect_none(rows: Seq<LineEntry>, address: u64)
    requires
        forall|i: int| 0 <= i < rows.len() ==> address < #[trigger] rows[i].address,
    ensures
        row_in_effect(rows, address) is None,
    decreases rows.len(),
{
    if rows.len() > 0 {
        lemma_row_in_effect_none(rows.drop_last(), address);
    }
}

proof fn lemma_row_in_effect_cons(first: LineEntry, rest: Seq<LineEntry>, address: u64)
    requires
        first.address <= address,
    ensures
        row_in_effect(seq![first] + rest, address) == (match row_in_effect(rest, address) {
            Some(row) => Some(row),
            None => Some(first),
        }),
    decreases rest.len(),
{
    let rows = seq![first] + rest;
    if rest.len() == 0 {
        assert(rows.last() == first);
    } else {
        assert(rows.last() == rest.last());
        assert(rows.drop_last() =~= seq![first] + rest.drop_last());
        lemma_row_in_effect_cons(first, rest.drop_last(), address);
    }
}

proof fn lemma_seek_is_row_in_effect(
    s: Seq<u8>,
    pos: int,
    header: LineHeader,
    row: LineEntry,
    address: u64,
    found: Option<LineEntry>,
)
    requires
        0 <= pos,
        rows_at(s, pos, header, row) is Ok,
    ensures
        seek_at(s, pos, header, row, address, found) == Ok::<Option<LineEntry>, Error>(
            match row_in_effect(rows_at(s, pos, header, row)->Ok_0, address) {
                Some(last) => Some(last),
                None => found,
            },
        ),
    decreases s.len() - pos,
{
    lemma_step_advances(s, pos, header, row);
    match step_at(s, pos, header, row) {
        Err(_) => {},
        Ok((LineStep::End, _)) => {},
        Ok((LineStep::Update(next), end)) => {
            lemma_seek_is_row_in_effect(s, end, header, next, address, found);
        },
        Ok((LineStep::Emit(next), end)) => {
            let rest = rows_at(s, end, header, next)->Ok_0;
            if address < next.address {
                lemma_rows_sorted(s, end, header, next);
                lemma_row_in_effect_none(seq![next] + rest, address);
            } else {
                lemma_row_in_effect_cons(next, rest, address);
                lemma_seek_is_row_in_effect(s, end, header, next, address, Some(next));
            }
        },
    }
}

proof fn lemma_header_advances(s: Seq<u8>, pos: int, base: u64)
    requires
        0 <= pos,
    ensures
        header_at(s, pos, base) matches Ok((header, end)) ==> pos < end <= s.len()
            && header.line_range >= 1 && header.row.address == base,
{
    leb::lemma_sleb_advances(s, pos, pos, 0, 0, 64);
    if let Ok((minimum, p1)) = leb::sleb_at(s, pos) {
        leb::lemma_sleb_advances(s, p1, p1, 0, 0, 64);
        if let Ok((maximum, p2)) = leb::sleb_at(s, p1) {
            leb::lemma_uleb_advances(s, p2, p2, 0, 0, 64);
        }
    }
}

/// Looking an address up gives the last decoded row that starts at or before
/// it, for every line table that decodes.
pub proof fn law_lookup_is_last_row(s: Seq<u8>, base: u64, address: u64)
    requires
        decoded(s, base) is Ok,
    ensures
        looked_up(s, base, address) == Ok::<Option<LineEntry>, Error>(
            row_in_effect(decoded(s, base)->Ok_0, address),
        ),
{
    reveal(decoded);
    lemma_header_advances(s, 0, base);
    let (header, pos) = header_at(s, 0, base)->Ok_0;
    lemma_seek_is_row_in_effect(s, pos, header, header.row, address, None);
}

fn read_header(cursor: &mut Cursor<'_>, base: u64) -> (result: Result<LineHeader, Error>)
    requires
        old(cursor).wf(),
    ensures
        Cursor::reads(
            *old(cursor),
            *final(cursor),
            result,
            header_at(old(cursor).bytes@, old(cursor).position as int, base),
        ),
        result matches Ok(header) ==> header.line_range >= 1,
{
    let minimum: i64 = read_sleb(cursor)?;
    let maximum: i64 = read_sleb(cursor)?;
    if maximum < minimum {
        return Err(Error::InvalidFormat("line-table maximum delta precedes minimum delta"));
    }
    let span: i64 = match maximum.checked_sub(minimum) {
        Some(span) => span,
        None => return Err(Error::Overflow("line-table delta range")),
    };
    let range: u64 = span as u64 + 1;
    let line: u64 = read_uleb(cursor)?;
    if line > u32::MAX as u64 {
        return Err(
            Error::OutOfRange { field: "line number", value: line, max: u32::MAX as u64 },
        );
    }
    Ok(
        LineHeader {
            minimum_delta: minimum,
            line_range: range,
            row: LineEntry { address: base, file: FileIndex(1), line: line as u32 },
        },
    )
}

fn add_line_delta(line: u32, delta: i64) -> (result: Result<u32, Error>)
    ensures
        result == moved_line(line, delta),
{
    let value: i128 = line as i128 + delta as i128;
    if 0 <= value && value <= u32::MAX as i128 {
        Ok(value as u32)
    } else {
        Err(Error::Malformed { context: "line table", detail: Detail::LineOutsideU32 { line, delta } })
    }
}

fn add_address_delta(address: u64, delta: u64) -> (result: Result<u64, Error>)
    ensures
        result == moved_address(address, delta),
{
    match address.checked_add(delta) {
        Some(moved) => Ok(moved),
        None => Err(Error::Overflow("line-table address")),
    }
}

fn execute_special(header: &LineHeader, row: LineEntry, opcode: u8) -> (result: Result<
    LineEntry,
    Error,
>)
    requires
        opcode >= FIRST_SPECIAL,
        header.line_range >= 1,
    ensures
        result == special_step(*header, row, opcode),
{
    let adjusted: u64 = (opcode - FIRST_SPECIAL) as u64;
    let offset: u64 = adjusted % header.line_range;
    let address_delta: u64 = adjusted / header.line_range;
    proof {
        assert(0 <= offset <= adjusted) by (nonlinear_arith)
            requires
                offset == adjusted % header.line_range,
                header.line_range >= 1,
        ;
    }
    let delta: i64 = match header.minimum_delta.checked_add(offset as i64) {
        Some(delta) => delta,
        None => return Err(Error::Overflow("line-table line delta")),
    };
    let line: u32 = add_line_delta(row.line, delta)?;
    let address: u64 = add_address_delta(row.address, address_delta)?;
    Ok(LineEntry { address, file: row.file, line })
}

/// Executes the next opcode.
fn execute(cursor: &mut Cursor<'_>, header: &LineHeader, row: LineEntry) -> (result: Result<
    LineStep,
    Error,
>)
    requires
        old(cursor).wf(),
        header.line_range >= 1,
    ensures
        Cursor::reads(
            *old(cursor),
            *final(cursor),
            result,
            step_at(old(cursor).bytes@, old(cursor).position as int, *header, row),
        ),
{
    let opcode: u8 = match cursor.read_u8() {
        Ok(opcode) => opcode,
        Err(_) => return Err(Error::InvalidFormat("line table has no end-sequence opcode")),
    };
    if opcode == END_SEQUENCE {
        Ok(LineStep::End)
    } else if opcode == SET_FILE {
        let file: u64 = read_uleb(cursor)?;
        if file > u32::MAX as u64 {
            return Err(
                Error::OutOfRange {
                    field: "line-table file index",
                    value: file,
                    max: u32::MAX as u64,
                },
            );
        }
        Ok(
            LineStep::Update(
                LineEntry { address: row.address, file: FileIndex(file as u32), line: row.line },
            ),
        )
    } else if opcode == ADVANCE_PC {
        let delta: u64 = read_uleb(cursor)?;
        let address: u64 = add_address_delta(row.address, delta)?;
        Ok(LineStep::Emit(LineEntry { address, file: row.file, line: row.line }))
    } else if opcode == ADVANCE_LINE {
        let delta: i64 = read_sleb(cursor)?;
        let line: u32 = add_line_delta(row.line, delta)?;
        Ok(LineStep::Update(LineEntry { address: row.address, file: row.file, line }))
    } else {
        let next = execute_special(header, row, opcode)?;
        Ok(LineStep::Emit(next))
    }
}

/// Decodes every row of a line table.
pub fn decode(bytes: &[u8], endian: Endian, base: u64) -> (result: Result<Vec<LineEntry>, Error>)
    ensures
        match decoded(bytes@, base) {
            Ok(rows) => result matches Ok(lines) && lines@ == rows,
            Err(error) => result == Err::<Vec<LineEntry>, Error>(error),
        },
{
    proof {
        reveal(decoded);
    }
    let mut cursor = Cursor::new(bytes, endian);
    let header = read_header(&mut cursor, base)?;
    let mut lines: Vec<LineEntry> = Vec::new();
    let mut row: LineEntry = header.row;
    proof {
        let rest = rows_at(bytes@, cursor.position as int, header, row);
        if let Ok(rows) = rest {
            assert(lines@ + rows =~= rows);
        }
    }
    loop
        invariant
            cursor.wf(),
            cursor.bytes@ == bytes@,
            header.line_range >= 1,
            decoded(bytes@, base) == (match rows_at(bytes@, cursor.position as int, header, row) {
                Ok(rest) => Ok::<Seq<LineEntry>, Error>(lines@ + rest),
                Err(error) => Err(error),
            }),
        decreases bytes@.len() - cursor.position,
    {
        proof {
            lemma_step_advances(bytes@, cursor.position as int, header, row);
        }
        let ghost before = lines@;
        match execute(&mut cursor, &header, row)? {
            LineStep::End => {
                assert(lines@ + Seq::<LineEntry>::empty() =~= lines@);
                return Ok(lines);
            },
            LineStep::Update(next) => {
                row = next;
            },
            LineStep::Emit(next) => {
                row = next;
                lines.push(row);
                proof {
                    if let Ok(rest) = rows_at(bytes@, cursor.position as int, header, row) {
                        assert(lines@ + rest =~= before + (seq![next] + rest));
                    }
                }
            },
        }
    }
}

/// Finds the row in effect at `address`, reading no further than needed.
pub fn lookup(bytes: &[u8], endian: Endian, base: u64, address: u64) -> (result: Result<
    Option<LineEntry>,
    Error,
>)
    ensures
        result == looked_up(bytes@, base, address),
{
    let mut cursor = Cursor::new(bytes, endian);
    let header = read_header(&mut cursor, base)?;
    let mut row: LineEntry = header.row;
    let mut found: Option<LineEntry> = None;
    loop
        invariant
            cursor.wf(),
            cursor.bytes@ == bytes@,
            header.line_range >= 1,
            looked_up(bytes@, base, address) == seek_at(
                bytes@,
                cursor.position as int,
                header,
                row,
                address,
                found,
            ),
        decreases bytes@.len() - cursor.position,
    {
        proof {
            lemma_step_advances(bytes@, cursor.position as int, header, row);
        }
        match execute(&mut cursor, &header, row)? {
            LineStep::End => {
                return Ok(found);
            },
            LineStep::Update(next) => {
                row = next;
            },
            LineStep::Emit(next) => {
                if address < next.address {
                    return Ok(found);
                }
                row = next;
                found = Some(next);
            },
        }
    }
}

/// Line delta from row `i - 1` to row `i`.
pub open spec fn line_delta(lines: Seq<LineEntry>, i: int) -> int {
    lines[i].line - lines[i - 1].line
}

/// How many of the first `n` rows follow their predecessor by a line delta
/// from `low` to `high`.
pub open spec fn hits(lines: Seq<LineEntry>, n: nat, low: int, high: int) -> nat
    decreases n,
{
    if n <= 1 {
        0
    } else {
        hits(lines, (n - 1) as nat, low, high) + (if low <= line_delta(lines, n - 1) <= high {
            1nat
        } else {
            0nat
        })
    }
}

/// Whether `delta` occurs between two neighbouring rows.
pub open spec fn occurs(lines: Seq<LineEntry>, delta: int) -> bool {
    hits(lines, lines.len(), delta, delta) > 0
}

/// How often the deltas of the widest window from `low` on occur, counted no
/// further than a counter goes.
pub open spec fn window_hits(lines: Seq<LineEntry>, low: int) -> nat {
    let count = hits(lines, lines.len(), low, low + MAXIMUM_LINE_RANGE);
    if count > u32::MAX {
        u32::MAX as nat
    } else {
        count
    }
}

/// Whether `low` and `high` are the least and the greatest delta.
pub open spec fn spans_all(lines: Seq<LineEntry>, low: int, high: int) -> bool {
    &&& occurs(lines, low)
    &&& occurs(lines, high)
    &&& forall|d: int| #[trigger] occurs(lines, d) ==> low <= d <= high
}

/// Whether the window from `low` on holds the most deltas, no earlier window
/// holds as many, and `high` is the greatest delta in it.
pub open spec fn best_window(lines: Seq<LineEntry>, low: int, high: int) -> bool {
    &&& occurs(lines, low)
    &&& occurs(lines, high)
    &&& low <= high <= low + MAXIMUM_LINE_RANGE
    &&& forall|d: int| #[trigger] occurs(lines, d) && d <= low + MAXIMUM_LINE_RANGE ==> d <= high
    &&& forall|d: int| #[trigger]
        occurs(lines, d) ==> window_hits(lines, d) <= window_hits(lines, low)
    &&& forall|d: int| #[trigger]
        occurs(lines, d) && d < low ==> window_hits(lines, d) < window_hits(lines, low)
}

/// Whether `low` to `high` is the range of deltas that special opcodes are for:
/// all deltas where a window can hold them, else the best window.
pub open spec fn window_chosen(lines: Seq<LineEntry>, low: int, high: int) -> bool {
    if exists|a: int, b: int| spans_all(lines, a, b) && b - a <= MAXIMUM_LINE_RANGE {
        spans_all(lines, low, high)
    } else {
        best_window(lines, low, high)
    }
}

/// The least and the greatest line delta that special opcodes cover.
pub open spec fn delta_range(lines: Seq<LineEntry>) -> (i64, i64) {
    if lines.len() <= 1 {
        (0, 0)
    } else {
        let (low, high) = choose|low: int, high: int| window_chosen(lines, low, high);
        widened(low, high)
    }
}

/// A range of one small positive delta is widened to start at zero.
pub open spec fn widened(low: int, high: int) -> (i64, i64) {
    if low == high && 0 < low < MAXIMUM_LINE_RANGE {
        (0, high as i64)
    } else {
        (low as i64, high as i64)
    }
}

/// Hits of two adjacent ranges add up.
proof fn lemma_hits_split(lines: Seq<LineEntry>, n: nat, low: int, middle: int, high: int)
    requires
        low - 1 <= middle <= high,
    ensures
        hits(lines, n, low, high) == hits(lines, n, low, middle) + hits(
            lines,
            n,
            middle + 1,
            high,
        ),
    decreases n,
{
    if n > 1 {
        lemma_hits_split(lines, (n - 1) as nat, low, middle, high);
    }
}

proof fn lemma_hits_bound(lines: Seq<LineEntry>, n: nat, low: int, high: int)
    ensures
        hits(lines, n, low, high) <= n,
        n >= 1 ==> hits(lines, n, low, high) < n,
        low > high ==> hits(lines, n, low, high) == 0,
    decreases n,
{
    if n > 1 {
        lemma_hits_bound(lines, (n - 1) as nat, low, high);
    }
}

/// A delta that was counted stands between two rows.
proof fn lemma_hits_witness(lines: Seq<LineEntry>, n: nat, low: int, high: int) -> (i: int)
    requires
        hits(lines, n, low, high) > 0,
    ensures
        1 <= i < n,
        low <= line_delta(lines, i) <= high,
    decreases n,
{
    if low <= line_delta(lines, n - 1) <= high {
        n - 1
    } else {
        lemma_hits_witness(lines, (n - 1) as nat, low, high)
    }
}

proof fn lemma_hits_counts(lines: Seq<LineEntry>, n: nat, i: int, low: int, high: int)
    requires
        1 <= i < n,
        low <= line_delta(lines, i) <= high,
    ensures
        hits(lines, n, low, high) > 0,
    decreases n,
{
    if i < n - 1 {
        lemma_hits_counts(lines, (n - 1) as nat, i, low, high);
    }
}

/// What occurs lies within the range of line deltas.
proof fn lemma_occurs_bound(lines: Seq<LineEntry>, d: int)
    requires
        occurs(lines, d),
    ensures
        -0xffff_ffff <= d <= 0xffff_ffff,
{
    let i = lemma_hits_witness(lines, lines.len(), d, d);
}

/// A range without a delta in it has no hits.
proof fn lemma_no_hits(lines: Seq<LineEntry>, low: int, high: int)
    requires
        forall|d: int| low <= d <= high ==> !#[trigger] occurs(lines, d),
    ensures
        hits(lines, lines.len(), low, high) == 0,
{
    if hits(lines, lines.len(), low, high) > 0 {
        let i = lemma_hits_witness(lines, lines.len(), low, high);
        let d = line_delta(lines, i);
        lemma_hits_counts(lines, lines.len(), i, d, d);
        assert(occurs(lines, d));
    }
}

proof fn lemma_span_exists(lines: Seq<LineEntry>, n: nat) -> (span: (int, int))
    requires
        2 <= n <= lines.len(),
    ensures
        occurs(lines, span.0),
        occurs(lines, span.1),
        forall|i: int| 1 <= i < n ==> span.0 <= #[trigger] line_delta(lines, i) <= span.1,
    decreases n,
{
    let d = line_delta(lines, n - 1);
    lemma_hits_counts(lines, lines.len(), n - 1, d, d);
    if n == 2 {
        (d, d)
    } else {
        let (a, b) = lemma_span_exists(lines, (n - 1) as nat);
        (
            if d < a {
                d
            } else {
                a
            },
            if d > b {
                d
            } else {
                b
            },
        )
    }
}

proof fn lemma_spans_all_exists(lines: Seq<LineEntry>) -> (span: (int, int))
    requires
        lines.len() >= 2,
    ensures
        spans_all(lines, span.0, span.1),
{
    let (low, high) = lemma_span_exists(lines, lines.len());
    assert forall|d: int| #[trigger] occurs(lines, d) implies low <= d <= high by {
        let i = lemma_hits_witness(lines, lines.len(), d, d);
    }
    (low, high)
}

/// Of the deltas from `first` to `last`, the first whose window holds the most.
proof fn lemma_best_start_exists(lines: Seq<LineEntry>, first: int, last: int) -> (low: int)
    requires
        occurs(lines, first),
        first <= last,
    ensures
        occurs(lines, low),
        first <= low <= last,
        forall|d: int| #[trigger]
            occurs(lines, d) && first <= d <= last ==> window_hits(lines, d) <= window_hits(
                lines,
                low,
            ),
        forall|d: int| #[trigger]
            occurs(lines, d) && first <= d < low ==> window_hits(lines, d) < window_hits(
                lines,
                low,
            ),
    decreases last - first,
{
    if first == last {
        first
    } else {
        let low = lemma_best_start_exists(lines, first, last - 1);
        if occurs(lines, last) && window_hits(lines, last) > window_hits(lines, low) {
            last
        } else {
            low
        }
    }
}

/// The greatest delta from `low` to `last`.
proof fn lemma_greatest_exists(lines: Seq<LineEntry>, low: int, last: int) -> (high: int)
    requires
        occurs(lines, low),
        low <= last,
    ensures
        occurs(lines, high),
        low <= high <= last,
        forall|d: int| #[trigger] occurs(lines, d) && d <= last ==> d <= high,
    decreases last - low,
{
    if occurs(lines, last) || low == last {
        last
    } else {
        lemma_greatest_exists(lines, low, last - 1)
    }
}

proof fn lemma_window_exists(lines: Seq<LineEntry>) -> (window: (int, int))
    requires
        lines.len() >= 2,
    ensures
        window_chosen(lines, window.0, window.1),
{
    let (a, b) = lemma_spans_all_exists(lines);
    if exists|a: int, b: int| spans_all(lines, a, b) && b - a <= MAXIMUM_LINE_RANGE {
        (a, b)
    } else {
        let low = lemma_best_start_exists(lines, a, b);
        let high = lemma_greatest_exists(lines, low, low + MAXIMUM_LINE_RANGE);
        (low, high)
    }
}

/// One window at most is the chosen one.
proof fn lemma_window_unique(lines: Seq<LineEntry>, a: int, b: int, c: int, d: int)
    requires
        window_chosen(lines, a, b),
        window_chosen(lines, c, d),
    ensures
        a == c && b == d,
{
    assert(occurs(lines, a) && occurs(lines, b) && occurs(lines, c) && occurs(lines, d));
}

/// The range that special opcodes cover is small and in order.
proof fn lemma_delta_range(lines: Seq<LineEntry>)
    ensures
        -0xffff_ffff <= delta_range(lines).0 <= delta_range(lines).1 <= 0xffff_ffff,
{
    if lines.len() >= 2 {
        let (a, b) = lemma_window_exists(lines);
        let (low, high) = choose|low: int, high: int| window_chosen(lines, low, high);
        assert(window_chosen(lines, low, high));
        lemma_occurs_bound(lines, low);
        lemma_occurs_bound(lines, high);
    }
}

/// The special opcode for a row, if one covers its deltas.
pub open spec fn special_opcode(
    minimum: i64,
    maximum: i64,
    line_delta: int,
    address_delta: int,
) -> Option<u8> {
    let opcode = FIRST_SPECIAL + (line_delta - minimum) + address_delta * (maximum - minimum + 1);
    if minimum <= line_delta <= maximum && opcode <= 255 {
        Some(opcode as u8)
    } else {
        None
    }
}

/// The opcodes that turn `previous` into `current` and emit it.
pub open spec fn row_bytes(
    previous: LineEntry,
    current: LineEntry,
    minimum: i64,
    maximum: i64,
) -> Seq<u8> {
    file_bytes(previous, current) + move_bytes(
        current.line - previous.line,
        current.address - previous.address,
        minimum,
        maximum,
    )
}

/// The opcode that changes the file, where it changes.
pub open spec fn file_bytes(previous: LineEntry, current: LineEntry) -> Seq<u8> {
    if current.file == previous.file {
        Seq::empty()
    } else {
        seq![SET_FILE] + leb::uleb_bytes(current.file.0 as nat)
    }
}

/// The opcodes that move line and address and emit a row.
pub open spec fn move_bytes(line_delta: int, address_delta: int, minimum: i64, maximum: i64) -> Seq<
    u8,
> {
    match special_opcode(minimum, maximum, line_delta, address_delta) {
        Some(opcode) => seq![opcode],
        None => line_bytes(line_delta) + (seq![ADVANCE_PC] + leb::uleb_bytes(
            address_delta as nat,
        )),
    }
}

/// The opcode that moves the line, where it moves.
pub open spec fn line_bytes(line_delta: int) -> Seq<u8> {
    if line_delta == 0 {
        Seq::empty()
    } else {
        seq![ADVANCE_LINE] + leb::sleb_bytes(line_delta)
    }
}

/// The opcodes for `lines` from index `i` on, behind the row `previous`.
pub open spec fn rows_bytes(
    lines: Seq<LineEntry>,
    i: int,
    previous: LineEntry,
    base: u64,
    minimum: i64,
    maximum: i64,
) -> Result<Seq<u8>, Error>
    decreases lines.len() - i,
{
    if i >= lines.len() {
        Ok(seq![END_SEQUENCE])
    } else if lines[i].address < base {
        Err(Error::InvalidModel("line address precedes the function start"))
    } else if lines[i].address < previous.address {
        Err(Error::InvalidModel("line-table addresses are not monotonically increasing"))
    } else {
        match rows_bytes(lines, i + 1, lines[i], base, minimum, maximum) {
            Err(error) => Err(error),
            Ok(rest) => Ok(row_bytes(previous, lines[i], minimum, maximum) + rest),
        }
    }
}

/// The parameters at the start of an encoded line table.
pub open spec fn header_bytes(minimum: i64, maximum: i64, line: u32) -> Seq<u8> {
    leb::sleb_bytes(minimum as int) + leb::sleb_bytes(
        maximum as int,
    ) + leb::uleb_bytes(line as nat)
}

/// The row that an encoded program starts from.
pub open spec fn first_row(lines: Seq<LineEntry>, base: u64) -> LineEntry {
    LineEntry { address: base, file: FileIndex(1), line: lines[0].line }
}

/// The encoded line table of `lines` for a function that starts at `base`.
#[verifier::opaque]
pub open spec fn encoded(lines: Seq<LineEntry>, base: u64) -> Result<Seq<u8>, Error> {
    if lines.len() == 0 {
        Err(Error::InvalidModel("line table must not be empty"))
    } else {
        let (minimum, maximum) = delta_range(lines);
        match rows_bytes(lines, 0, first_row(lines, base), base, minimum, maximum) {
            Err(error) => Err(error),
            Ok(rest) => Ok(header_bytes(minimum, maximum, lines[0].line) + rest),
        }
    }
}

proof fn lemma_special_round_trip(header: LineHeader, maximum: i64, row: LineEntry, next: LineEntry)
    requires
        header.minimum_delta <= maximum,
        header.line_range == maximum - header.minimum_delta + 1,
        row.file == next.file,
        row.address <= next.address,
        special_opcode(
            header.minimum_delta,
            maximum,
            next.line - row.line,
            next.address - row.address,
        ) is Some,
    ensures
        ({
            let opcode = special_opcode(
                header.minimum_delta,
                maximum,
                next.line - row.line,
                next.address - row.address,
            )->0;
            &&& opcode >= FIRST_SPECIAL
            &&& special_step(header, row, opcode) == Ok::<LineEntry, Error>(next)
        }),
{
    let range = header.line_range as int;
    let low = next.line - row.line - header.minimum_delta;
    let times = next.address - row.address;
    let adjusted = low + times * range;
    assert(times * range >= 0) by (nonlinear_arith)
        requires
            times >= 0,
            range >= 1,
    ;
    assert(adjusted % range == low && adjusted / range == times) by (nonlinear_arith)
        requires
            adjusted == low + times * range,
            0 <= low < range,
            times >= 0,
    ;
}

/// Executing the opcodes of one row emits the row.
proof fn lemma_row_round_trip(
    s: Seq<u8>,
    pos: int,
    header: LineHeader,
    maximum: i64,
    row: LineEntry,
    next: LineEntry,
)
    requires
        header.minimum_delta <= maximum,
        header.line_range == maximum - header.minimum_delta + 1,
        row.address <= next.address,
        bytes::holds_at(s, pos, row_bytes(row, next, header.minimum_delta, maximum)),
    ensures
        ({
            let end = pos + row_bytes(row, next, header.minimum_delta, maximum).len();
            rows_at(s, pos, header, row) == (match rows_at(s, end, header, next) {
                Ok(rest) => Ok::<Seq<LineEntry>, Error>(seq![next] + rest),
                Err(error) => Err(error),
            })
        }),
{
    let files = file_bytes(row, next);
    let moves = move_bytes(
        next.line - row.line,
        next.address - row.address,
        header.minimum_delta,
        maximum,
    );
    bytes::lemma_holds_at_split(s, pos, files, moves);
    let filed = LineEntry { address: row.address, file: next.file, line: row.line };
    let p1 = pos + files.len();
    assert(rows_at(s, pos, header, row) == rows_at(s, p1, header, filed)) by {
        if next.file != row.file {
            let number = leb::uleb_bytes(next.file.0 as nat);
            bytes::lemma_holds_at_split(s, pos, seq![SET_FILE], number);
            bytes::lemma_holds_at_index(s, pos, seq![SET_FILE], 0);
            leb::law_uleb_round_trip(s, pos + 1, next.file.0 as u64);
        }
    }
    match special_opcode(
        header.minimum_delta,
        maximum,
        next.line - row.line,
        next.address - row.address,
    ) {
        Some(opcode) => {
            bytes::lemma_holds_at_index(s, p1, moves, 0);
            lemma_special_round_trip(header, maximum, filed, next);
        },
        None => {
            let lines = line_bytes(next.line - row.line);
            let number = leb::uleb_bytes((next.address - row.address) as nat);
            bytes::lemma_holds_at_split(s, p1, lines, seq![ADVANCE_PC] + number);
            let p2 = p1 + lines.len();
            let moved = LineEntry { address: row.address, file: next.file, line: next.line };
            assert(rows_at(s, p1, header, filed) == rows_at(s, p2, header, moved)) by {
                if next.line != row.line {
                    let delta = leb::sleb_bytes(next.line - row.line);
                    bytes::lemma_holds_at_split(s, p1, seq![ADVANCE_LINE], delta);
                    bytes::lemma_holds_at_index(s, p1, seq![ADVANCE_LINE], 0);
                    leb::law_sleb_round_trip(
                        s,
                        p1 + 1,
                        (next.line - row.line) as i64,
                    );
                }
            }
            bytes::lemma_holds_at_split(s, p2, seq![ADVANCE_PC], number);
            bytes::lemma_holds_at_index(s, p2, seq![ADVANCE_PC], 0);
            leb::law_uleb_round_trip(
                s,
                p2 + 1,
                (next.address - row.address) as u64,
            );
        },
    }
}

proof fn lemma_rows_round_trip(
    s: Seq<u8>,
    pos: int,
    header: LineHeader,
    maximum: i64,
    lines: Seq<LineEntry>,
    i: int,
    row: LineEntry,
    base: u64,
)
    requires
        0 <= i <= lines.len(),
        header.minimum_delta <= maximum,
        header.line_range == maximum - header.minimum_delta + 1,
        rows_bytes(lines, i, row, base, header.minimum_delta, maximum) is Ok,
        bytes::holds_at(
            s,
            pos,
            rows_bytes(lines, i, row, base, header.minimum_delta, maximum)->Ok_0,
        ),
    ensures
        rows_at(s, pos, header, row) == Ok::<Seq<LineEntry>, Error>(
            lines.subrange(i, lines.len() as int),
        ),
    decreases lines.len() - i,
{
    if i == lines.len() {
        bytes::lemma_holds_at_index(s, pos, seq![END_SEQUENCE], 0);
        assert(lines.subrange(i, lines.len() as int) =~= Seq::<LineEntry>::empty());
    } else {
        let part = row_bytes(row, lines[i], header.minimum_delta, maximum);
        let rest = rows_bytes(lines, i + 1, lines[i], base, header.minimum_delta, maximum)->Ok_0;
        bytes::lemma_holds_at_split(s, pos, part, rest);
        lemma_row_round_trip(s, pos, header, maximum, row, lines[i]);
        lemma_rows_round_trip(
            s,
            pos + part.len(),
            header,
            maximum,
            lines,
            i + 1,
            lines[i],
            base,
        );
        assert(lines.subrange(i, lines.len() as int) =~= seq![lines[i]] + lines.subrange(
            i + 1,
            lines.len() as int,
        ));
    }
}

/// Decoding an encoded line table gives back its rows.
pub proof fn law_line_table_round_trip(lines: Seq<LineEntry>, base: u64)
    requires
        encoded(lines, base) is Ok,
    ensures
        decoded(encoded(lines, base)->Ok_0, base) == Ok::<Seq<LineEntry>, Error>(lines),
{
    reveal(encoded);
    reveal(decoded);
    let s = encoded(lines, base)->Ok_0;
    let (minimum, maximum) = delta_range(lines);
    lemma_delta_range(lines);
    let rest = rows_bytes(lines, 0, first_row(lines, base), base, minimum, maximum)->Ok_0;
    let b1 = leb::sleb_bytes(minimum as int);
    let b2 = leb::sleb_bytes(maximum as int);
    let b3 = leb::uleb_bytes(lines[0].line as nat);
    assert(bytes::holds_at(s, 0, b1 + b2 + b3 + rest)) by {
        assert(s.subrange(0, s.len() as int) =~= s);
    }
    bytes::lemma_holds_at_split(s, 0, b1 + b2 + b3, rest);
    bytes::lemma_holds_at_split(s, 0, b1 + b2, b3);
    bytes::lemma_holds_at_split(s, 0, b1, b2);
    leb::law_sleb_round_trip(s, 0, minimum);
    leb::law_sleb_round_trip(s, b1.len() as int, maximum);
    leb::law_uleb_round_trip(s, (b1 + b2).len() as int, lines[0].line as u64);
    let header = LineHeader {
        minimum_delta: minimum,
        line_range: (maximum - minimum + 1) as u64,
        row: first_row(lines, base),
    };
    lemma_rows_round_trip(
        s,
        (b1 + b2 + b3).len() as int,
        header,
        maximum,
        lines,
        0,
        header.row,
        base,
    );
    assert(lines.subrange(0, lines.len() as int) =~= lines);
}

/// Counts of line deltas in ascending order of the deltas.
spec fn counts_of(counts: Seq<(i64, u32)>, lines: Seq<LineEntry>, n: nat) -> bool {
    &&& forall|i: int, j: int|
        0 <= i < j < counts.len() ==> (#[trigger] counts[i]).0 < (#[trigger] counts[j]).0
    &&& forall|i: int| 0 <= i < counts.len() ==> counted(#[trigger] counts[i], lines, n)
    &&& forall|d: int| #[trigger]
        hits(lines, n, d, d) > 0 ==> exists|i: int| 0 <= i < counts.len() && counts[i].0 == d
}

/// Whether a counter holds how often its delta occurs, as far as it goes.
spec fn counted(entry: (i64, u32), lines: Seq<LineEntry>, n: nat) -> bool {
    let count = hits(lines, n, entry.0 as int, entry.0 as int);
    0 < count && entry.1 == (if count > u32::MAX {
        u32::MAX as nat
    } else {
        count
    })
}

/// Counts one more occurrence of `delta`.
fn count_delta(
    counts: &mut Vec<(i64, u32)>,
    delta: i64,
    lines: &[LineEntry],
    n: usize,
)
    requires
        1 <= n < lines@.len(),
        delta == line_delta(lines@, n as int),
        counts_of(old(counts)@, lines@, n as nat),
    ensures
        counts_of(final(counts)@, lines@, (n + 1) as nat),
{
    let ghost before = counts@;
    let ghost seq = lines@;
    let ghost next = (n + 1) as nat;
    let mut i: usize = 0;
    while i < counts.len() && counts[i].0 < delta
        invariant
            i <= counts@.len(),
            counts@ == before,
            forall|k: int| 0 <= k < i ==> (#[trigger] counts@[k]).0 < delta,
        decreases counts@.len() - i,
    {
        i = i + 1;
    }
    proof {
        assert forall|d: int| d != delta implies hits(seq, next, d, d) == #[trigger] hits(
            seq,
            n as nat,
            d,
            d,
        ) by {}
        assert(hits(seq, next, delta as int, delta as int) == hits(
            seq,
            n as nat,
            delta as int,
            delta as int,
        ) + 1);
    }
    if i < counts.len() && counts[i].0 == delta {
        let hits_before: u32 = counts[i].1;
        let hits_after: u32 = if hits_before < u32::MAX {
            hits_before + 1
        } else {
            hits_before
        };
        counts.set(i, (delta, hits_after));
        proof {
            assert(counted(before[i as int], seq, n as nat));
            assert forall|k: int| 0 <= k < counts@.len() implies counted(
                #[trigger] counts@[k],
                seq,
                next,
            ) by {
                assert(counted(before[k], seq, n as nat));
            }
            assert forall|d: int| #[trigger] hits(seq, next, d, d) > 0 implies exists|k: int|
                0 <= k < counts@.len() && counts@[k].0 == d by {
                if d == delta {
                    assert(counts@[i as int].0 == d);
                } else {
                    let k = choose|k: int| 0 <= k < before.len() && before[k].0 == d;
                    assert(hits(seq, n as nat, d, d) > 0);
                    assert(counts@[k].0 == d);
                }
            }
        }
    } else {
        proof {
            if hits(seq, n as nat, delta as int, delta as int) > 0 {
                let k = choose|k: int| 0 <= k < before.len() && before[k].0 == delta;
                assert(before[k].0 == delta);
                if k < i {
                } else if k > i {
                    assert(before[i as int].0 < before[k].0);
                }
                assert(false);
            }
        }
        counts.insert(i, (delta, 1));
        proof {
            assert forall|k: int| 0 <= k < counts@.len() implies counted(
                #[trigger] counts@[k],
                seq,
                next,
            ) by {
                if k < i {
                    assert(counts@[k] == before[k]);
                    assert(counted(before[k], seq, n as nat));
                } else if k > i {
                    assert(counts@[k] == before[k - 1]);
                    assert(counted(before[k - 1], seq, n as nat));
                    if k - 1 > i {
                        assert(before[i as int].0 < before[k - 1].0);
                    }
                }
            }
            assert forall|a: int, b: int| 0 <= a < b < counts@.len() implies (#[trigger] counts@[a]).0
                < (#[trigger] counts@[b]).0 by {
                if b < i {
                    assert(before[a].0 < before[b].0);
                } else if b == i {
                    assert(before[a].0 < delta);
                } else if a < i {
                    assert(before[a].0 < before[b - 1].0 || a == b - 1);
                } else if a == i {
                    assert(before[i as int].0 <= before[b - 1].0);
                } else {
                    assert(before[a - 1].0 < before[b - 1].0);
                }
            }
            assert forall|d: int| #[trigger] hits(seq, next, d, d) > 0 implies exists|k: int|
                0 <= k < counts@.len() && counts@[k].0 == d by {
                if d == delta {
                    assert(counts@[i as int].0 == d);
                } else {
                    assert(hits(seq, n as nat, d, d) > 0);
                    let k = choose|k: int| 0 <= k < before.len() && before[k].0 == d;
                    if k < i {
                        assert(counts@[k].0 == d);
                    } else {
                        assert(counts@[k + 1].0 == d);
                    }
                }
            }
        }
    }
}

spec fn capped(count: nat) -> nat {
    if count > u32::MAX {
        u32::MAX as nat
    } else {
        count
    }
}

/// Sums the counters of the window that starts with counter `start`.
fn window_sum(counts: &Vec<(i64, u32)>, start: usize, Ghost(lines): Ghost<Seq<LineEntry>>) -> (sum: (
    u32,
    i64,
))
    requires
        start < counts@.len(),
        counts_of(counts@, lines, lines.len()),
    ensures
        sum.0 == window_hits(lines, counts@[start as int].0 as int),
        occurs(lines, sum.1 as int),
        counts@[start as int].0 <= sum.1 <= counts@[start as int].0 + MAXIMUM_LINE_RANGE,
        forall|d: int| #[trigger]
            occurs(lines, d) && d <= counts@[start as int].0 + MAXIMUM_LINE_RANGE ==> d <= sum.1,
{
    let first: i64 = counts[start].0;
    let mut last: i64 = first;
    let mut count: u32 = counts[start].1;
    let len: usize = counts.len();
    let mut i: usize = start + 1;
    let ghost n = lines.len();
    proof {
        assert(counted(counts@[start as int], lines, n));
        assert forall|k: int| 0 <= k < counts@.len() implies -0xffff_ffff <= (
        #[trigger] counts@[k]).0 <= 0xffff_ffff by {
            assert(counted(counts@[k], lines, n));
            lemma_occurs_bound(lines, counts@[k].0 as int);
        }
    }
    while i < len && counts[i].0 - first <= MAXIMUM_LINE_RANGE
        invariant
            len == counts@.len(),
            start < i <= counts@.len(),
            counts_of(counts@, lines, n),
            n == lines.len(),
            first == counts@[start as int].0,
            last == counts@[i - 1].0,
            first <= last <= first + MAXIMUM_LINE_RANGE,
            -0xffff_ffff <= first <= 0xffff_ffff,
            forall|k: int|
                0 <= k < counts@.len() ==> -0xffff_ffff <= (#[trigger] counts@[k]).0
                    <= 0xffff_ffff,
            count == capped(hits(lines, n, first as int, last as int)),
        decreases counts@.len() - i,
    {
        let ghost previous = last;
        let hit: u32 = counts[i].1;
        count =
        if count > u32::MAX - hit {
            u32::MAX
        } else {
            count + hit
        };
        last = counts[i].0;
        proof {
            assert(counts@[i - 1].0 < counts@[i as int].0);
            assert(counted(counts@[i as int], lines, n));
            lemma_hits_split(lines, n, first as int, previous as int, last as int);
            lemma_hits_split(lines, n, previous + 1, last - 1, last as int);
            assert forall|d: int| previous < d < last implies !#[trigger] occurs(lines, d) by {
                if occurs(lines, d) {
                    let k = choose|k: int| 0 <= k < counts@.len() && counts@[k].0 == d;
                    assert(counts@[k].0 == d);
                    assert(k <= i - 1 || k >= i);
                    if k < i - 1 {
                        assert(counts@[k].0 < counts@[i - 1].0);
                    }
                    if k > i {
                        assert(counts@[i as int].0 < counts@[k].0);
                    }
                }
            }
            lemma_no_hits(lines, previous + 1, last - 1);
        }
        i = i + 1;
    }
    proof {
        let high = first + MAXIMUM_LINE_RANGE;
        assert(counted(counts@[i - 1], lines, n));
        assert(occurs(lines, last as int));
        assert forall|d: int| #[trigger] occurs(lines, d) && d <= high implies d <= last by {
            let k = choose|k: int| 0 <= k < counts@.len() && counts@[k].0 == d;
            assert(counts@[k].0 == d);
            if k >= i {
                if k > i {
                    assert(counts@[i as int].0 < counts@[k].0);
                }
                assert(counts@[i as int].0 > high);
            } else if k < i - 1 {
                assert(counts@[k].0 < counts@[i - 1].0);
            }
        }
        lemma_hits_split(lines, n, first as int, last as int, high);
        lemma_no_hits(lines, last + 1, high);
    }
    (count, last)
}

/// Chooses the line deltas that special opcodes cover.
fn choose_delta_range(lines: &[LineEntry]) -> (range: (i64, i64))
    ensures
        range == delta_range(lines@),
{
    if lines.len() <= 1 {
        return (0, 0);
    }
    let mut counts: Vec<(i64, u32)> = Vec::new();
    let mut n: usize = 1;
    proof {
        assert(forall|d: int| hits(lines@, 1, d, d) == 0);
    }
    while n < lines.len()
        invariant
            1 <= n <= lines@.len(),
            counts_of(counts@, lines@, n as nat),
        decreases lines@.len() - n,
    {
        let delta: i64 = lines[n].line as i64 - lines[n - 1].line as i64;
        count_delta(&mut counts, delta, lines, n);
        n = n + 1;
    }
    let ghost seq = lines@;
    proof {
        let (a, b) = lemma_spans_all_exists(seq);
        assert(exists|i: int| 0 <= i < counts@.len() && counts@[i].0 == a);
        assert forall|k: int| 0 <= k < counts@.len() implies occurs(
            seq,
            (#[trigger] counts@[k]).0 as int,
        ) && -0xffff_ffff <= counts@[k].0 <= 0xffff_ffff by {
            assert(counted(counts@[k], seq, seq.len()));
            lemma_occurs_bound(seq, counts@[k].0 as int);
        }
    }
    let mut minimum: i64 = counts[0].0;
    let mut maximum: i64 = counts[counts.len() - 1].0;
    proof {
        assert(spans_all(seq, minimum as int, maximum as int)) by {
            assert(counts@[0].0 == minimum && counts@[counts@.len() - 1].0 == maximum);
            assert forall|d: int| #[trigger] occurs(seq, d) implies minimum <= d <= maximum by {
                let k = choose|k: int| 0 <= k < counts@.len() && counts@[k].0 == d;
                assert(counts@[k].0 == d);
                if k > 0 {
                    assert(counts@[0].0 < counts@[k].0);
                }
                if k < counts@.len() - 1 {
                    assert(counts@[k].0 < counts@[counts@.len() - 1].0);
                }
            }
        }
    }
    if maximum - minimum > MAXIMUM_LINE_RANGE {
        let ghost (low, high) = (minimum as int, maximum as int);
        let (first_count, first_last) = window_sum(&counts, 0, Ghost(seq));
        let mut best_count: u32 = first_count;
        let mut best: (i64, i64) = (minimum, first_last);
        let mut start: usize = 1;
        while start < counts.len()
            invariant
                1 <= start <= counts@.len(),
                seq == lines@,
                counts_of(counts@, seq, seq.len()),
                low == counts@[0].0,
                best_count == window_hits(seq, best.0 as int),
                occurs(seq, best.0 as int),
                occurs(seq, best.1 as int),
                best.0 <= best.1 <= best.0 + MAXIMUM_LINE_RANGE,
                exists|b: int| 0 <= b < start && (#[trigger] counts@[b]).0 == best.0,
                forall|d: int| #[trigger]
                    occurs(seq, d) && d <= best.0 + MAXIMUM_LINE_RANGE ==> d <= best.1,
                forall|k: int|
                    0 <= k < start ==> window_hits(seq, (#[trigger] counts@[k]).0 as int)
                        <= best_count,
                forall|k: int|
                    0 <= k < start && (#[trigger] counts@[k]).0 < best.0 ==> window_hits(
                        seq,
                        counts@[k].0 as int,
                    ) < best_count,
            decreases counts@.len() - start,
        {
            let (count, last) = window_sum(&counts, start, Ghost(seq));
            proof {
                assert(counted(counts@[start as int], seq, seq.len()));
                let b = choose|b: int| 0 <= b < start && (#[trigger] counts@[b]).0 == best.0;
                assert(counts@[b].0 < counts@[start as int].0);
            }
            if count > best_count {
                best_count = count;
                best = (counts[start].0, last);
            }
            start = start + 1;
        }
        minimum = best.0;
        maximum = best.1;
        proof {
            assert forall|d: int| #[trigger] occurs(seq, d) implies window_hits(seq, d)
                <= window_hits(seq, minimum as int) && (d < minimum ==> window_hits(seq, d)
                < window_hits(seq, minimum as int)) by {
                let k = choose|k: int| 0 <= k < counts@.len() && counts@[k].0 == d;
                assert(counts@[k].0 == d);
            }
            assert(best_window(seq, minimum as int, maximum as int));
            assert forall|a: int, b: int| spans_all(seq, a, b) implies b - a
                > MAXIMUM_LINE_RANGE by {
                assert(occurs(seq, low) && occurs(seq, high));
            }
            assert(window_chosen(seq, minimum as int, maximum as int));
        }
    }
    proof {
        assert(window_chosen(seq, minimum as int, maximum as int));
        let (low, high) = choose|low: int, high: int| window_chosen(seq, low, high);
        lemma_window_unique(seq, low, high, minimum as int, maximum as int);
    }
    if minimum == maximum && minimum > 0 && minimum < MAXIMUM_LINE_RANGE {
        minimum = 0;
    }
    (minimum, maximum)
}

/// The special opcode for a row, if one covers its deltas.
fn encode_special(minimum_delta: i64, maximum_delta: i64, line_delta: i64, address_delta: u64) -> (
opcode: Option<u8>)
    requires
        -0xffff_ffff <= minimum_delta <= maximum_delta <= 0xffff_ffff,
        -0xffff_ffff <= line_delta <= 0xffff_ffff,
    ensures
        opcode == special_opcode(
            minimum_delta,
            maximum_delta,
            line_delta as int,
            address_delta as int,
        ),
{
    if line_delta < minimum_delta || line_delta > maximum_delta {
        return None;
    }
    let line_range: i64 = maximum_delta - minimum_delta + 1;
    proof {
        assert(address_delta as int * line_range as int >= address_delta) by (nonlinear_arith)
            requires
                line_range >= 1,
                address_delta >= 0,
        ;
    }
    if address_delta > 255 {
        return None;
    }
    proof {
        assert(address_delta as int * line_range as int <= 255 * line_range) by (nonlinear_arith)
            requires
                address_delta <= 255,
                line_range >= 1,
        ;
    }
    let opcode: i64 = FIRST_SPECIAL as i64 + (line_delta - minimum_delta) + address_delta as i64
        * line_range;
    if opcode <= 255 {
        Some(opcode as u8)
    } else {
        None
    }
}

/// Writes the opcodes that turn `previous` into `current` and emit it.
fn write_row(
    output: &mut Encoder,
    previous: LineEntry,
    current: LineEntry,
    minimum_delta: i64,
    maximum_delta: i64,
)
    requires
        -0xffff_ffff <= minimum_delta <= maximum_delta <= 0xffff_ffff,
        previous.address <= current.address,
    ensures
        Encoder::appends(
            *old(output),
            *final(output),
            row_bytes(previous, current, minimum_delta, maximum_delta),
        ),
{
    let address_delta: u64 = current.address - previous.address;
    let line_delta: i64 = current.line as i64 - previous.line as i64;
    let ghost start = output.bytes@;
    if current.file != previous.file {
        output.write_u8(SET_FILE);
        write_uleb(output, current.file.get() as u64);
    }
    assert(output.bytes@ =~= start + file_bytes(previous, current));
    let ghost filed = output.bytes@;
    match encode_special(minimum_delta, maximum_delta, line_delta, address_delta) {
        Some(special) => {
            output.write_u8(special);
        },
        None => {
            if line_delta != 0 {
                output.write_u8(ADVANCE_LINE);
                write_sleb(output, line_delta);
            }
            assert(output.bytes@ =~= filed + line_bytes(line_delta as int));
            output.write_u8(ADVANCE_PC);
            write_uleb(output, address_delta);
            assert(output.bytes@ =~= filed + (line_bytes(line_delta as int) + (seq![ADVANCE_PC]
                + leb::uleb_bytes(address_delta as nat))));
        },
    }
    assert(output.bytes@ =~= start + row_bytes(previous, current, minimum_delta, maximum_delta));
}

/// Appends the encoded line table of `lines`.
pub fn encode_into(lines: &[LineEntry], output: &mut Encoder, base: u64) -> (result: Result<
    (),
    Error,
>)
    ensures
        match encoded(lines@, base) {
            Ok(bytes) => result == Ok::<(), Error>(()) && Encoder::appends(
                *old(output),
                *final(output),
                bytes,
            ),
            Err(error) => result == Err::<(), Error>(error) && Encoder::extends(
                *old(output),
                *final(output),
            ),
        },
{
    proof {
        reveal(encoded);
    }
    if lines.len() == 0 {
        return Err(Error::InvalidModel("line table must not be empty"));
    }
    let (minimum_delta, maximum_delta) = choose_delta_range(lines);
    proof {
        lemma_delta_range(lines@);
    }
    let ghost start = output.bytes@;
    write_sleb(output, minimum_delta);
    write_sleb(output, maximum_delta);
    write_uleb(output, lines[0].line as u64);
    let ghost header = header_bytes(minimum_delta, maximum_delta, lines@[0].line);
    assert(output.bytes@ =~= start + header);
    let mut previous = LineEntry { address: base, file: FileIndex(1), line: lines[0].line };
    let mut i: usize = 0;
    let ghost mut written: Seq<u8> = header;
    while i < lines.len()
        invariant
            i <= lines@.len(),
            lines@.len() > 0,
            output.endian == old(output).endian,
            start == old(output).bytes@,
            output.bytes@ == start + written,
            -0xffff_ffff <= minimum_delta <= maximum_delta <= 0xffff_ffff,
            (minimum_delta, maximum_delta) == delta_range(lines@),
            encoded(lines@, base) == (match rows_bytes(
                lines@,
                i as int,
                previous,
                base,
                minimum_delta,
                maximum_delta,
            ) {
                Ok(rest) => Ok::<Seq<u8>, Error>(written + rest),
                Err(error) => Err(error),
            }),
        decreases lines@.len() - i,
    {
        let current: LineEntry = lines[i];
        if current.address < base {
            return Err(Error::InvalidModel("line address precedes the function start"));
        }
        if current.address < previous.address {
            return Err(
                Error::InvalidModel("line-table addresses are not monotonically increasing"),
            );
        }
        write_row(output, previous, current, minimum_delta, maximum_delta);
        proof {
            let part = row_bytes(previous, current, minimum_delta, maximum_delta);
            let before = written;
            written = written + part;
            assert(output.bytes@ =~= start + written);
            if let Ok(rest) = rows_bytes(
                lines@,
                i + 1,
                current,
                base,
                minimum_delta,
                maximum_delta,
            ) {
                assert(before + (part + rest) =~= written + rest);
            }
        }
        previous = current;
        i = i + 1;
    }
    output.write_u8(END_SEQUENCE);
    assert(output.bytes@ =~= start + (written + seq![END_SEQUENCE]));
    Ok(())
}

/// The encoded line table of `lines`.
pub fn encode(lines: &[LineEntry], endian: Endian, base: u64) -> (result: Result<Vec<u8>, Error>)
    ensures
        match encoded(lines@, base) {
            Ok(bytes) => result matches Ok(table) && table@ == bytes,
            Err(error) => result == Err::<Vec<u8>, Error>(error),
        },
{
    let mut output = Encoder::new(endian);
    encode_into(lines, &mut output, base)?;
    proof {
        if let Ok(bytes) = encoded(lines@, base) {
            assert(output.bytes@ =~= bytes);
        }
    }
    Ok(output.into_inner())
}

} // verus!
