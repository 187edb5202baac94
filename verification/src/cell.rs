//! Typed table cells and their binary codec.
//!
//! A `DecodedData` value is one decoded cell; its mathematical model is
//! `CellV`, where strings are character sequences and nested sub-tables are
//! sequences of rows.  The spec functions `spec_enc_cell` and `sdec_cell`
//! define the binary format once; the executable codec and the round-trip
//! lemmas are both proved against them.
//!
//! Layout, per field type: booleans are one byte (0 or 1); integers are
//! little-endian two's complement at their width; floats are the four bytes
//! of their bit pattern; narrow strings are a `u16` byte-count followed by
//! UTF-8 bytes; wide strings are a `u16` unit-count followed by UTF-16 code
//! units, each little-endian; optional strings carry a one-byte presence
//! flag, the absent form standing for the empty string (a present empty
//! string is rejected as non-canonical, so that encoding is injective);
//! sequences are a `u16` or `u32` row count followed by the rows of the
//! nested table, each row the concatenation of its cells in field order.

use crate::cursor::i16_of_u16;
use crate::cursor::i32_of_u32;
use crate::cursor::i64_of_u64;
use crate::cursor::lemma_le_bytes_auto;
use crate::cursor::read_u16;
use crate::cursor::u16_of_i16;
use crate::cursor::u32_of_i32;
use crate::cursor::u64_of_i64;
use crate::cursor::write_u16;
use crate::cursor::write_u32;
use crate::cursor::write_u64;
use crate::cursor::read_u32;
use crate::cursor::read_u64;
use crate::cursor::spec_i16_of_u16;
use crate::cursor::spec_i32_of_u32;
use crate::cursor::spec_i64_of_u64;
use crate::cursor::spec_u16_of_i16;
use crate::cursor::spec_u32_of_i32;
use crate::cursor::spec_u64_of_i64;
use crate::error::DecodeReason;
use crate::error::RpfmError;
use crate::schema::Definition;
use crate::schema::Field;
use crate::schema::FieldType;
use crate::text::parse_utf16;
use crate::text::parse_utf8;
use crate::text::spec_decode_utf16;
use crate::text::spec_encode_utf16;
use crate::text::valid_utf16;
use vstd::bytes::spec_u16_from_le_bytes;
use vstd::bytes::spec_u16_to_le_bytes;
use vstd::bytes::spec_u32_from_le_bytes;
use vstd::bytes::spec_u32_to_le_bytes;
use vstd::bytes::spec_u64_from_le_bytes;
use vstd::bytes::spec_u64_to_le_bytes;
use vstd::prelude::*;
use vstd::slice::slice_subrange;
use vstd::string::StrSliceExecFns;
use vstd::utf8::decode_utf8;
use vstd::utf8::encode_utf8;
use vstd::utf8::valid_utf8;

verus! {

/// One decoded cell.  A float is carried as its raw bit pattern, so that
/// storage round-trips are byte-exact whatever the value; sequence cells
/// hold the rows of their nested table.
pub enum DecodedData {
    Boolean(bool),
    I16(i16),
    I32(i32),
    I64(i64),
    F32(u32),
    StringU8(String),
    StringU16(String),
    OptionalStringU8(String),
    OptionalStringU16(String),
    SequenceU16(Vec<Vec<DecodedData>>),
    SequenceU32(Vec<Vec<DecodedData>>),
}

/// The mathematical model of one cell.
pub enum CellV {
    Bool(bool),
    I16(i16),
    I32(i32),
    I64(i64),
    F32(u32),
    Str8(Seq<char>),
    Str16(Seq<char>),
    OptStr8(Seq<char>),
    OptStr16(Seq<char>),
    Seq16(Seq<Seq<CellV>>),
    Seq32(Seq<Seq<CellV>>),
}

/// Model of a row: the models of its cells, in order.
pub open spec fn cells_view(cells: Seq<DecodedData>) -> Seq<CellV>
    decreases cells,
{
    if cells.len() == 0 {
        seq![]
    } else {
        cells_view(cells.drop_last()).push(cell_view(cells.last()))
    }
}

/// Model of a row list.
pub open spec fn rows_view(rows: Seq<Vec<DecodedData>>) -> Seq<Seq<CellV>>
    decreases rows,
{
    if rows.len() == 0 {
        seq![]
    } else {
        rows_view(rows.drop_last()).push(cells_view(rows.last()@))
    }
}

/// Model of one cell.
pub open spec fn cell_view(c: DecodedData) -> CellV
    decreases c,
{
    match c {
        DecodedData::Boolean(b) => CellV::Bool(b),
        DecodedData::I16(x) => CellV::I16(x),
        DecodedData::I32(x) => CellV::I32(x),
        DecodedData::I64(x) => CellV::I64(x),
        DecodedData::F32(bits) => CellV::F32(bits),
        DecodedData::StringU8(s) => CellV::Str8(s@),
        DecodedData::StringU16(s) => CellV::Str16(s@),
        DecodedData::OptionalStringU8(s) => CellV::OptStr8(s@),
        DecodedData::OptionalStringU16(s) => CellV::OptStr16(s@),
        DecodedData::SequenceU16(rows) => CellV::Seq16(rows_view(rows@)),
        DecodedData::SequenceU32(rows) => CellV::Seq32(rows_view(rows@)),
    }
}

/// The view of a pushed row extends the view of the rows.
pub proof fn lemma_cells_view_push(cells: Seq<DecodedData>, c: DecodedData)
    ensures
        cells_view(cells.push(c)) == cells_view(cells).push(cell_view(c)),
{
    assert(cells.push(c).drop_last() =~= cells);
    assert(cells.push(c).last() == c);
}

/// The view of a pushed row list extends the view of the list.
pub proof fn lemma_rows_view_push(rows: Seq<Vec<DecodedData>>, r: Vec<DecodedData>)
    ensures
        rows_view(rows.push(r)) == rows_view(rows).push(cells_view(r@)),
{
    assert(rows.push(r).drop_last() =~= rows);
    assert(rows.push(r).last() == r);
}

/// The view of a row has the row's length, cell by cell.
pub proof fn lemma_cells_view_len(cells: Seq<DecodedData>)
    ensures
        cells_view(cells).len() == cells.len(),
        forall|i: int|
            0 <= i < cells.len() ==> cells_view(cells)[i] == cell_view(#[trigger] cells[i]),
    decreases cells,
{
    if cells.len() > 0 {
        lemma_cells_view_len(cells.drop_last());
        assert(forall|i: int| 0 <= i < cells.len() - 1 ==> cells.drop_last()[i] == cells[i]);
    }
}

/// The view of a row list has the list's length, row by row.
pub proof fn lemma_rows_view_len(rows: Seq<Vec<DecodedData>>)
    ensures
        rows_view(rows).len() == rows.len(),
        forall|i: int|
            0 <= i < rows.len() ==> rows_view(rows)[i] == cells_view((#[trigger] rows[i])@),
    decreases rows,
{
    if rows.len() > 0 {
        lemma_rows_view_len(rows.drop_last());
        assert(forall|i: int| 0 <= i < rows.len() - 1 ==> rows.drop_last()[i] == rows[i]);
    }
}

/// True when a cell carries the shape its field type declares, recursively.
pub open spec fn cell_wf(v: CellV, ft: FieldType) -> bool
    decreases v,
{
    match (v, ft) {
        (CellV::Bool(_), FieldType::Boolean) => true,
        (CellV::I16(_), FieldType::I16) => true,
        (CellV::I32(_), FieldType::I32) => true,
        (CellV::I64(_), FieldType::I64) => true,
        (CellV::F32(_), FieldType::F32) => true,
        (CellV::Str8(_), FieldType::StringU8) => true,
        (CellV::Str16(_), FieldType::StringU16) => true,
        (CellV::OptStr8(_), FieldType::OptionalStringU8) => true,
        (CellV::OptStr16(_), FieldType::OptionalStringU16) => true,
        (CellV::Seq16(rows), FieldType::SequenceU16(d)) => rows_wf(rows, d.fields@),
        (CellV::Seq32(rows), FieldType::SequenceU32(d)) => rows_wf(rows, d.fields@),
        _ => false,
    }
}

/// True when every row matches the field list.
pub open spec fn rows_wf(rows: Seq<Seq<CellV>>, fields: Seq<Field>) -> bool
    decreases rows,
{
    forall|i: int| 0 <= i < rows.len() ==> row_wf(#[trigger] rows[i], fields)
}

/// True when a row has one cell per field, each of the declared shape.
pub open spec fn row_wf(row: Seq<CellV>, fields: Seq<Field>) -> bool
    decreases row,
{
    &&& row.len() == fields.len()
    &&& forall|j: int| 0 <= j < row.len() ==> cell_wf(#[trigger] row[j], fields[j].field_type)
}

/// True when every variable-length part of the cell fits its length prefix.
pub open spec fn cell_len_ok(v: CellV) -> bool
    decreases v,
{
    match v {
        CellV::Str8(s) => encode_utf8(s).len() <= 0xFFFF,
        CellV::Str16(s) => spec_encode_utf16(s).len() <= 0xFFFF,
        CellV::OptStr8(s) => encode_utf8(s).len() <= 0xFFFF,
        CellV::OptStr16(s) => spec_encode_utf16(s).len() <= 0xFFFF,
        CellV::Seq16(rows) => rows.len() <= 0xFFFF && rows_len_ok(rows),
        CellV::Seq32(rows) => rows.len() <= 0xFFFFFFFF && rows_len_ok(rows),
        _ => true,
    }
}

/// True when every cell of every row fits its length prefixes.
pub open spec fn rows_len_ok(rows: Seq<Seq<CellV>>) -> bool
    decreases rows,
{
    forall|i: int| 0 <= i < rows.len() ==> row_len_ok(#[trigger] rows[i])
}

/// True when every cell of the row fits its length prefixes.
pub open spec fn row_len_ok(row: Seq<CellV>) -> bool
    decreases row,
{
    forall|j: int| 0 <= j < row.len() ==> cell_len_ok(#[trigger] row[j])
}

/// The little-endian bytes of a code-unit sequence.
pub open spec fn units_to_bytes(units: Seq<u16>) -> Seq<u8>
    decreases units,
{
    if units.len() == 0 {
        seq![]
    } else {
        spec_u16_to_le_bytes(units[0]) + units_to_bytes(units.drop_first())
    }
}

/// The code units held by an even-length little-endian byte sequence.
pub open spec fn bytes_to_units(s: Seq<u8>) -> Seq<u16>
    decreases s.len(),
{
    if s.len() < 2 {
        seq![]
    } else {
        seq![spec_u16_from_le_bytes(s.subrange(0, 2))] + bytes_to_units(
            s.subrange(2, s.len() as int),
        )
    }
}

/// A unit sequence's byte image has twice its length and decodes back.
pub proof fn lemma_units_to_bytes_round_trip(units: Seq<u16>)
    ensures
        units_to_bytes(units).len() == 2 * units.len(),
        bytes_to_units(units_to_bytes(units)) == units,
    decreases units,
{
    lemma_le_bytes_auto();
    if units.len() == 0 {
        assert(bytes_to_units(units_to_bytes(units)) =~= units);
    } else {
        lemma_units_to_bytes_round_trip(units.drop_first());
        let b = units_to_bytes(units);
        assert(b.subrange(0, 2) =~= spec_u16_to_le_bytes(units[0]));
        assert(b.subrange(2, b.len() as int) =~= units_to_bytes(units.drop_first()));
        assert(bytes_to_units(units_to_bytes(units)) =~= units);
    }
}

/// An even-length byte sequence re-encodes from its code units.
pub proof fn lemma_bytes_to_units_round_trip(s: Seq<u8>)
    requires
        s.len() % 2 == 0,
    ensures
        bytes_to_units(s).len() == s.len() / 2,
        units_to_bytes(bytes_to_units(s)) == s,
    decreases s.len(),
{
    lemma_le_bytes_auto();
    if s.len() == 0 {
        assert(units_to_bytes(bytes_to_units(s)) =~= s);
    } else {
        let tail = s.subrange(2, s.len() as int);
        lemma_bytes_to_units_round_trip(tail);
        assert(bytes_to_units(s).drop_first() =~= bytes_to_units(tail));
        assert(units_to_bytes(bytes_to_units(s)) =~= spec_u16_to_le_bytes(
            spec_u16_from_le_bytes(s.subrange(0, 2)),
        ) + units_to_bytes(bytes_to_units(tail)));
        assert(units_to_bytes(bytes_to_units(s)) =~= s);
    }
}

/// The byte image of one cell.
pub open spec fn spec_enc_cell(v: CellV) -> Seq<u8>
    decreases v, 2int,
{
    match v {
        CellV::Bool(b) => seq![if b { 1u8 } else { 0u8 }],
        CellV::I16(x) => spec_u16_to_le_bytes(spec_u16_of_i16(x)),
        CellV::I32(x) => spec_u32_to_le_bytes(spec_u32_of_i32(x)),
        CellV::I64(x) => spec_u64_to_le_bytes(spec_u64_of_i64(x)),
        CellV::F32(bits) => spec_u32_to_le_bytes(bits),
        CellV::Str8(s) => spec_str8_bytes(s),
        CellV::Str16(s) => spec_str16_bytes(s),
        CellV::OptStr8(s) => if s.len() == 0 {
            seq![0u8]
        } else {
            seq![1u8] + spec_str8_bytes(s)
        },
        CellV::OptStr16(s) => if s.len() == 0 {
            seq![0u8]
        } else {
            seq![1u8] + spec_str16_bytes(s)
        },
        CellV::Seq16(rows) => spec_u16_to_le_bytes(rows.len() as u16) + spec_enc_rows(rows),
        CellV::Seq32(rows) => spec_u32_to_le_bytes(rows.len() as u32) + spec_enc_rows(rows),
    }
}

/// The byte image of a narrow string: byte count, then UTF-8 bytes.
pub open spec fn spec_str8_bytes(s: Seq<char>) -> Seq<u8> {
    spec_u16_to_le_bytes(encode_utf8(s).len() as u16) + encode_utf8(s)
}

/// The byte image of a wide string: unit count, then UTF-16 units.
pub open spec fn spec_str16_bytes(s: Seq<char>) -> Seq<u8> {
    spec_u16_to_le_bytes(spec_encode_utf16(s).len() as u16) + units_to_bytes(spec_encode_utf16(s))
}

/// The byte image of a row: its cells, concatenated in order.
pub open spec fn spec_enc_row(row: Seq<CellV>) -> Seq<u8>
    decreases row, 0int,
{
    if row.len() == 0 {
        seq![]
    } else {
        spec_enc_cell(row[0]) + spec_enc_row(row.drop_first())
    }
}

/// The byte image of a row list: its rows, concatenated in order.
pub open spec fn spec_enc_rows(rows: Seq<Seq<CellV>>) -> Seq<u8>
    decreases rows, 1int,
{
    if rows.len() == 0 {
        seq![]
    } else {
        spec_enc_row(rows[0]) + spec_enc_rows(rows.drop_first())
    }
}

/// What the decoder yields: a model value and the position after it, or the
/// failure reason and its byte offset.
pub type SpecDecoded<T> = Result<(T, int), (DecodeReason, int)>;

/// Turns running out of bytes inside a sequence's declared rows into the
/// sequence-specific failure.
pub open spec fn seq_err(e: (DecodeReason, int)) -> (DecodeReason, int) {
    if e.0 is UnexpectedEnd {
        (DecodeReason::SequenceLengthMismatch, e.1)
    } else {
        e
    }
}

/// Decodes one cell of the given field type at `pos`.
pub open spec fn sdec_cell(ft: FieldType, b: Seq<u8>, pos: int) -> SpecDecoded<CellV>
    decreases ft, 0nat, 0nat,
{
    match ft {
        FieldType::Boolean => {
            if pos + 1 <= b.len() {
                if b[pos] == 0 {
                    Ok((CellV::Bool(false), pos + 1))
                } else if b[pos] == 1 {
                    Ok((CellV::Bool(true), pos + 1))
                } else {
                    Err((DecodeReason::InvalidBool, pos))
                }
            } else {
                Err((DecodeReason::UnexpectedEnd, pos))
            }
        },
        FieldType::I16 => {
            if pos + 2 <= b.len() {
                Ok(
                    (
                        CellV::I16(spec_i16_of_u16(spec_u16_from_le_bytes(b.subrange(pos, pos + 2)))),
                        pos + 2,
                    ),
                )
            } else {
                Err((DecodeReason::UnexpectedEnd, pos))
            }
        },
        FieldType::I32 => {
            if pos + 4 <= b.len() {
                Ok(
                    (
                        CellV::I32(spec_i32_of_u32(spec_u32_from_le_bytes(b.subrange(pos, pos + 4)))),
                        pos + 4,
                    ),
                )
            } else {
                Err((DecodeReason::UnexpectedEnd, pos))
            }
        },
        FieldType::I64 => {
            if pos + 8 <= b.len() {
                Ok(
                    (
                        CellV::I64(spec_i64_of_u64(spec_u64_from_le_bytes(b.subrange(pos, pos + 8)))),
                        pos + 8,
                    ),
                )
            } else {
                Err((DecodeReason::UnexpectedEnd, pos))
            }
        },
        FieldType::F32 => {
            if pos + 4 <= b.len() {
                Ok((CellV::F32(spec_u32_from_le_bytes(b.subrange(pos, pos + 4))), pos + 4))
            } else {
                Err((DecodeReason::UnexpectedEnd, pos))
            }
        },
        FieldType::StringU8 => {
            match sdec_str8(b, pos) {
                Ok((s, p)) => Ok((CellV::Str8(s), p)),
                Err(e) => Err(e),
            }
        },
        FieldType::StringU16 => {
            match sdec_str16(b, pos) {
                Ok((s, p)) => Ok((CellV::Str16(s), p)),
                Err(e) => Err(e),
            }
        },
        FieldType::OptionalStringU8 => {
            if pos + 1 <= b.len() {
                if b[pos] == 0 {
                    Ok((CellV::OptStr8(seq![]), pos + 1))
                } else if b[pos] == 1 {
                    match sdec_str8(b, pos + 1) {
                        Ok((s, p)) => {
                            if s.len() == 0 {
                                Err((DecodeReason::InvalidOptional, pos))
                            } else {
                                Ok((CellV::OptStr8(s), p))
                            }
                        },
                        Err(e) => Err(e),
                    }
                } else {
                    Err((DecodeReason::InvalidOptional, pos))
                }
            } else {
                Err((DecodeReason::UnexpectedEnd, pos))
            }
        },
        FieldType::OptionalStringU16 => {
            if pos + 1 <= b.len() {
                if b[pos] == 0 {
                    Ok((CellV::OptStr16(seq![]), pos + 1))
                } else if b[pos] == 1 {
                    match sdec_str16(b, pos + 1) {
                        Ok((s, p)) => {
                            if s.len() == 0 {
                                Err((DecodeReason::InvalidOptional, pos))
                            } else {
                                Ok((CellV::OptStr16(s), p))
                            }
                        },
                        Err(e) => Err(e),
                    }
                } else {
                    Err((DecodeReason::InvalidOptional, pos))
                }
            } else {
                Err((DecodeReason::UnexpectedEnd, pos))
            }
        },
        FieldType::SequenceU16(d) => {
            if pos + 2 <= b.len() {
                let n = spec_u16_from_le_bytes(b.subrange(pos, pos + 2));
                match sdec_rows(*d, n as nat, b, pos + 2) {
                    Ok((rows, p)) => Ok((CellV::Seq16(rows), p)),
                    Err(e) => Err(seq_err(e)),
                }
            } else {
                Err((DecodeReason::UnexpectedEnd, pos))
            }
        },
        FieldType::SequenceU32(d) => {
            if pos + 4 <= b.len() {
                let n = spec_u32_from_le_bytes(b.subrange(pos, pos + 4));
                match sdec_rows(*d, n as nat, b, pos + 4) {
                    Ok((rows, p)) => Ok((CellV::Seq32(rows), p)),
                    Err(e) => Err(seq_err(e)),
                }
            } else {
                Err((DecodeReason::UnexpectedEnd, pos))
            }
        },
    }
}

/// Decodes a narrow string at `pos`.
pub open spec fn sdec_str8(b: Seq<u8>, pos: int) -> SpecDecoded<Seq<char>> {
    if pos + 2 <= b.len() {
        let n = spec_u16_from_le_bytes(b.subrange(pos, pos + 2)) as int;
        if pos + 2 + n <= b.len() {
            let payload = b.subrange(pos + 2, pos + 2 + n);
            if valid_utf8(payload) {
                Ok((decode_utf8(payload), pos + 2 + n))
            } else {
                Err((DecodeReason::InvalidUtf8, pos))
            }
        } else {
            Err((DecodeReason::UnexpectedEnd, pos))
        }
    } else {
        Err((DecodeReason::UnexpectedEnd, pos))
    }
}

/// Decodes a wide string at `pos`.
pub open spec fn sdec_str16(b: Seq<u8>, pos: int) -> SpecDecoded<Seq<char>> {
    if pos + 2 <= b.len() {
        let n = spec_u16_from_le_bytes(b.subrange(pos, pos + 2)) as int;
        if pos + 2 + 2 * n <= b.len() {
            let units = bytes_to_units(b.subrange(pos + 2, pos + 2 + 2 * n));
            if valid_utf16(units) {
                Ok((spec_decode_utf16(units), pos + 2 + 2 * n))
            } else {
                Err((DecodeReason::InvalidUtf16, pos))
            }
        } else {
            Err((DecodeReason::UnexpectedEnd, pos))
        }
    } else {
        Err((DecodeReason::UnexpectedEnd, pos))
    }
}

/// Decodes `n` rows of the given definition, starting at `pos`.
pub open spec fn sdec_rows(d: Definition, n: nat, b: Seq<u8>, pos: int) -> SpecDecoded<
    Seq<Seq<CellV>>,
>
    decreases d, n, 0nat,
{
    if n == 0 {
        Ok((seq![], pos))
    } else {
        match sdec_cells(d.fields@, b, pos) {
            Ok((row, p)) => {
                match sdec_rows(d, (n - 1) as nat, b, p) {
                    Ok((rest, p2)) => Ok((seq![row] + rest, p2)),
                    Err(e) => Err(e),
                }
            },
            Err(e) => Err(e),
        }
    }
}

/// Decodes one cell per field, in order, starting at `pos`.
pub open spec fn sdec_cells(fields: Seq<Field>, b: Seq<u8>, pos: int) -> SpecDecoded<Seq<CellV>>
    decreases fields, 0nat, 0nat,
{
    if fields.len() == 0 {
        Ok((seq![], pos))
    } else {
        match sdec_cell(fields[0].field_type, b, pos) {
            Ok((v, p)) => {
                match sdec_cells(fields.drop_first(), b, p) {
                    Ok((rest, p2)) => Ok((seq![v] + rest, p2)),
                    Err(e) => Err(e),
                }
            },
            Err(e) => Err(e),
        }
    }
}


/// Splits a subrange equality against a concatenation into its two halves.
pub proof fn lemma_subrange_split(b: Seq<u8>, pos: int, x: Seq<u8>, y: Seq<u8>)
    requires
        0 <= pos,
        pos + x.len() + y.len() <= b.len(),
        b.subrange(pos, pos + x.len() + y.len()) == x + y,
    ensures
        b.subrange(pos, pos + x.len() as int) == x,
        b.subrange(pos + x.len(), pos + x.len() + y.len()) == y,
{
    let whole = b.subrange(pos, pos + x.len() + y.len());
    assert forall|i: int| 0 <= i < x.len() implies b.subrange(pos, pos + x.len() as int)[i]
        == x[i] by {
        assert(whole[i] == b[pos + i]);
        assert((x + y)[i] == x[i]);
    }
    assert(b.subrange(pos, pos + x.len() as int) =~= x);
    assert forall|i: int| 0 <= i < y.len() implies b.subrange(
        pos + x.len(),
        pos + x.len() + y.len(),
    )[i] == y[i] by {
        assert(whole[x.len() + i] == b[pos + x.len() + i]);
        assert((x + y)[x.len() + i] == y[i]);
    }
    assert(b.subrange(pos + x.len(), pos + x.len() + y.len()) =~= y);
}

/// Decoding an encoded narrow string yields it back, just past its bytes.
pub proof fn lemma_dec_enc_str8(s: Seq<char>, b: Seq<u8>, pos: int)
    requires
        encode_utf8(s).len() <= 0xFFFF,
        0 <= pos,
        pos + spec_str8_bytes(s).len() <= b.len(),
        b.subrange(pos, pos + spec_str8_bytes(s).len() as int) == spec_str8_bytes(s),
    ensures
        sdec_str8(b, pos) == Ok::<(Seq<char>, int), (DecodeReason, int)>(
            (s, pos + spec_str8_bytes(s).len()),
        ),
{
    lemma_le_bytes_auto();
    broadcast use vstd::utf8::group_utf8_lib;

    let payload = encode_utf8(s);
    let n = payload.len() as int;
    let enc = spec_str8_bytes(s);
    assert(enc.len() == 2 + n);
    lemma_subrange_split(b, pos, spec_u16_to_le_bytes(n as u16), payload);
    assert(spec_u16_from_le_bytes(b.subrange(pos, pos + 2)) == n as u16);
    assert(n as u16 as int == n);
    assert(valid_utf8(payload));
    assert(decode_utf8(payload) == s);
}

/// Decoding an encoded wide string yields it back, just past its bytes.
pub proof fn lemma_dec_enc_str16(s: Seq<char>, b: Seq<u8>, pos: int)
    requires
        spec_encode_utf16(s).len() <= 0xFFFF,
        0 <= pos,
        pos + spec_str16_bytes(s).len() <= b.len(),
        b.subrange(pos, pos + spec_str16_bytes(s).len() as int) == spec_str16_bytes(s),
    ensures
        sdec_str16(b, pos) == Ok::<(Seq<char>, int), (DecodeReason, int)>(
            (s, pos + spec_str16_bytes(s).len()),
        ),
{
    lemma_le_bytes_auto();
    let units = spec_encode_utf16(s);
    let n = units.len() as int;
    lemma_units_to_bytes_round_trip(units);
    let payload = units_to_bytes(units);
    let enc = spec_str16_bytes(s);
    assert(enc.len() == 2 + 2 * n);
    lemma_subrange_split(b, pos, spec_u16_to_le_bytes(n as u16), payload);
    assert(spec_u16_from_le_bytes(b.subrange(pos, pos + 2)) == n as u16);
    assert(n as u16 as int == n);
    assert(bytes_to_units(payload) == units);
    crate::text::lemma_utf16_round_trip_chars(s);
}

/// Decoding an encoded cell yields it back, just past its bytes.
pub proof fn lemma_dec_enc_cell(v: CellV, ft: FieldType, b: Seq<u8>, pos: int)
    requires
        cell_wf(v, ft),
        cell_len_ok(v),
        0 <= pos,
        pos + spec_enc_cell(v).len() <= b.len(),
        b.subrange(pos, pos + spec_enc_cell(v).len() as int) == spec_enc_cell(v),
    ensures
        sdec_cell(ft, b, pos) == Ok::<(CellV, int), (DecodeReason, int)>(
            (v, pos + spec_enc_cell(v).len()),
        ),
    decreases v,
{
    lemma_le_bytes_auto();
    let enc = spec_enc_cell(v);
    match v {
        CellV::Bool(x) => {
            assert(b.subrange(pos, pos + 1)[0] == b[pos]);
            assert(b[pos] == (if x { 1u8 } else { 0u8 }));
        },
        CellV::I16(x) => {
            assert(b.subrange(pos, pos + 2) =~= spec_u16_to_le_bytes(spec_u16_of_i16(x)));
            crate::cursor::lemma_i16_round_trip(x);
        },
        CellV::I32(x) => {
            assert(b.subrange(pos, pos + 4) =~= spec_u32_to_le_bytes(spec_u32_of_i32(x)));
            crate::cursor::lemma_i32_round_trip(x);
        },
        CellV::I64(x) => {
            assert(b.subrange(pos, pos + 8) =~= spec_u64_to_le_bytes(spec_u64_of_i64(x)));
            crate::cursor::lemma_i64_round_trip(x);
        },
        CellV::F32(bits) => {
            assert(b.subrange(pos, pos + 4) =~= spec_u32_to_le_bytes(bits));
        },
        CellV::Str8(s) => {
            lemma_dec_enc_str8(s, b, pos);
        },
        CellV::Str16(s) => {
            lemma_dec_enc_str16(s, b, pos);
        },
        CellV::OptStr8(s) => {
            if s.len() == 0 {
                assert(b.subrange(pos, pos + 1)[0] == b[pos]);
                assert(b[pos] == 0);
                assert(s =~= Seq::<char>::empty());
            } else {
                assert(b.subrange(pos, pos + enc.len() as int)[0] == b[pos]);
                assert(b[pos] == 1);
                lemma_subrange_split(b, pos, seq![1u8], spec_str8_bytes(s));
                lemma_dec_enc_str8(s, b, pos + 1);
            }
        },
        CellV::OptStr16(s) => {
            if s.len() == 0 {
                assert(b.subrange(pos, pos + 1)[0] == b[pos]);
                assert(b[pos] == 0);
                assert(s =~= Seq::<char>::empty());
            } else {
                assert(b.subrange(pos, pos + enc.len() as int)[0] == b[pos]);
                assert(b[pos] == 1);
                lemma_subrange_split(b, pos, seq![1u8], spec_str16_bytes(s));
                lemma_dec_enc_str16(s, b, pos + 1);
            }
        },
        CellV::Seq16(rows) => {
            let m = rows.len() as int;
            lemma_subrange_split(b, pos, spec_u16_to_le_bytes(m as u16), spec_enc_rows(rows));
            assert(spec_u16_from_le_bytes(b.subrange(pos, pos + 2)) == m as u16);
            assert(m as u16 as nat == rows.len());
            let ghost d = (match ft {
                FieldType::SequenceU16(d) => *d,
                _ => arbitrary(),
            });
            lemma_dec_enc_rows(rows, d, b, pos + 2);
        },
        CellV::Seq32(rows) => {
            let m = rows.len() as int;
            lemma_subrange_split(b, pos, spec_u32_to_le_bytes(m as u32), spec_enc_rows(rows));
            assert(spec_u32_from_le_bytes(b.subrange(pos, pos + 4)) == m as u32);
            assert(m as u32 as nat == rows.len());
            let ghost d = (match ft {
                FieldType::SequenceU32(d) => *d,
                _ => arbitrary(),
            });
            lemma_dec_enc_rows(rows, d, b, pos + 4);
        },
    }
}

/// Decoding the encoding of a row list yields it back.
pub proof fn lemma_dec_enc_rows(rows: Seq<Seq<CellV>>, d: Definition, b: Seq<u8>, pos: int)
    requires
        rows_wf(rows, d.fields@),
        rows_len_ok(rows),
        0 <= pos,
        pos + spec_enc_rows(rows).len() <= b.len(),
        b.subrange(pos, pos + spec_enc_rows(rows).len() as int) == spec_enc_rows(rows),
    ensures
        sdec_rows(d, rows.len(), b, pos) == Ok::<(Seq<Seq<CellV>>, int), (DecodeReason, int)>(
            (rows, pos + spec_enc_rows(rows).len()),
        ),
    decreases rows,
{
    if rows.len() == 0 {
        assert(rows =~= Seq::<Seq<CellV>>::empty());
    } else {
        let row = rows[0];
        let rest = rows.drop_first();
        let n1 = spec_enc_row(row).len() as int;
        let n2 = spec_enc_rows(rest).len() as int;
        lemma_subrange_split(b, pos, spec_enc_row(row), spec_enc_rows(rest));
        lemma_dec_enc_cells(row, d.fields@, b, pos);
        assert(rows_wf(rest, d.fields@)) by {
            assert(forall|i: int| 0 <= i < rest.len() ==> rest[i] == rows[i + 1]);
        }
        assert(rows_len_ok(rest)) by {
            assert(forall|i: int| 0 <= i < rest.len() ==> rest[i] == rows[i + 1]);
        }
        lemma_dec_enc_rows(rest, d, b, pos + n1);
        assert(seq![row] + rest =~= rows);
    }
}

/// Decoding the encoding of a row against its field list yields it back.
pub proof fn lemma_dec_enc_cells(row: Seq<CellV>, fields: Seq<Field>, b: Seq<u8>, pos: int)
    requires
        row_wf(row, fields),
        row_len_ok(row),
        0 <= pos,
        pos + spec_enc_row(row).len() <= b.len(),
        b.subrange(pos, pos + spec_enc_row(row).len() as int) == spec_enc_row(row),
    ensures
        sdec_cells(fields, b, pos) == Ok::<(Seq<CellV>, int), (DecodeReason, int)>(
            (row, pos + spec_enc_row(row).len()),
        ),
    decreases row,
{
    if row.len() == 0 {
        assert(row =~= Seq::<CellV>::empty());
    } else {
        let v = row[0];
        let rest = row.drop_first();
        let n1 = spec_enc_cell(v).len() as int;
        let n2 = spec_enc_row(rest).len() as int;
        lemma_subrange_split(b, pos, spec_enc_cell(v), spec_enc_row(rest));
        assert(cell_wf(v, fields[0].field_type));
        lemma_dec_enc_cell(v, fields[0].field_type, b, pos);
        assert(row_wf(rest, fields.drop_first())) by {
            assert(forall|j: int| 0 <= j < rest.len() ==> rest[j] == row[j + 1]);
            assert(forall|j: int|
                0 <= j < fields.drop_first().len() ==> fields.drop_first()[j] == fields[j + 1]);
        }
        assert(row_len_ok(rest)) by {
            assert(forall|j: int| 0 <= j < rest.len() ==> rest[j] == row[j + 1]);
        }
        lemma_dec_enc_cells(rest, fields.drop_first(), b, pos + n1);
        assert(seq![v] + rest =~= row);
    }
}

/// Whatever a narrow-string decode accepts re-encodes to the same bytes.
pub proof fn lemma_enc_dec_str8(b: Seq<u8>, pos: int)
    requires
        0 <= pos <= b.len(),
        sdec_str8(b, pos) is Ok,
    ensures
        ({
            let (s, p) = sdec_str8(b, pos)->Ok_0;
            &&& pos <= p <= b.len()
            &&& encode_utf8(s).len() <= 0xFFFF
            &&& spec_str8_bytes(s) == b.subrange(pos, p)
        }),
{
    lemma_le_bytes_auto();
    broadcast use vstd::utf8::group_utf8_lib;

    let n = spec_u16_from_le_bytes(b.subrange(pos, pos + 2)) as int;
    let payload = b.subrange(pos + 2, pos + 2 + n);
    let s = decode_utf8(payload);
    assert(encode_utf8(s) == payload);
    assert(spec_str8_bytes(s) =~= b.subrange(pos, pos + 2 + n));
}

/// Whatever a wide-string decode accepts re-encodes to the same bytes.
pub proof fn lemma_enc_dec_str16(b: Seq<u8>, pos: int)
    requires
        0 <= pos <= b.len(),
        sdec_str16(b, pos) is Ok,
    ensures
        ({
            let (s, p) = sdec_str16(b, pos)->Ok_0;
            &&& pos <= p <= b.len()
            &&& spec_encode_utf16(s).len() <= 0xFFFF
            &&& spec_str16_bytes(s) == b.subrange(pos, p)
        }),
{
    lemma_le_bytes_auto();
    let n = spec_u16_from_le_bytes(b.subrange(pos, pos + 2)) as int;
    let payload = b.subrange(pos + 2, pos + 2 + 2 * n);
    let units = bytes_to_units(payload);
    let s = spec_decode_utf16(units);
    lemma_bytes_to_units_round_trip(payload);
    crate::text::lemma_utf16_round_trip_units(units);
    assert(spec_encode_utf16(s) == units);
    assert(units_to_bytes(units) == payload);
    assert(spec_str16_bytes(s) =~= b.subrange(pos, pos + 2 + 2 * n));
}

/// Whatever the cell decoder accepts is well formed and re-encodes to the
/// very bytes it was read from.
pub proof fn lemma_enc_dec_cell(ft: FieldType, b: Seq<u8>, pos: int)
    requires
        0 <= pos <= b.len(),
        sdec_cell(ft, b, pos) is Ok,
    ensures
        ({
            let (v, p) = sdec_cell(ft, b, pos)->Ok_0;
            &&& pos <= p <= b.len()
            &&& cell_wf(v, ft)
            &&& cell_len_ok(v)
            &&& spec_enc_cell(v) == b.subrange(pos, p)
        }),
    decreases ft, 0nat, 0nat,
{
    lemma_le_bytes_auto();
    let (v, p) = sdec_cell(ft, b, pos)->Ok_0;
    match ft {
        FieldType::Boolean => {
            assert(spec_enc_cell(v) =~= b.subrange(pos, pos + 1));
        },
        FieldType::I16 => {
            let u = spec_u16_from_le_bytes(b.subrange(pos, pos + 2));
            crate::cursor::lemma_u16_round_trip(u);
            assert(spec_enc_cell(v) =~= b.subrange(pos, pos + 2));
        },
        FieldType::I32 => {
            let u = spec_u32_from_le_bytes(b.subrange(pos, pos + 4));
            crate::cursor::lemma_u32_round_trip(u);
            assert(spec_enc_cell(v) =~= b.subrange(pos, pos + 4));
        },
        FieldType::I64 => {
            let u = spec_u64_from_le_bytes(b.subrange(pos, pos + 8));
            crate::cursor::lemma_u64_round_trip(u);
            assert(spec_enc_cell(v) =~= b.subrange(pos, pos + 8));
        },
        FieldType::F32 => {
            assert(spec_enc_cell(v) =~= b.subrange(pos, pos + 4));
        },
        FieldType::StringU8 => {
            lemma_enc_dec_str8(b, pos);
        },
        FieldType::StringU16 => {
            lemma_enc_dec_str16(b, pos);
        },
        FieldType::OptionalStringU8 => {
            if b[pos] == 0 {
                assert(encode_utf8(Seq::<char>::empty()).len() == 0);
                assert(spec_enc_cell(v) =~= b.subrange(pos, pos + 1));
            } else {
                lemma_enc_dec_str8(b, pos + 1);
                let (s, p2) = sdec_str8(b, pos + 1)->Ok_0;
                assert(spec_enc_cell(v) =~= b.subrange(pos, p2));
            }
        },
        FieldType::OptionalStringU16 => {
            if b[pos] == 0 {
                assert(encode_utf8(Seq::<char>::empty()).len() == 0);
                assert(spec_encode_utf16(Seq::<char>::empty()).len() == 0);
                assert(spec_enc_cell(v) =~= b.subrange(pos, pos + 1));
            } else {
                lemma_enc_dec_str16(b, pos + 1);
                let (s, p2) = sdec_str16(b, pos + 1)->Ok_0;
                assert(spec_enc_cell(v) =~= b.subrange(pos, p2));
            }
        },
        FieldType::SequenceU16(d) => {
            let n = spec_u16_from_le_bytes(b.subrange(pos, pos + 2));
            lemma_enc_dec_rows(*d, n as nat, b, pos + 2);
            let (rows, p2) = sdec_rows(*d, n as nat, b, pos + 2)->Ok_0;
            assert(rows.len() as u16 == n);
            assert(spec_u16_to_le_bytes(rows.len() as u16) =~= b.subrange(pos, pos + 2));
            assert(spec_enc_cell(v) =~= b.subrange(pos, p2));
        },
        FieldType::SequenceU32(d) => {
            let n = spec_u32_from_le_bytes(b.subrange(pos, pos + 4));
            lemma_enc_dec_rows(*d, n as nat, b, pos + 4);
            let (rows, p2) = sdec_rows(*d, n as nat, b, pos + 4)->Ok_0;
            assert(rows.len() as u32 == n);
            assert(spec_u32_to_le_bytes(rows.len() as u32) =~= b.subrange(pos, pos + 4));
            assert(spec_enc_cell(v) =~= b.subrange(pos, p2));
        },
    }
}

/// Whatever the row-list decoder accepts is well formed, has the declared
/// count, and re-encodes to the very bytes it was read from.
pub proof fn lemma_enc_dec_rows(d: Definition, n: nat, b: Seq<u8>, pos: int)
    requires
        0 <= pos <= b.len(),
        sdec_rows(d, n, b, pos) is Ok,
    ensures
        ({
            let (rows, p) = sdec_rows(d, n, b, pos)->Ok_0;
            &&& pos <= p <= b.len()
            &&& rows.len() == n
            &&& rows_wf(rows, d.fields@)
            &&& rows_len_ok(rows)
            &&& spec_enc_rows(rows) == b.subrange(pos, p)
        }),
    decreases d, n, 0nat,
{
    if n == 0 {
        let (rows, p) = sdec_rows(d, n, b, pos)->Ok_0;
        assert(spec_enc_rows(rows) =~= b.subrange(pos, pos));
    } else {
        lemma_enc_dec_cells(d.fields@, b, pos);
        let (row, p1) = sdec_cells(d.fields@, b, pos)->Ok_0;
        lemma_enc_dec_rows(d, (n - 1) as nat, b, p1);
        let (rest, p2) = sdec_rows(d, (n - 1) as nat, b, p1)->Ok_0;
        let rows = seq![row] + rest;
        assert(rows.drop_first() =~= rest);
        assert(rows[0] == row);
        assert(rows_wf(rows, d.fields@));
        assert(rows_len_ok(rows));
        assert(spec_enc_rows(rows) =~= b.subrange(pos, p2));
    }
}

/// Whatever the row decoder accepts is well formed and re-encodes to the
/// very bytes it was read from.
pub proof fn lemma_enc_dec_cells(fields: Seq<Field>, b: Seq<u8>, pos: int)
    requires
        0 <= pos <= b.len(),
        sdec_cells(fields, b, pos) is Ok,
    ensures
        ({
            let (row, p) = sdec_cells(fields, b, pos)->Ok_0;
            &&& pos <= p <= b.len()
            &&& row_wf(row, fields)
            &&& row_len_ok(row)
            &&& spec_enc_row(row) == b.subrange(pos, p)
        }),
    decreases fields, 0nat, 0nat,
{
    if fields.len() == 0 {
        let (row, p) = sdec_cells(fields, b, pos)->Ok_0;
        assert(spec_enc_row(row) =~= b.subrange(pos, pos));
    } else {
        lemma_enc_dec_cell(fields[0].field_type, b, pos);
        let (v, p1) = sdec_cell(fields[0].field_type, b, pos)->Ok_0;
        lemma_enc_dec_cells(fields.drop_first(), b, p1);
        let (rest, p2) = sdec_cells(fields.drop_first(), b, p1)->Ok_0;
        let row = seq![v] + rest;
        assert(row.drop_first() =~= rest);
        assert(row[0] == v);
        assert(row_wf(row, fields)) by {
            assert(forall|j: int| 1 <= j < row.len() ==> row[j] == rest[j - 1]);
            assert(forall|j: int|
                0 <= j < fields.drop_first().len() ==> fields.drop_first()[j] == fields[j + 1]);
        }
        assert(row_len_ok(row)) by {
            assert(forall|j: int| 1 <= j < row.len() ==> row[j] == rest[j - 1]);
        }
        assert(spec_enc_row(row) =~= b.subrange(pos, p2));
    }
}


/// Index form of [`bytes_to_units`]: unit `k` is the `u16` at byte `2k`.
pub proof fn lemma_bytes_to_units_index(s: Seq<u8>)
    requires
        s.len() % 2 == 0,
    ensures
        bytes_to_units(s).len() == s.len() / 2,
        forall|k: int|
            0 <= k < s.len() / 2 ==> #[trigger] bytes_to_units(s)[k] == spec_u16_from_le_bytes(
                s.subrange(2 * k, 2 * k + 2),
            ),
    decreases s.len(),
{
    if s.len() >= 2 {
        let tail = s.subrange(2, s.len() as int);
        lemma_bytes_to_units_index(tail);
        assert forall|k: int| 0 <= k < s.len() / 2 implies #[trigger] bytes_to_units(s)[k]
            == spec_u16_from_le_bytes(s.subrange(2 * k, 2 * k + 2)) by {
            if k > 0 {
                assert(bytes_to_units(s)[k] == bytes_to_units(tail)[k - 1]);
                assert(tail.subrange(2 * (k - 1), 2 * (k - 1) + 2) =~= s.subrange(
                    2 * k,
                    2 * k + 2,
                ));
            }
        }
    }
}

/// Appending one unit extends the byte image by its two bytes.
pub proof fn lemma_units_to_bytes_push(u: Seq<u16>, x: u16)
    ensures
        units_to_bytes(u.push(x)) == units_to_bytes(u) + spec_u16_to_le_bytes(x),
    decreases u,
{
    if u.len() == 0 {
        assert(u.push(x).drop_first() =~= u);
        assert(units_to_bytes(u.push(x)) =~= units_to_bytes(u) + spec_u16_to_le_bytes(x));
    } else {
        assert(u.push(x).drop_first() =~= u.drop_first().push(x));
        lemma_units_to_bytes_push(u.drop_first(), x);
        assert(units_to_bytes(u.push(x)) =~= units_to_bytes(u) + spec_u16_to_le_bytes(x));
    }
}

/// Appending one cell extends a row's byte image by that cell's bytes.
pub proof fn lemma_enc_row_push(row: Seq<CellV>, v: CellV)
    ensures
        spec_enc_row(row.push(v)) == spec_enc_row(row) + spec_enc_cell(v),
    decreases row,
{
    if row.len() == 0 {
        assert(row.push(v).drop_first() =~= row);
        assert(spec_enc_row(row.push(v)) =~= spec_enc_row(row) + spec_enc_cell(v));
    } else {
        assert(row.push(v).drop_first() =~= row.drop_first().push(v));
        lemma_enc_row_push(row.drop_first(), v);
        assert(spec_enc_row(row.push(v)) =~= spec_enc_row(row) + spec_enc_cell(v));
    }
}

/// Appending one row extends a row list's byte image by that row's bytes.
pub proof fn lemma_enc_rows_push(rows: Seq<Seq<CellV>>, r: Seq<CellV>)
    ensures
        spec_enc_rows(rows.push(r)) == spec_enc_rows(rows) + spec_enc_row(r),
    decreases rows,
{
    if rows.len() == 0 {
        assert(rows.push(r).drop_first() =~= rows);
        assert(spec_enc_rows(rows.push(r)) =~= spec_enc_rows(rows) + spec_enc_row(r));
    } else {
        assert(rows.push(r).drop_first() =~= rows.drop_first().push(r));
        lemma_enc_rows_push(rows.drop_first(), r);
        assert(spec_enc_rows(rows.push(r)) =~= spec_enc_rows(rows) + spec_enc_row(r));
    }
}

/// The error a failed decode reports, from the spec decoder's failure.
pub open spec fn dec_err(e: (DecodeReason, int)) -> RpfmError {
    RpfmError::DecodeError { offset: e.1 as usize, reason: e.0 }
}

/// What an executable decoder returns: the value and the position after it.
pub type Decoded<T> = Result<(T, usize), RpfmError>;

/// Decodes a narrow string at `pos`.
pub fn decode_str8(b: &[u8], pos: usize) -> (r: Decoded<String>)
    requires
        pos <= b@.len(),
    ensures
        match r {
            Ok((s, p)) => sdec_str8(b@, pos as int) == Ok::<(Seq<char>, int), (DecodeReason, int)>(
                (s@, p as int),
            ) && pos <= p <= b@.len(),
            Err(e) => sdec_str8(b@, pos as int) is Err && e == dec_err(
                sdec_str8(b@, pos as int)->Err_0,
            ),
        },
{
    let len = b.len();
    if len - pos < 2 {
        return Err(RpfmError::DecodeError { offset: pos, reason: DecodeReason::UnexpectedEnd });
    }
    let n = read_u16(b, pos) as usize;
    if len - (pos + 2) < n {
        return Err(RpfmError::DecodeError { offset: pos, reason: DecodeReason::UnexpectedEnd });
    }
    let payload = slice_subrange(b, pos + 2, pos + 2 + n);
    match parse_utf8(payload) {
        Some(s) => Ok((s, pos + 2 + n)),
        None => Err(RpfmError::DecodeError { offset: pos, reason: DecodeReason::InvalidUtf8 }),
    }
}

/// Decodes a wide string at `pos`.
pub fn decode_str16(b: &[u8], pos: usize) -> (r: Decoded<String>)
    requires
        pos <= b@.len(),
    ensures
        match r {
            Ok((s, p)) => sdec_str16(b@, pos as int) == Ok::<(Seq<char>, int), (DecodeReason, int)>(
                (s@, p as int),
            ) && pos <= p <= b@.len(),
            Err(e) => sdec_str16(b@, pos as int) is Err && e == dec_err(
                sdec_str16(b@, pos as int)->Err_0,
            ),
        },
{
    let len = b.len();
    if len - pos < 2 {
        return Err(RpfmError::DecodeError { offset: pos, reason: DecodeReason::UnexpectedEnd });
    }
    let n = read_u16(b, pos) as usize;
    if (len - (pos + 2)) / 2 < n {
        proof {
            assert(pos + 2 + 2 * n > len);
        }
        return Err(RpfmError::DecodeError { offset: pos, reason: DecodeReason::UnexpectedEnd });
    }
    let ghost payload = b@.subrange(pos + 2, pos + 2 + 2 * n);
    proof {
        lemma_bytes_to_units_index(payload);
    }
    let mut units: Vec<u16> = Vec::new();
    let mut i: usize = 0;
    while i < n
        invariant
            i <= n,
            len == b@.len(),
            pos + 2 + 2 * n <= b@.len(),
            payload == b@.subrange(pos + 2, pos + 2 + 2 * n),
            units@.len() == i,
            forall|k: int|
                0 <= k < i ==> #[trigger] units@[k] == spec_u16_from_le_bytes(
                    payload.subrange(2 * k, 2 * k + 2),
                ),
        decreases n - i,
    {
        let u = read_u16(b, pos + 2 + 2 * i);
        proof {
            assert(b@.subrange(pos + 2 + 2 * i, pos + 2 + 2 * i + 2) =~= payload.subrange(
                2 * i,
                2 * i + 2,
            ));
        }
        units.push(u);
        i += 1;
    }
    proof {
        assert(units@ =~= bytes_to_units(payload));
    }
    match parse_utf16(units.as_slice()) {
        Some(s) => Ok((s, pos + 2 + 2 * n)),
        None => Err(RpfmError::DecodeError { offset: pos, reason: DecodeReason::InvalidUtf16 }),
    }
}

/// Decodes one cell of the given field type at `pos`.
pub fn decode_cell(ft: &FieldType, b: &[u8], pos: usize) -> (r: Decoded<DecodedData>)
    requires
        pos <= b@.len(),
    ensures
        match r {
            Ok((c, p)) => sdec_cell(*ft, b@, pos as int) == Ok::<
                (CellV, int),
                (DecodeReason, int),
            >((cell_view(c), p as int)) && pos <= p <= b@.len(),
            Err(e) => sdec_cell(*ft, b@, pos as int) is Err && e == dec_err(
                sdec_cell(*ft, b@, pos as int)->Err_0,
            ),
        },
    decreases *ft, 0nat, 0nat,
{
    let len = b.len();
    match ft {
        FieldType::Boolean => {
            if len - pos < 1 {
                return Err(
                    RpfmError::DecodeError { offset: pos, reason: DecodeReason::UnexpectedEnd },
                );
            }
            let x = b[pos];
            if x == 0 {
                Ok((DecodedData::Boolean(false), pos + 1))
            } else if x == 1 {
                Ok((DecodedData::Boolean(true), pos + 1))
            } else {
                Err(RpfmError::DecodeError { offset: pos, reason: DecodeReason::InvalidBool })
            }
        },
        FieldType::I16 => {
            if len - pos < 2 {
                return Err(
                    RpfmError::DecodeError { offset: pos, reason: DecodeReason::UnexpectedEnd },
                );
            }
            let u = read_u16(b, pos);
            Ok((DecodedData::I16(i16_of_u16(u)), pos + 2))
        },
        FieldType::I32 => {
            if len - pos < 4 {
                return Err(
                    RpfmError::DecodeError { offset: pos, reason: DecodeReason::UnexpectedEnd },
                );
            }
            let u = read_u32(b, pos);
            Ok((DecodedData::I32(i32_of_u32(u)), pos + 4))
        },
        FieldType::I64 => {
            if len - pos < 8 {
                return Err(
                    RpfmError::DecodeError { offset: pos, reason: DecodeReason::UnexpectedEnd },
                );
            }
            let u = read_u64(b, pos);
            Ok((DecodedData::I64(i64_of_u64(u)), pos + 8))
        },
        FieldType::F32 => {
            if len - pos < 4 {
                return Err(
                    RpfmError::DecodeError { offset: pos, reason: DecodeReason::UnexpectedEnd },
                );
            }
            let bits = read_u32(b, pos);
            Ok((DecodedData::F32(bits), pos + 4))
        },
        FieldType::StringU8 => {
            match decode_str8(b, pos) {
                Ok((s, p)) => Ok((DecodedData::StringU8(s), p)),
                Err(e) => Err(e),
            }
        },
        FieldType::StringU16 => {
            match decode_str16(b, pos) {
                Ok((s, p)) => Ok((DecodedData::StringU16(s), p)),
                Err(e) => Err(e),
            }
        },
        FieldType::OptionalStringU8 => {
            if len - pos < 1 {
                return Err(
                    RpfmError::DecodeError { offset: pos, reason: DecodeReason::UnexpectedEnd },
                );
            }
            let flag = b[pos];
            if flag == 0 {
                let s = String::new();
                proof {
                    assert(s@ =~= Seq::<char>::empty());
                }
                Ok((DecodedData::OptionalStringU8(s), pos + 1))
            } else if flag == 1 {
                match decode_str8(b, pos + 1) {
                    Ok((s, p)) => {
                        if s.as_str().unicode_len() == 0 {
                            Err(
                                RpfmError::DecodeError {
                                    offset: pos,
                                    reason: DecodeReason::InvalidOptional,
                                },
                            )
                        } else {
                            Ok((DecodedData::OptionalStringU8(s), p))
                        }
                    },
                    Err(e) => Err(e),
                }
            } else {
                Err(RpfmError::DecodeError { offset: pos, reason: DecodeReason::InvalidOptional })
            }
        },
        FieldType::OptionalStringU16 => {
            if len - pos < 1 {
                return Err(
                    RpfmError::DecodeError { offset: pos, reason: DecodeReason::UnexpectedEnd },
                );
            }
            let flag = b[pos];
            if flag == 0 {
                let s = String::new();
                proof {
                    assert(s@ =~= Seq::<char>::empty());
                }
                Ok((DecodedData::OptionalStringU16(s), pos + 1))
            } else if flag == 1 {
                match decode_str16(b, pos + 1) {
                    Ok((s, p)) => {
                        if s.as_str().unicode_len() == 0 {
                            Err(
                                RpfmError::DecodeError {
                                    offset: pos,
                                    reason: DecodeReason::InvalidOptional,
                                },
                            )
                        } else {
                            Ok((DecodedData::OptionalStringU16(s), p))
                        }
                    },
                    Err(e) => Err(e),
                }
            } else {
                Err(RpfmError::DecodeError { offset: pos, reason: DecodeReason::InvalidOptional })
            }
        },
        FieldType::SequenceU16(d) => {
            if len - pos < 2 {
                return Err(
                    RpfmError::DecodeError { offset: pos, reason: DecodeReason::UnexpectedEnd },
                );
            }
            let n = read_u16(b, pos) as usize;
            match decode_rows(d, n, b, pos + 2) {
                Ok((rows, p)) => Ok((DecodedData::SequenceU16(rows), p)),
                Err(e) => Err(map_seq_err(e)),
            }
        },
        FieldType::SequenceU32(d) => {
            if len - pos < 4 {
                return Err(
                    RpfmError::DecodeError { offset: pos, reason: DecodeReason::UnexpectedEnd },
                );
            }
            let n32 = read_u32(b, pos);
            let n = n32 as usize;
            proof {
                assert(n == n32 as nat);
            }
            match decode_rows(d, n, b, pos + 4) {
                Ok((rows, p)) => Ok((DecodedData::SequenceU32(rows), p)),
                Err(e) => Err(map_seq_err(e)),
            }
        },
    }
}

/// Applies [`seq_err`] to a reported decode error.
fn map_seq_err(e: RpfmError) -> (r: RpfmError)
    ensures
        (match e {
            RpfmError::DecodeError { offset, reason } => r == RpfmError::DecodeError {
                offset,
                reason: seq_err((reason, offset as int)).0,
            },
            _ => r == e,
        }),
{
    match e {
        RpfmError::DecodeError { offset, reason } => {
            if reason == DecodeReason::UnexpectedEnd {
                RpfmError::DecodeError { offset, reason: DecodeReason::SequenceLengthMismatch }
            } else {
                RpfmError::DecodeError { offset, reason }
            }
        },
        _ => e,
    }
}

/// Decodes one cell per field of the list, in order, starting at `pos`.
pub fn decode_row(fields: &Vec<Field>, b: &[u8], pos: usize) -> (r: Decoded<Vec<DecodedData>>)
    requires
        pos <= b@.len(),
    ensures
        match r {
            Ok((row, p)) => sdec_cells(fields@, b@, pos as int) == Ok::<
                (Seq<CellV>, int),
                (DecodeReason, int),
            >((cells_view(row@), p as int)) && pos <= p <= b@.len(),
            Err(e) => sdec_cells(fields@, b@, pos as int) is Err && e == dec_err(
                sdec_cells(fields@, b@, pos as int)->Err_0,
            ),
        },
    decreases *fields, 0nat, 0nat,
{
    let mut row: Vec<DecodedData> = Vec::new();
    let mut cur: usize = pos;
    let mut j: usize = 0;
    proof {
        assert(cells_view(row@) =~= Seq::<CellV>::empty());
        assert(fields@.subrange(0, fields@.len() as int) =~= fields@);
        let r0 = sdec_cells(fields@, b@, pos as int);
        if r0 is Ok {
            assert(Seq::<CellV>::empty() + r0->Ok_0.0 =~= r0->Ok_0.0);
        }
    }
    while j < fields.len()
        invariant
            pos <= cur <= b@.len(),
            j <= fields@.len(),
            cells_view(row@).len() == j,
            ({
                let rem = fields@.subrange(j as int, fields@.len() as int);
                let rr = sdec_cells(rem, b@, cur as int);
                let whole = sdec_cells(fields@, b@, pos as int);
                &&& (rr is Ok ==> whole == Ok::<(Seq<CellV>, int), (DecodeReason, int)>(
                    (cells_view(row@) + rr->Ok_0.0, rr->Ok_0.1),
                ))
                &&& (rr is Err ==> whole == Err::<(Seq<CellV>, int), (DecodeReason, int)>(
                    rr->Err_0,
                ))
            }),
        decreases fields@.len() - j,
    {
        let ghost rem = fields@.subrange(j as int, fields@.len() as int);
        let ghost rem2 = fields@.subrange(j + 1, fields@.len() as int);
        let ghost oldrowv = cells_view(row@);
        let ghost oldcur = cur as int;
        proof {
            assert(rem[0] == fields@[j as int]);
            assert(rem.drop_first() =~= rem2);
        }
        match decode_cell(&fields[j].field_type, b, cur) {
            Ok((c, p)) => {
                proof {
                    lemma_cells_view_push(row@, c);
                }
                row.push(c);
                cur = p;
                proof {
                    let cv = cell_view(c);
                    assert(cells_view(row@) == oldrowv.push(cv));
                    let rr2 = sdec_cells(rem2, b@, cur as int);
                    if rr2 is Ok {
                        assert(sdec_cells(rem, b@, oldcur) == Ok::<
                            (Seq<CellV>, int),
                            (DecodeReason, int),
                        >((seq![cv] + rr2->Ok_0.0, rr2->Ok_0.1)));
                        assert(oldrowv + (seq![cv] + rr2->Ok_0.0) =~= cells_view(row@)
                            + rr2->Ok_0.0);
                    } else {
                        assert(sdec_cells(rem, b@, oldcur) == Err::<
                            (Seq<CellV>, int),
                            (DecodeReason, int),
                        >(rr2->Err_0));
                    }
                }
            },
            Err(e) => {
                proof {
                    assert(sdec_cells(rem, b@, oldcur) == Err::<
                        (Seq<CellV>, int),
                        (DecodeReason, int),
                    >(sdec_cell(fields@[j as int].field_type, b@, oldcur)->Err_0));
                }
                return Err(e);
            },
        }
        j += 1;
        proof {
            assert(fields@.subrange(j as int, fields@.len() as int) =~= rem2);
        }
    }
    proof {
        assert(fields@.subrange(fields@.len() as int, fields@.len() as int)
            =~= Seq::<Field>::empty());
        let rr = sdec_cells(Seq::<Field>::empty(), b@, cur as int);
        assert(rr == Ok::<(Seq<CellV>, int), (DecodeReason, int)>(
            (Seq::<CellV>::empty(), cur as int),
        ));
        assert(cells_view(row@) + Seq::<CellV>::empty() =~= cells_view(row@));
    }
    Ok((row, cur))
}

/// Decodes `n` rows of the definition, starting at `pos`.
pub fn decode_rows(d: &Definition, n: usize, b: &[u8], pos: usize) -> (r: Decoded<
    Vec<Vec<DecodedData>>,
>)
    requires
        pos <= b@.len(),
    ensures
        match r {
            Ok((rows, p)) => sdec_rows(*d, n as nat, b@, pos as int) == Ok::<
                (Seq<Seq<CellV>>, int),
                (DecodeReason, int),
            >((rows_view(rows@), p as int)) && pos <= p <= b@.len(),
            Err(e) => sdec_rows(*d, n as nat, b@, pos as int) is Err && e == dec_err(
                sdec_rows(*d, n as nat, b@, pos as int)->Err_0,
            ),
        },
    decreases *d, n, 1nat,
{
    let mut rows: Vec<Vec<DecodedData>> = Vec::new();
    let mut cur: usize = pos;
    let mut i: usize = 0;
    proof {
        assert(rows_view(rows@) =~= Seq::<Seq<CellV>>::empty());
        let r0 = sdec_rows(*d, n as nat, b@, pos as int);
        if r0 is Ok {
            assert(Seq::<Seq<CellV>>::empty() + r0->Ok_0.0 =~= r0->Ok_0.0);
        }
    }
    while i < n
        invariant
            pos <= cur <= b@.len(),
            i <= n,
            rows_view(rows@).len() == i,
            ({
                let rr = sdec_rows(*d, (n - i) as nat, b@, cur as int);
                let whole = sdec_rows(*d, n as nat, b@, pos as int);
                &&& (rr is Ok ==> whole == Ok::<(Seq<Seq<CellV>>, int), (DecodeReason, int)>(
                    (rows_view(rows@) + rr->Ok_0.0, rr->Ok_0.1),
                ))
                &&& (rr is Err ==> whole == Err::<(Seq<Seq<CellV>>, int), (DecodeReason, int)>(
                    rr->Err_0,
                ))
            }),
        decreases n - i,
    {
        let ghost oldrowsv = rows_view(rows@);
        let ghost oldcur = cur as int;
        let ghost m = (n - i) as nat;
        match decode_row(&d.fields, b, cur) {
            Ok((row, p)) => {
                proof {
                    lemma_rows_view_push(rows@, row);
                }
                let ghost rv = cells_view(row@);
                rows.push(row);
                cur = p;
                proof {
                    assert(rows_view(rows@) == oldrowsv.push(rv));
                    let rr2 = sdec_rows(*d, (m - 1) as nat, b@, cur as int);
                    if rr2 is Ok {
                        assert(sdec_rows(*d, m, b@, oldcur) == Ok::<
                            (Seq<Seq<CellV>>, int),
                            (DecodeReason, int),
                        >((seq![rv] + rr2->Ok_0.0, rr2->Ok_0.1)));
                        assert(oldrowsv + (seq![rv] + rr2->Ok_0.0) =~= rows_view(rows@)
                            + rr2->Ok_0.0);
                    } else {
                        assert(sdec_rows(*d, m, b@, oldcur) == Err::<
                            (Seq<Seq<CellV>>, int),
                            (DecodeReason, int),
                        >(rr2->Err_0));
                    }
                }
            },
            Err(e) => {
                proof {
                    assert(sdec_rows(*d, m, b@, oldcur) == Err::<
                        (Seq<Seq<CellV>>, int),
                        (DecodeReason, int),
                    >(sdec_cells(d.fields@, b@, oldcur)->Err_0));
                }
                return Err(e);
            },
        }
        i += 1;
    }
    proof {
        assert(rows_view(rows@) + Seq::<Seq<CellV>>::empty() =~= rows_view(rows@));
    }
    Ok((rows, cur))
}


/// Appends the byte image of a narrow string, or reports that it is too
/// long for its length prefix.
pub fn encode_str8(s: &str, out: &mut Vec<u8>) -> (r: Result<(), RpfmError>)
    ensures
        match r {
            Ok(_) => encode_utf8(s@).len() <= 0xFFFF && final(out)@ == old(out)@
                + spec_str8_bytes(s@),
            Err(e) => e == RpfmError::EncodeError && encode_utf8(s@).len() > 0xFFFF && *final(out) == *old(out),
        },
{
    let mut bytes = s.as_bytes_vec();
    if bytes.len() > 0xFFFF {
        return Err(RpfmError::EncodeError);
    }
    let n = bytes.len() as u16;
    write_u16(out, n);
    out.append(&mut bytes);
    proof {
        assert(final(out)@ =~= old(out)@ + spec_str8_bytes(s@));
    }
    Ok(())
}

/// Appends the byte image of a wide string, or reports that it is too long
/// for its length prefix.
pub fn encode_str16(s: &str, out: &mut Vec<u8>) -> (r: Result<(), RpfmError>)
    ensures
        match r {
            Ok(_) => spec_encode_utf16(s@).len() <= 0xFFFF && final(out)@ == old(out)@
                + spec_str16_bytes(s@),
            Err(e) => e == RpfmError::EncodeError && spec_encode_utf16(s@).len() > 0xFFFF && *final(out) == *old(out),
        },
{
    let units = crate::text::encode_utf16(s);
    if units.len() > 0xFFFF {
        return Err(RpfmError::EncodeError);
    }
    let n = units.len() as u16;
    write_u16(out, n);
    let mut i: usize = 0;
    let ghost mid = out@;
    proof {
        assert(out@ + units_to_bytes(units@.subrange(0, 0)) =~= out@);
    }
    while i < units.len()
        invariant
            i <= units@.len(),
            out@ == mid + units_to_bytes(units@.subrange(0, i as int)),
        decreases units@.len() - i,
    {
        proof {
            lemma_units_to_bytes_push(units@.subrange(0, i as int), units@[i as int]);
            assert(units@.subrange(0, i as int).push(units@[i as int]) =~= units@.subrange(
                0,
                i + 1,
            ));
        }
        write_u16(out, units[i]);
        i += 1;
    }
    proof {
        assert(units@.subrange(0, units@.len() as int) =~= units@);
        assert(final(out)@ =~= old(out)@ + spec_str16_bytes(s@));
    }
    Ok(())
}

/// Appends the byte image of one cell, or reports the first part that does
/// not fit its length prefix; on failure nothing of the cell remains, only
/// what was already in the buffer.
pub fn encode_cell(c: &DecodedData, out: &mut Vec<u8>) -> (r: Result<(), RpfmError>)
    ensures
        match r {
            Ok(_) => cell_len_ok(cell_view(*c)) && final(out)@ == old(out)@ + spec_enc_cell(
                cell_view(*c),
            ),
            Err(e) => e == RpfmError::EncodeError && !cell_len_ok(cell_view(*c)) && old(out)@.is_prefix_of(final(out)@),
        },
    decreases *c,
{
    match c {
        DecodedData::Boolean(x) => {
            out.push(if *x {
                1
            } else {
                0
            });
            proof {
                assert(final(out)@ =~= old(out)@ + spec_enc_cell(cell_view(*c)));
            }
            Ok(())
        },
        DecodedData::I16(x) => {
            write_u16(out, u16_of_i16(*x));
            Ok(())
        },
        DecodedData::I32(x) => {
            write_u32(out, u32_of_i32(*x));
            Ok(())
        },
        DecodedData::I64(x) => {
            write_u64(out, u64_of_i64(*x));
            Ok(())
        },
        DecodedData::F32(bits) => {
            write_u32(out, *bits);
            Ok(())
        },
        DecodedData::StringU8(s) => encode_str8(s.as_str(), out),
        DecodedData::StringU16(s) => encode_str16(s.as_str(), out),
        DecodedData::OptionalStringU8(s) => {
            if s.as_str().unicode_len() == 0 {
                out.push(0);
                proof {
                    assert(s@ =~= Seq::<char>::empty());
                    assert(final(out)@ =~= old(out)@ + spec_enc_cell(cell_view(*c)));
                }
                Ok(())
            } else {
                out.push(1);
                let r = encode_str8(s.as_str(), out);
                proof {
                    if r is Ok {
                        assert(final(out)@ =~= old(out)@ + spec_enc_cell(cell_view(*c)));
                    } else {
                        assert(old(out)@.is_prefix_of(final(out)@));
                    }
                }
                r
            }
        },
        DecodedData::OptionalStringU16(s) => {
            if s.as_str().unicode_len() == 0 {
                out.push(0);
                proof {
                    assert(s@ =~= Seq::<char>::empty());
                    assert(final(out)@ =~= old(out)@ + spec_enc_cell(cell_view(*c)));
                }
                Ok(())
            } else {
                out.push(1);
                let r = encode_str16(s.as_str(), out);
                proof {
                    if r is Ok {
                        assert(final(out)@ =~= old(out)@ + spec_enc_cell(cell_view(*c)));
                    } else {
                        assert(old(out)@.is_prefix_of(final(out)@));
                    }
                }
                r
            }
        },
        DecodedData::SequenceU16(rows) => {
            proof {
                lemma_rows_view_len(rows@);
            }
            if rows.len() > 0xFFFF {
                return Err(RpfmError::EncodeError);
            }
            write_u16(out, rows.len() as u16);
            let r = encode_rows(rows, out);
            proof {
                if r is Ok {
                    assert(final(out)@ =~= old(out)@ + spec_enc_cell(cell_view(*c)));
                } else {
                    assert(old(out)@.is_prefix_of(final(out)@));
                }
            }
            r
        },
        DecodedData::SequenceU32(rows) => {
            proof {
                lemma_rows_view_len(rows@);
            }
            if rows.len() as u64 > 0xFFFFFFFFu64 {
                return Err(RpfmError::EncodeError);
            }
            write_u32(out, rows.len() as u32);
            let r = encode_rows(rows, out);
            proof {
                if r is Ok {
                    assert(final(out)@ =~= old(out)@ + spec_enc_cell(cell_view(*c)));
                } else {
                    assert(old(out)@.is_prefix_of(final(out)@));
                }
            }
            r
        },
    }
}

/// Appends the byte image of one row, cell after cell.
pub fn encode_row(row: &Vec<DecodedData>, out: &mut Vec<u8>) -> (r: Result<(), RpfmError>)
    ensures
        match r {
            Ok(_) => row_len_ok(cells_view(row@)) && final(out)@ == old(out)@ + spec_enc_row(
                cells_view(row@),
            ),
            Err(e) => e == RpfmError::EncodeError && !row_len_ok(cells_view(row@)) && old(out)@.is_prefix_of(final(out)@),
        },
    decreases *row, 0nat,
{
    let ghost base = out@;
    let mut j: usize = 0;
    proof {
        lemma_cells_view_len(row@);
        assert(base + spec_enc_row(cells_view(row@).subrange(0, 0)) =~= base);
    }
    while j < row.len()
        invariant
            base == old(out)@,
            j <= row@.len(),
            cells_view(row@).len() == row@.len(),
            forall|k: int|
                0 <= k < row@.len() ==> cells_view(row@)[k] == cell_view(#[trigger] row@[k]),
            out@ == base + spec_enc_row(cells_view(row@).subrange(0, j as int)),
            forall|k: int| 0 <= k < j ==> cell_len_ok(#[trigger] cells_view(row@)[k]),
        decreases row@.len() - j,
    {
        let ghost prefix = cells_view(row@).subrange(0, j as int);
        let r = encode_cell(&row[j], out);
        match r {
            Ok(_) => {},
            Err(e) => {
                proof {
                    assert(!cell_len_ok(cells_view(row@)[j as int]));
                    assert(!row_len_ok(cells_view(row@)));
                    assert(base.is_prefix_of(out@));
                }
                return Err(e);
            },
        }
        proof {
            lemma_enc_row_push(prefix, cells_view(row@)[j as int]);
            assert(prefix.push(cells_view(row@)[j as int]) =~= cells_view(row@).subrange(
                0,
                j + 1,
            ));
        }
        j += 1;
    }
    proof {
        assert(cells_view(row@).subrange(0, row@.len() as int) =~= cells_view(row@));
    }
    Ok(())
}

/// Appends the byte image of a row list, row after row.
pub fn encode_rows(rows: &Vec<Vec<DecodedData>>, out: &mut Vec<u8>) -> (r: Result<(), RpfmError>)
    ensures
        match r {
            Ok(_) => rows_len_ok(rows_view(rows@)) && final(out)@ == old(out)@ + spec_enc_rows(
                rows_view(rows@),
            ),
            Err(e) => e == RpfmError::EncodeError && !rows_len_ok(rows_view(rows@)) && old(out)@.is_prefix_of(final(out)@),
        },
    decreases *rows, 1nat,
{
    let ghost base = out@;
    let mut i: usize = 0;
    proof {
        lemma_rows_view_len(rows@);
        assert(base + spec_enc_rows(rows_view(rows@).subrange(0, 0)) =~= base);
    }
    while i < rows.len()
        invariant
            base == old(out)@,
            i <= rows@.len(),
            rows_view(rows@).len() == rows@.len(),
            forall|k: int|
                0 <= k < rows@.len() ==> rows_view(rows@)[k] == cells_view((#[trigger] rows@[k])@),
            out@ == base + spec_enc_rows(rows_view(rows@).subrange(0, i as int)),
            forall|k: int| 0 <= k < i ==> row_len_ok(#[trigger] rows_view(rows@)[k]),
        decreases rows@.len() - i,
    {
        let ghost prefix = rows_view(rows@).subrange(0, i as int);
        let r = encode_row(&rows[i], out);
        match r {
            Ok(_) => {},
            Err(e) => {
                proof {
                    assert(!row_len_ok(rows_view(rows@)[i as int]));
                    assert(!rows_len_ok(rows_view(rows@)));
                    assert(base.is_prefix_of(out@));
                }
                return Err(e);
            },
        }
        proof {
            lemma_enc_rows_push(prefix, rows_view(rows@)[i as int]);
            assert(prefix.push(rows_view(rows@)[i as int]) =~= rows_view(rows@).subrange(
                0,
                i + 1,
            ));
        }
        i += 1;
    }
    proof {
        assert(rows_view(rows@).subrange(0, rows@.len() as int) =~= rows_view(rows@));
    }
    Ok(())
}


/// A copy of a row list whose model is unchanged.
pub fn clone_rows(rows: &Vec<Vec<DecodedData>>) -> (r: Vec<Vec<DecodedData>>)
    ensures
        rows_view(r@) == rows_view(rows@),
    decreases *rows, 2nat,
{
    proof {
        lemma_rows_view_len(rows@);
    }
    let mut out: Vec<Vec<DecodedData>> = Vec::new();
    let mut i: usize = 0;
    while i < rows.len()
        invariant
            i <= rows@.len(),
            rows_view(rows@).len() == rows@.len(),
            forall|k: int|
                0 <= k < rows@.len() ==> rows_view(rows@)[k] == cells_view((#[trigger] rows@[k])@),
            rows_view(out@).len() == i,
            forall|k: int| 0 <= k < i ==> rows_view(out@)[k] == rows_view(rows@)[k],
        decreases rows@.len() - i,
    {
        let row = clone_row(&rows[i]);
        proof {
            assert(out@.push(row).drop_last() =~= out@);
        }
        out.push(row);
        proof {
            lemma_rows_view_len(out@);
        }
        i += 1;
    }
    proof {
        lemma_rows_view_len(out@);
        assert(rows_view(out@) =~= rows_view(rows@));
    }
    out
}

/// A copy of one row whose model is unchanged.
pub fn clone_row(row: &Vec<DecodedData>) -> (r: Vec<DecodedData>)
    ensures
        cells_view(r@) == cells_view(row@),
    decreases *row, 1nat,
{
    proof {
        lemma_cells_view_len(row@);
    }
    let mut out: Vec<DecodedData> = Vec::new();
    let mut j: usize = 0;
    while j < row.len()
        invariant
            j <= row@.len(),
            cells_view(row@).len() == row@.len(),
            forall|k: int|
                0 <= k < row@.len() ==> cells_view(row@)[k] == cell_view(#[trigger] row@[k]),
            cells_view(out@).len() == j,
            forall|k: int| 0 <= k < j ==> cells_view(out@)[k] == cells_view(row@)[k],
        decreases row@.len() - j,
    {
        let c = row[j].clone();
        proof {
            assert(out@.push(c).drop_last() =~= out@);
        }
        out.push(c);
        proof {
            lemma_cells_view_len(out@);
        }
        j += 1;
    }
    proof {
        lemma_cells_view_len(out@);
        assert(cells_view(out@) =~= cells_view(row@));
    }
    out
}

impl Clone for DecodedData {
    /// A copy whose model is unchanged.
    fn clone(&self) -> (r: Self)
        ensures
            cell_view(r) == cell_view(*self),
        decreases *self, 0nat,
    {
        match self {
            DecodedData::Boolean(b) => DecodedData::Boolean(*b),
            DecodedData::I16(x) => DecodedData::I16(*x),
            DecodedData::I32(x) => DecodedData::I32(*x),
            DecodedData::I64(x) => DecodedData::I64(*x),
            DecodedData::F32(bits) => DecodedData::F32(*bits),
            DecodedData::StringU8(s) => DecodedData::StringU8(s.clone()),
            DecodedData::StringU16(s) => DecodedData::StringU16(s.clone()),
            DecodedData::OptionalStringU8(s) => DecodedData::OptionalStringU8(s.clone()),
            DecodedData::OptionalStringU16(s) => DecodedData::OptionalStringU16(s.clone()),
            DecodedData::SequenceU16(rows) => DecodedData::SequenceU16(clone_rows(rows)),
            DecodedData::SequenceU32(rows) => DecodedData::SequenceU32(clone_rows(rows)),
        }
    }
}

} // verus!
