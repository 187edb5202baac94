//! The table model: one definition plus its decoded rows.
//!
//! A table's binary image is a `u32` row count followed by the rows, each
//! row the concatenation of its cells in field order; decoding consumes the
//! whole buffer or fails.  The two round-trip laws at the end state that
//! decode and encode are exact inverses: decoding an encoded table yields
//! the same rows, and re-encoding a decoded table reproduces the input
//! byte for byte — in particular float cells, which are carried as raw bit
//! patterns and never reformatted by the codec.

use crate::cell::cell_view;
use crate::cell::cell_wf;
use crate::cell::cells_view;
use crate::cell::dec_err;
use crate::cell::decode_rows;
use crate::cell::encode_rows;
use crate::cell::lemma_cells_view_len;
use crate::cell::lemma_dec_enc_rows;
use crate::cell::lemma_enc_dec_rows;
use crate::cell::lemma_rows_view_len;
use crate::cell::lemma_subrange_split;
use crate::cell::row_len_ok;
use crate::cell::row_wf;
use crate::cell::rows_len_ok;
use crate::cell::rows_view;
use crate::cell::rows_wf;
use crate::cell::CellV;
use crate::cell::DecodedData;
use crate::cursor::lemma_le_bytes_auto;
use crate::cursor::read_u32;
use crate::cursor::write_u32;
use crate::error::DecodeReason;
use crate::error::RpfmError;
use crate::cursor::spec_i32_of_u32;
use crate::schema::Definition;
use crate::schema::Schema;
use crate::schema::Field;
use crate::schema::FieldType;
use vstd::bytes::spec_u32_from_le_bytes;
use vstd::bytes::spec_u32_to_le_bytes;
use vstd::prelude::*;

verus! {

/// The byte image of a whole table: row count, then the rows.
pub open spec fn spec_enc_table(rows: Seq<Seq<CellV>>) -> Seq<u8> {
    spec_u32_to_le_bytes(rows.len() as u32) + crate::cell::spec_enc_rows(rows)
}

/// Decodes a whole table image: the declared rows, consuming every byte.
pub open spec fn sdec_table(d: Definition, b: Seq<u8>) -> Result<
    Seq<Seq<CellV>>,
    (DecodeReason, int),
> {
    if 4 <= b.len() {
        let n = spec_u32_from_le_bytes(b.subrange(0, 4));
        match crate::cell::sdec_rows(d, n as nat, b, 4) {
            Ok((rows, p)) => {
                if p == b.len() {
                    Ok(rows)
                } else {
                    Err((DecodeReason::TrailingBytes, p))
                }
            },
            Err(e) => Err(e),
        }
    } else {
        Err((DecodeReason::UnexpectedEnd, 0))
    }
}

/// Whether one cell matches the declared field type, recursively.
pub fn cell_matches(c: &DecodedData, ft: &FieldType) -> (r: bool)
    ensures
        r == cell_wf(cell_view(*c), *ft),
    decreases *c,
{
    match (c, ft) {
        (DecodedData::Boolean(_), FieldType::Boolean) => true,
        (DecodedData::I16(_), FieldType::I16) => true,
        (DecodedData::I32(_), FieldType::I32) => true,
        (DecodedData::I64(_), FieldType::I64) => true,
        (DecodedData::F32(_), FieldType::F32) => true,
        (DecodedData::StringU8(_), FieldType::StringU8) => true,
        (DecodedData::StringU16(_), FieldType::StringU16) => true,
        (DecodedData::OptionalStringU8(_), FieldType::OptionalStringU8) => true,
        (DecodedData::OptionalStringU16(_), FieldType::OptionalStringU16) => true,
        (DecodedData::SequenceU16(rows), FieldType::SequenceU16(d)) => rows_match(rows, &d.fields),
        (DecodedData::SequenceU32(rows), FieldType::SequenceU32(d)) => rows_match(rows, &d.fields),
        _ => false,
    }
}

/// Whether one row matches the field list: one cell per field, each of the
/// declared shape.
pub fn row_matches(row: &Vec<DecodedData>, fields: &Vec<Field>) -> (r: bool)
    ensures
        r == row_wf(cells_view(row@), fields@),
    decreases *row, 0nat,
{
    proof {
        lemma_cells_view_len(row@);
    }
    if row.len() != fields.len() {
        return false;
    }
    let mut j: usize = 0;
    while j < row.len()
        invariant
            j <= row@.len(),
            row@.len() == fields@.len(),
            cells_view(row@).len() == row@.len(),
            forall|k: int|
                0 <= k < row@.len() ==> cells_view(row@)[k] == cell_view(#[trigger] row@[k]),
            forall|k: int|
                0 <= k < j ==> cell_wf(#[trigger] cells_view(row@)[k], fields@[k].field_type),
        decreases row@.len() - j,
    {
        if !cell_matches(&row[j], &fields[j].field_type) {
            proof {
                assert(!cell_wf(cells_view(row@)[j as int], fields@[j as int].field_type));
            }
            return false;
        }
        j += 1;
    }
    true
}

/// Whether every row matches the field list.
pub fn rows_match(rows: &Vec<Vec<DecodedData>>, fields: &Vec<Field>) -> (r: bool)
    ensures
        r == rows_wf(rows_view(rows@), fields@),
    decreases *rows, 1nat,
{
    proof {
        lemma_rows_view_len(rows@);
    }
    let mut i: usize = 0;
    while i < rows.len()
        invariant
            i <= rows@.len(),
            rows_view(rows@).len() == rows@.len(),
            forall|k: int|
                0 <= k < rows@.len() ==> rows_view(rows@)[k] == cells_view((#[trigger] rows@[k])@),
            forall|k: int| 0 <= k < i ==> row_wf(#[trigger] rows_view(rows@)[k], fields@),
        decreases rows@.len() - i,
    {
        if !row_matches(&rows[i], fields) {
            proof {
                assert(!row_wf(rows_view(rows@)[i as int], fields@));
            }
            return false;
        }
        i += 1;
    }
    true
}

/// One table: a definition and the decoded rows that conform to it.
pub struct Table {
    definition: Definition,
    rows: Vec<Vec<DecodedData>>,
}

impl Table {
    /// The rows' mathematical model.
    pub closed spec fn spec_rows(&self) -> Seq<Seq<CellV>> {
        rows_view(self.rows@)
    }

    /// The definition this table was decoded against.
    pub closed spec fn spec_definition(&self) -> Definition {
        self.definition
    }

    /// Every row has one cell per field, each cell of its declared shape.
    pub closed spec fn wf(&self) -> bool {
        rows_wf(self.spec_rows(), self.definition.fields@)
    }

    /// An empty table over the given definition.
    pub fn new(definition: Definition) -> (t: Table)
        ensures
            t.spec_definition() == definition,
            t.spec_rows().len() == 0,
            t.wf(),
    {
        let t = Table { definition, rows: Vec::new() };
        proof {
            lemma_rows_view_len(t.rows@);
        }
        t
    }

    /// A table from the given rows; each row must match the definition.
    pub fn from_rows(definition: Definition, rows: Vec<Vec<DecodedData>>) -> (r: Result<
        Table,
        RpfmError,
    >)
        ensures
            match r {
                Ok(t) => {
                    &&& rows_wf(rows_view(rows@), definition.fields@)
                    &&& t.spec_definition() == definition
                    &&& t.spec_rows() == rows_view(rows@)
                    &&& t.wf()
                },
                Err(e) => {
                    &&& e == RpfmError::RowWidthMismatch
                    &&& !rows_wf(rows_view(rows@), definition.fields@)
                },
            },
    {
        if rows_match(&rows, &definition.fields) {
            Ok(Table { definition, rows })
        } else {
            Err(RpfmError::RowWidthMismatch)
        }
    }

    /// The definition.
    pub fn get_ref_definition(&self) -> (d: &Definition)
        ensures
            *d == self.spec_definition(),
    {
        &self.definition
    }

    /// The rows.
    pub fn get_ref_table_data(&self) -> (rows: &Vec<Vec<DecodedData>>)
        ensures
            rows_view(rows@) == self.spec_rows(),
    {
        &self.rows
    }

    /// Replaces the rows; each new row must match the definition, else the
    /// table is left unchanged.
    pub fn set_table_data(&mut self, rows: Vec<Vec<DecodedData>>) -> (r: Result<(), RpfmError>)
        ensures
            match r {
                Ok(_) => {
                    &&& rows_wf(rows_view(rows@), old(self).spec_definition().fields@)
                    &&& final(self).spec_definition() == old(self).spec_definition()
                    &&& final(self).spec_rows() == rows_view(rows@)
                    &&& final(self).wf()
                },
                Err(e) => {
                    &&& e == RpfmError::RowWidthMismatch
                    &&& !rows_wf(rows_view(rows@), old(self).spec_definition().fields@)
                    &&& *final(self) == *old(self)
                },
            },
    {
        if rows_match(&rows, &self.definition.fields) {
            self.rows = rows;
            Ok(())
        } else {
            Err(RpfmError::RowWidthMismatch)
        }
    }

    /// Decodes a table image against the definition.  Succeeds exactly when
    /// the spec decoder does, and then holds exactly the decoded rows.
    pub fn decode(definition: Definition, b: &[u8]) -> (r: Result<Table, RpfmError>)
        ensures
            match r {
                Ok(t) => {
                    &&& sdec_table(definition, b@) is Ok
                    &&& t.spec_definition() == definition
                    &&& t.spec_rows() == sdec_table(definition, b@)->Ok_0
                    &&& t.wf()
                },
                Err(e) => {
                    &&& sdec_table(definition, b@) is Err
                    &&& e == dec_err(sdec_table(definition, b@)->Err_0)
                },
            },
    {
        let len = b.len();
        if len < 4 {
            return Err(
                RpfmError::DecodeError { offset: 0, reason: DecodeReason::UnexpectedEnd },
            );
        }
        let n32 = read_u32(b, 0);
        let n = n32 as usize;
        proof {
            assert(n == n32 as nat);
        }
        match decode_rows(&definition, n, b, 4) {
            Ok((rows, p)) => {
                if p != len {
                    return Err(
                        RpfmError::DecodeError { offset: p, reason: DecodeReason::TrailingBytes },
                    );
                }
                proof {
                    lemma_enc_dec_rows(definition, n32 as nat, b@, 4);
                }
                Ok(Table { definition, rows })
            },
            Err(e) => Err(e),
        }
    }

    /// Encodes the table.  Succeeds exactly when every variable-length part
    /// fits its length prefix, and then yields the spec image of the rows.
    pub fn encode(&self) -> (r: Result<Vec<u8>, RpfmError>)
        ensures
            match r {
                Ok(bytes) => {
                    &&& rows_len_ok(self.spec_rows())
                    &&& self.spec_rows().len() <= 0xFFFFFFFF
                    &&& bytes@ == spec_enc_table(self.spec_rows())
                },
                Err(e) => {
                    &&& e == RpfmError::EncodeError
                    &&& !(rows_len_ok(self.spec_rows()) && self.spec_rows().len() <= 0xFFFFFFFF)
                },
            },
    {
        proof {
            lemma_rows_view_len(self.rows@);
        }
        if self.rows.len() as u64 > 0xFFFFFFFFu64 {
            return Err(RpfmError::EncodeError);
        }
        let mut out: Vec<u8> = Vec::new();
        write_u32(&mut out, self.rows.len() as u32);
        match encode_rows(&self.rows, &mut out) {
            Ok(_) => {
                proof {
                    assert(out@ =~= spec_enc_table(self.spec_rows()));
                }
                Ok(out)
            },
            Err(e) => Err(e),
        }
    }

    /// The number of rows.
    pub fn row_count(&self) -> (n: usize)
        ensures
            n == self.spec_rows().len(),
    {
        proof {
            lemma_rows_view_len(self.rows@);
        }
        self.rows.len()
    }
}

/// Law: decoding an encoded table yields exactly the rows that were
/// encoded.  Holds for every well-formed row set whose variable-length
/// parts fit their length prefixes.
pub proof fn lemma_table_round_trip_from_rows(d: Definition, rows: Seq<Seq<CellV>>)
    requires
        rows_wf(rows, d.fields@),
        rows_len_ok(rows),
        rows.len() <= 0xFFFFFFFF,
    ensures
        sdec_table(d, spec_enc_table(rows)) == Ok::<Seq<Seq<CellV>>, (DecodeReason, int)>(rows),
{
    lemma_le_bytes_auto();
    let b = spec_enc_table(rows);
    let n = rows.len() as u32;
    assert(b.subrange(0, b.len() as int) =~= b);
    lemma_subrange_split(b, 0, spec_u32_to_le_bytes(n), crate::cell::spec_enc_rows(rows));
    assert(spec_u32_from_le_bytes(b.subrange(0, 4)) == n);
    assert(n as nat == rows.len());
    lemma_dec_enc_rows(rows, d, b, 4);
}

/// Law: re-encoding a decoded table reproduces the input byte for byte.
/// Holds for every byte sequence the decoder accepts; in particular float
/// cells, carried as raw bit patterns, are returned unchanged by a decode
/// followed by an encode, whatever is done to display them in between.
pub proof fn lemma_table_round_trip_from_bytes(d: Definition, b: Seq<u8>)
    requires
        sdec_table(d, b) is Ok,
    ensures
        ({
            let rows = sdec_table(d, b)->Ok_0;
            &&& rows_wf(rows, d.fields@)
            &&& rows_len_ok(rows)
            &&& rows.len() <= 0xFFFFFFFF
            &&& spec_enc_table(rows) == b
        }),
{
    lemma_le_bytes_auto();
    let n = spec_u32_from_le_bytes(b.subrange(0, 4));
    lemma_enc_dec_rows(d, n as nat, b, 4);
    let rows = sdec_table(d, b)->Ok_0;
    assert(rows.len() == n as nat);
    assert(rows.len() as u32 == n);
    assert(spec_u32_to_le_bytes(rows.len() as u32) =~= b.subrange(0, 4));
    assert(spec_enc_table(rows) =~= b);
}


/// The rows of a table list, concatenated in order.
pub open spec fn spec_concat_rows(tables: Seq<Table>) -> Seq<Seq<CellV>>
    decreases tables.len(),
{
    if tables.len() == 0 {
        seq![]
    } else {
        tables[0].spec_rows() + spec_concat_rows(tables.drop_first())
    }
}

impl Table {
    /// Takes the table apart into its definition and rows.
    pub fn into_parts(self) -> (r: (Definition, Vec<Vec<DecodedData>>))
        ensures
            r.0 == self.spec_definition(),
            rows_view(r.1@) == self.spec_rows(),
    {
        (self.definition, self.rows)
    }
}

/// Concatenates the rows of tables sharing one definition under that
/// definition: the merge-tables operation.  The first table gives the
/// definition; every row of every table must match it, else nothing is
/// merged.
pub fn merge_tables(tables: Vec<Table>) -> (r: Result<Table, RpfmError>)
    ensures
        match r {
            Ok(t) => {
                &&& tables@.len() > 0
                &&& t.spec_definition() == tables@[0].spec_definition()
                &&& t.spec_rows() == spec_concat_rows(tables@)
                &&& t.wf()
            },
            Err(e) => {
                ||| (tables@.len() == 0 && e == RpfmError::FormatError)
                ||| (tables@.len() > 0 && e == RpfmError::RowWidthMismatch && !rows_wf(
                    spec_concat_rows(tables@),
                    tables@[0].spec_definition().fields@,
                ))
            },
        },
{
    let ghost orig = tables@;
    let mut tables = tables;
    if tables.len() == 0 {
        return Err(RpfmError::FormatError);
    }
    let first = tables.remove(0);
    proof {
        assert(orig.remove(0) =~= orig.drop_first());
        assert(orig[0] == first);
    }
    let (definition, mut all_rows) = first.into_parts();
    let ghost firstdef = definition;
    let mut i: usize = 0;
    let ghost rest = orig.drop_first();
    proof {
        lemma_rows_view_len(all_rows@);
        assert(rest.subrange(0, 0) =~= Seq::<Table>::empty());
        assert(orig[0].spec_rows() + Seq::<Seq<CellV>>::empty() =~= orig[0].spec_rows());
        assert(spec_concat_rows(Seq::<Table>::empty()) =~= Seq::<Seq<CellV>>::empty());
    }
    while i < tables.len()
        invariant
            i <= tables@.len(),
            tables@ == rest,
            rest == orig.drop_first(),
            orig.len() == 1 + rest.len(),
            rows_view(all_rows@) == orig[0].spec_rows() + spec_concat_rows(
                rest.subrange(0, i as int),
            ),
        decreases tables@.len() - i,
    {
        let t = &tables[i];
        let ghost before = all_rows@;
        let mut more = t.clone_rows();
        let ghost morev = more@;
        all_rows.append(&mut more);
        proof {
            lemma_rows_view_len(before);
            lemma_rows_view_len(all_rows@);
            lemma_rows_view_len(morev);
            assert forall|k: int| 0 <= k < all_rows@.len() implies rows_view(all_rows@)[k] == (
            rows_view(before) + rest[i as int].spec_rows())[k] by {
                if k < before.len() {
                    assert(all_rows@[k] == before[k]);
                } else {
                    assert(all_rows@[k] == morev[k - before.len()]);
                }
            }
            assert(rows_view(all_rows@) =~= rows_view(before) + rest[i as int].spec_rows());
            lemma_concat_rows_snoc(rest, i as int);
            assert((orig[0].spec_rows() + spec_concat_rows(rest.subrange(0, i as int)))
                + rest[i as int].spec_rows() =~= orig[0].spec_rows() + spec_concat_rows(
                rest.subrange(0, i + 1),
            ));
        }
        i += 1;
    }
    proof {
        assert(rest.subrange(0, rest.len() as int) =~= rest);
        assert(seq![orig[0]] + rest =~= orig);
        lemma_concat_rows_head(orig[0], rest);
    }
    match Table::from_rows(definition, all_rows) {
        Ok(t) => Ok(t),
        Err(e) => Err(e),
    }
}

/// One more table extends the concatenation by its rows.
proof fn lemma_concat_rows_snoc(tables: Seq<Table>, i: int)
    requires
        0 <= i < tables.len(),
    ensures
        spec_concat_rows(tables.subrange(0, i + 1)) == spec_concat_rows(tables.subrange(0, i))
            + tables[i].spec_rows(),
    decreases i,
{
    let pre = tables.subrange(0, i);
    let cur = tables.subrange(0, i + 1);
    if i == 0 {
        assert(cur[0] == tables[0]);
        assert(cur.drop_first() =~= Seq::<Table>::empty());
        assert(pre =~= Seq::<Table>::empty());
        assert(spec_concat_rows(cur) =~= spec_concat_rows(pre) + tables[0].spec_rows());
    } else {
        lemma_concat_rows_snoc(tables.drop_first(), i - 1);
        assert(cur[0] == tables[0]);
        assert(pre[0] == tables[0]);
        assert(cur.drop_first() =~= tables.drop_first().subrange(0, i));
        assert(pre.drop_first() =~= tables.drop_first().subrange(0, i - 1));
        assert(tables.drop_first()[i - 1] == tables[i]);
        assert(spec_concat_rows(cur) =~= spec_concat_rows(pre) + tables[i].spec_rows());
    }
}

/// The concatenation of a head table and the rest.
proof fn lemma_concat_rows_head(t: Table, rest: Seq<Table>)
    ensures
        spec_concat_rows(seq![t] + rest) == t.spec_rows() + spec_concat_rows(rest),
{
    let all = seq![t] + rest;
    assert(all[0] == t);
    assert(all.drop_first() =~= rest);
}

impl Table {
    /// A copy of the rows, cell for cell.
    pub fn clone_rows(&self) -> (r: Vec<Vec<DecodedData>>)
        ensures
            rows_view(r@) == self.spec_rows(),
    {
        crate::cell::clone_rows(&self.rows)
    }
}


/// Decodes a DB entry.  The entry starts with the version tag of its own
/// table; the matching definition is taken from the schema — in
/// best-effort mode the highest version at most the tag, for diagnostics
/// to flag the table as outdated — and the rows follow as a table image.
/// The second result says whether an older definition had to stand in.
pub fn decode_db(schema: &Schema, table_name: &str, b: &[u8], best_effort: bool) -> (r: Result<
    (Table, bool),
    RpfmError,
>)
    ensures
        ({
            let tag = spec_i32_of_u32(spec_u32_from_le_bytes(b@.subrange(0, 4)));
            let found = crate::schema::spec_resolve(
                schema.spec_entries(),
                table_name@,
                tag as int,
                best_effort,
            );
            let tail = b@.subrange(4, b@.len() as int);
            match r {
                Ok((t, outdated)) => {
                    &&& b@.len() >= 4
                    &&& found is Some
                    &&& crate::schema::def_eqv(found->0, t.spec_definition())
                    &&& sdec_table(t.spec_definition(), tail) == Ok::<
                        Seq<Seq<CellV>>,
                        (DecodeReason, int),
                    >(t.spec_rows())
                    &&& t.wf()
                    &&& outdated == (found->0.version != tag)
                },
                Err(e) => {
                    ||| (b@.len() < 4 && e == RpfmError::DecodeError {
                        offset: 0,
                        reason: DecodeReason::UnexpectedEnd,
                    })
                    ||| (b@.len() >= 4 && found is None && e == RpfmError::NoMatchingVersion)
                    ||| (b@.len() >= 4 && found is Some && exists|d: Definition|
                        #[trigger] crate::schema::def_eqv(found->0, d) && sdec_table(
                            d,
                            tail,
                        ) is Err && e == dec_err(sdec_table(d, tail)->Err_0))
                },
            }
        }),
{
    let len = b.len();
    if len < 4 {
        return Err(RpfmError::DecodeError { offset: 0, reason: DecodeReason::UnexpectedEnd });
    }
    let tag = crate::cursor::i32_of_u32(read_u32(b, 0));
    let resolved = match schema.resolve_version(table_name, tag, best_effort) {
        Ok(d) => d,
        Err(e) => {
            return Err(e);
        },
    };
    let outdated = resolved.version != tag;
    let definition = resolved.clone();
    let ghost defv = definition;
    let tail = vstd::slice::slice_subrange(b, 4, len);
    match Table::decode(definition, tail) {
        Ok(t) => {
            proof {
                let rr = sdec_table(t.spec_definition(), b@.subrange(4, b@.len() as int));
                assert(rr is Ok);
                assert(rr == Ok::<Seq<Seq<CellV>>, (DecodeReason, int)>(rr->Ok_0));
                assert(rr->Ok_0 == t.spec_rows());
            }
            Ok((t, outdated))
        },
        Err(e) => {
            proof {
                assert(crate::schema::def_eqv(
                    crate::schema::spec_resolve(
                        schema.spec_entries(),
                        table_name@,
                        tag as int,
                        best_effort,
                    )->0,
                    defv,
                ));
            }
            Err(e)
        },
    }
}

} // verus!
