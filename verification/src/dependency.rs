//! The reference resolver: per-column lookup tables.
//!
//! A field that references another table names a target table and column;
//! resolution scans every available copy of the target table, indexes the
//! key column's values, and builds a composite display string from the
//! configured lookup columns.  Tables are scanned in order, dependency-pack
//! tables first and currently open tables last, and for one key the pair
//! seen last wins — so an open, possibly edited copy takes precedence over
//! the dependency data, which `lemma_dependency_last_wins` states exactly.

use crate::cell::CellV;
use crate::cell::DecodedData;
use crate::error::RpfmError;
use crate::schema::Definition;
use crate::schema::Field;
use crate::table::Table;
use crate::text::string_from_chars;
use vstd::prelude::*;

verus! {

/// The decimal digit character for one value below ten.
pub open spec fn spec_digit(d: int) -> char {
    ((48 + d) as u8) as char
}

/// The decimal image of a natural number.
pub open spec fn spec_u64_dec(n: nat) -> Seq<char>
    decreases n,
{
    if n < 10 {
        seq![spec_digit(n as int)]
    } else {
        spec_u64_dec(n / 10).push(spec_digit((n % 10) as int))
    }
}

/// The decimal image of an integer, with a leading minus when negative.
pub open spec fn spec_i64_dec(x: int) -> Seq<char> {
    if x < 0 {
        seq!['-'] + spec_u64_dec((-x) as nat)
    } else {
        spec_u64_dec(x as nat)
    }
}

/// Appends the decimal image of a natural number.
pub fn push_u64_dec(n: u64, out: &mut Vec<char>)
    ensures
        final(out)@ == old(out)@ + spec_u64_dec(n as nat),
    decreases n,
{
    if n < 10 {
        out.push((48 + n as u8) as char);
        proof {
            assert(final(out)@ =~= old(out)@ + spec_u64_dec(n as nat));
        }
    } else {
        push_u64_dec(n / 10, out);
        out.push((48 + (n % 10) as u8) as char);
        proof {
            assert(final(out)@ =~= old(out)@ + spec_u64_dec(n as nat));
        }
    }
}

/// The decimal string of a signed integer.
pub fn i64_to_dec(x: i64) -> (s: String)
    ensures
        s@ == spec_i64_dec(x as int),
{
    let mut chars: Vec<char> = Vec::new();
    if x < 0 {
        chars.push('-');
        let mag: u64 = if x == i64::MIN {
            0x8000000000000000u64
        } else {
            (-x) as u64
        };
        proof {
            assert(mag as nat == (-(x as int)) as nat);
        }
        push_u64_dec(mag, &mut chars);
        proof {
            assert(chars@ =~= spec_i64_dec(x as int));
        }
    } else {
        push_u64_dec(x as u64, &mut chars);
    }
    string_from_chars(chars.as_slice())
}

/// The text a cell contributes as a key or lookup part: booleans and
/// integers in their canonical form, strings as they are.  A float or a
/// nested sequence has no key text.
pub open spec fn spec_cell_text(v: CellV) -> Option<Seq<char>> {
    match v {
        CellV::Bool(b) => Some(
            if b {
                seq!['t', 'r', 'u', 'e']
            } else {
                seq!['f', 'a', 'l', 's', 'e']
            },
        ),
        CellV::I16(x) => Some(spec_i64_dec(x as int)),
        CellV::I32(x) => Some(spec_i64_dec(x as int)),
        CellV::I64(x) => Some(spec_i64_dec(x as int)),
        CellV::Str8(s) => Some(s),
        CellV::Str16(s) => Some(s),
        CellV::OptStr8(s) => Some(s),
        CellV::OptStr16(s) => Some(s),
        _ => None,
    }
}

/// The text of one cell, when it has one.
pub fn cell_text(c: &DecodedData) -> (r: Option<String>)
    ensures
        match r {
            Some(s) => spec_cell_text(crate::cell::cell_view(*c)) == Some(s@),
            None => spec_cell_text(crate::cell::cell_view(*c)) is None,
        },
{
    match c {
        DecodedData::Boolean(b) => {
            let mut chars: Vec<char> = Vec::new();
            if *b {
                chars.push('t');
                chars.push('r');
                chars.push('u');
                chars.push('e');
                proof {
                    assert(chars@ =~= seq!['t', 'r', 'u', 'e']);
                }
            } else {
                chars.push('f');
                chars.push('a');
                chars.push('l');
                chars.push('s');
                chars.push('e');
                proof {
                    assert(chars@ =~= seq!['f', 'a', 'l', 's', 'e']);
                }
            }
            Some(string_from_chars(chars.as_slice()))
        },
        DecodedData::I16(x) => Some(i64_to_dec(*x as i64)),
        DecodedData::I32(x) => Some(i64_to_dec(*x as i64)),
        DecodedData::I64(x) => Some(i64_to_dec(*x)),
        DecodedData::StringU8(s) => Some(s.clone()),
        DecodedData::StringU16(s) => Some(s.clone()),
        DecodedData::OptionalStringU8(s) => Some(s.clone()),
        DecodedData::OptionalStringU16(s) => Some(s.clone()),
        DecodedData::F32(_) => None,
        DecodedData::SequenceU16(_) => None,
        DecodedData::SequenceU32(_) => None,
    }
}

/// One key-to-lookup pair.
pub type KvPair = (Seq<char>, Seq<char>);

/// Adds one pair: replaces the first pair at the same key, or appends.
pub open spec fn kv_upsert(entries: Seq<KvPair>, p: KvPair) -> Seq<KvPair>
    decreases entries.len(),
{
    if entries.len() == 0 {
        seq![p]
    } else if entries[0].0 == p.0 {
        seq![p] + entries.drop_first()
    } else {
        seq![entries[0]] + kv_upsert(entries.drop_first(), p)
    }
}

/// Folds a stream of pairs, each replacing an earlier one at its key.
pub open spec fn kv_fold(acc: Seq<KvPair>, more: Seq<KvPair>) -> Seq<KvPair>
    decreases more.len(),
{
    if more.len() == 0 {
        acc
    } else {
        kv_fold(kv_upsert(acc, more[0]), more.drop_first())
    }
}

/// The first pair at a key.
pub open spec fn kv_lookup(entries: Seq<KvPair>, key: Seq<char>) -> Option<Seq<char>>
    decreases entries.len(),
{
    if entries.len() == 0 {
        None
    } else if entries[0].0 == key {
        Some(entries[0].1)
    } else {
        kv_lookup(entries.drop_first(), key)
    }
}

/// The last pair at a key in a stream.
pub open spec fn kv_last_match(entries: Seq<KvPair>, key: Seq<char>) -> Option<Seq<char>>
    decreases entries.len(),
{
    if entries.len() == 0 {
        None
    } else if entries.last().0 == key {
        Some(entries.last().1)
    } else {
        kv_last_match(entries.drop_last(), key)
    }
}

/// Looking up after an upsert finds the new pair at its key and is
/// unchanged elsewhere.
proof fn lemma_kv_lookup_upsert(entries: Seq<KvPair>, p: KvPair, key: Seq<char>)
    ensures
        kv_lookup(kv_upsert(entries, p), key) == (if p.0 == key {
            Some(p.1)
        } else {
            kv_lookup(entries, key)
        }),
    decreases entries.len(),
{
    if entries.len() == 0 {
        let u = kv_upsert(entries, p);
        assert(u == seq![p]);
        assert(u[0] == p);
        assert(u.drop_first() =~= Seq::<KvPair>::empty());
        if p.0 != key {
            assert(kv_lookup(u, key) == kv_lookup(u.drop_first(), key));
            assert(kv_lookup(u, key) is None);
        }
    } else if entries[0].0 == p.0 {
        let u = kv_upsert(entries, p);
        assert(u == seq![p] + entries.drop_first());
        assert(u[0] == p);
        assert(u.drop_first() =~= entries.drop_first());
        if p.0 != key {
            assert(kv_lookup(u, key) == kv_lookup(entries.drop_first(), key));
            assert(kv_lookup(entries, key) == kv_lookup(entries.drop_first(), key));
        }
    } else {
        let u = kv_upsert(entries, p);
        assert(u == seq![entries[0]] + kv_upsert(entries.drop_first(), p));
        assert(u[0] == entries[0]);
        assert(u.len() == 1 + kv_upsert(entries.drop_first(), p).len());
        assert(u.drop_first() =~= kv_upsert(entries.drop_first(), p));
        lemma_kv_lookup_upsert(entries.drop_first(), p, key);
        if entries[0].0 == key {
            assert(kv_lookup(u, key) == Some(entries[0].1));
            assert(kv_lookup(entries, key) == Some(entries[0].1));
        } else {
            assert(kv_lookup(u, key) == kv_lookup(u.drop_first(), key));
            assert(kv_lookup(entries, key) == kv_lookup(entries.drop_first(), key));
        }
    }
}

/// The last pair among a head and a tail.
proof fn lemma_kv_last_match_head(p0: KvPair, rest: Seq<KvPair>, key: Seq<char>)
    ensures
        kv_last_match(seq![p0] + rest, key) == (match kv_last_match(rest, key) {
            Some(v) => Some(v),
            None => if p0.0 == key {
                Some(p0.1)
            } else {
                None
            },
        }),
    decreases rest.len(),
{
    let all = seq![p0] + rest;
    assert(all.len() == 1 + rest.len());
    if rest.len() == 0 {
        assert(all.last() == p0);
        assert(all.drop_last() =~= Seq::<KvPair>::empty());
        if p0.0 != key {
            assert(kv_last_match(all, key) == kv_last_match(all.drop_last(), key));
            assert(kv_last_match(all, key) is None);
        } else {
            assert(kv_last_match(all, key) == Some(p0.1));
        }
    } else {
        assert(all.last() == rest.last());
        assert(all.drop_last() =~= seq![p0] + rest.drop_last());
        lemma_kv_last_match_head(p0, rest.drop_last(), key);
        if rest.last().0 == key {
            assert(kv_last_match(all, key) == Some(rest.last().1));
            assert(kv_last_match(rest, key) == Some(rest.last().1));
        } else {
            assert(kv_last_match(all, key) == kv_last_match(all.drop_last(), key));
            assert(kv_last_match(rest, key) == kv_last_match(rest.drop_last(), key));
        }
    }
}

/// Law: resolution is last-writer-wins.  Folding a stream of key-lookup
/// pairs and then looking a key up finds the last pair of the stream at
/// that key, falling back to the accumulator.  Since open tables are
/// scanned after dependency tables, an open copy's pair for a key replaces
/// the dependency data's pair for the same key.
pub proof fn lemma_dependency_last_wins(acc: Seq<KvPair>, more: Seq<KvPair>, key: Seq<char>)
    ensures
        kv_lookup(kv_fold(acc, more), key) == (match kv_last_match(more, key) {
            Some(v) => Some(v),
            None => kv_lookup(acc, key),
        }),
    decreases more.len(),
{
    if more.len() == 0 {
    } else {
        let p0 = more[0];
        let rest = more.drop_first();
        lemma_dependency_last_wins(kv_upsert(acc, p0), rest, key);
        lemma_kv_lookup_upsert(acc, p0, key);
        assert(seq![p0] + rest =~= more);
        lemma_kv_last_match_head(p0, rest, key);
    }
}

/// Folding one more pair is one more upsert.
proof fn lemma_kv_fold_push(acc: Seq<KvPair>, more: Seq<KvPair>, p: KvPair)
    ensures
        kv_fold(acc, more.push(p)) == kv_upsert(kv_fold(acc, more), p),
    decreases more.len(),
{
    if more.len() == 0 {
        assert(more.push(p)[0] == p);
        assert(more.push(p).drop_first() =~= Seq::<KvPair>::empty());
        assert(kv_fold(acc, more.push(p)) == kv_fold(kv_upsert(acc, p), more.push(p).drop_first()));
        assert(kv_fold(kv_upsert(acc, p), Seq::<KvPair>::empty()) == kv_upsert(acc, p));
        assert(kv_fold(acc, more) == acc);
    } else {
        assert(more.push(p)[0] == more[0]);
        assert(more.push(p).drop_first() =~= more.drop_first().push(p));
        lemma_kv_fold_push(kv_upsert(acc, more[0]), more.drop_first(), p);
        assert(kv_fold(acc, more.push(p)) == kv_fold(
            kv_upsert(acc, more[0]),
            more.drop_first().push(p),
        ));
        assert(kv_fold(acc, more) == kv_fold(kv_upsert(acc, more[0]), more.drop_first()));
    }
}

/// The per-reference-field lookup table: raw key values of the referenced
/// column, each with its composite display string.
pub struct DependencyData {
    pub data: Vec<(String, String)>,
}

/// The model of the stored pairs.
pub open spec fn kv_view(data: Seq<(String, String)>) -> Seq<KvPair>
    decreases data,
{
    if data.len() == 0 {
        seq![]
    } else {
        kv_view(data.drop_last()).push((data.last().0@, data.last().1@))
    }
}

/// Index form of [`kv_view`].
pub proof fn lemma_kv_view_len(data: Seq<(String, String)>)
    ensures
        kv_view(data).len() == data.len(),
        forall|i: int|
            0 <= i < data.len() ==> kv_view(data)[i] == ((#[trigger] data[i]).0@, data[i].1@),
    decreases data,
{
    if data.len() > 0 {
        lemma_kv_view_len(data.drop_last());
        assert(forall|i: int| 0 <= i < data.len() - 1 ==> data.drop_last()[i] == data[i]);
    }
}

impl DependencyData {
    /// An empty lookup table.
    pub fn new() -> (d: DependencyData)
        ensures
            kv_view(d.data@).len() == 0,
    {
        let d = DependencyData { data: Vec::new() };
        proof {
            lemma_kv_view_len(d.data@);
        }
        d
    }

    /// Stores one pair, replacing the pair at the same key if one is
    /// there: the last writer wins.
    pub fn insert(&mut self, key: String, lookup: String)
        ensures
            kv_view(final(self).data@) == kv_upsert(kv_view(old(self).data@), (key@, lookup@)),
    {
        proof {
            lemma_kv_view_len(self.data@);
        }
        let ghost oldv = kv_view(self.data@);
        let n = self.data.len();
        let mut i: usize = 0;
        while i < n
            invariant
                i <= n,
                n == self.data@.len(),
                *self == *old(self),
                oldv == kv_view(self.data@),
                oldv.len() == n,
                forall|k: int|
                    0 <= k < n ==> oldv[k] == ((#[trigger] self.data@[k]).0@, self.data@[k].1@),
                forall|k: int| 0 <= k < i ==> (#[trigger] oldv[k]).0 != key@,
            decreases n - i,
        {
            if self.data[i].0 == key {
                proof {
                    lemma_kv_upsert_at(oldv, (key@, lookup@), i as int);
                }
                self.data.set(i, (key, lookup));
                proof {
                    lemma_kv_view_len(self.data@);
                    assert forall|j: int| 0 <= j < self.data@.len() implies kv_view(
                        self.data@,
                    )[j] == oldv.update(i as int, (key@, lookup@))[j] by {
                        assert(kv_view(self.data@)[j] == (self.data@[j].0@, self.data@[j].1@));
                        if j != i {
                            assert(self.data@[j] == old(self).data@[j]);
                            assert(oldv[j] == (old(self).data@[j].0@, old(self).data@[j].1@));
                        }
                    }
                    assert(kv_view(self.data@) =~= oldv.update(i as int, (key@, lookup@)));
                }
                return ;
            }
            i += 1;
        }
        proof {
            lemma_kv_upsert_at(oldv, (key@, lookup@), oldv.len() as int);
        }
        self.data.push((key, lookup));
        proof {
            assert(self.data@.drop_last() =~= old(self).data@);
            assert(kv_view(self.data@) =~= oldv.push((key@, lookup@)));
        }
    }

    /// The lookup string stored for a key.
    pub fn get(&self, key: &String) -> (r: Option<&String>)
        ensures
            match r {
                Some(s) => kv_lookup(kv_view(self.data@), key@) == Some(s@),
                None => kv_lookup(kv_view(self.data@), key@) is None,
            },
    {
        proof {
            lemma_kv_view_len(self.data@);
        }
        let ghost v = kv_view(self.data@);
        let n = self.data.len();
        let mut i: usize = 0;
        while i < n
            invariant
                i <= n,
                n == self.data@.len(),
                v == kv_view(self.data@),
                v.len() == n,
                forall|k: int|
                    0 <= k < n ==> v[k] == ((#[trigger] self.data@[k]).0@, self.data@[k].1@),
                forall|k: int| 0 <= k < i ==> (#[trigger] v[k]).0 != key@,
            decreases n - i,
        {
            if self.data[i].0 == *key {
                proof {
                    lemma_kv_lookup_at(v, key@, i as int);
                }
                return Some(&self.data[i].1);
            }
            i += 1;
        }
        proof {
            lemma_kv_lookup_miss(v, key@);
        }
        None
    }
}

/// Replacing at the first matching index, or appending, is what
/// [`kv_upsert`] yields.
proof fn lemma_kv_upsert_at(entries: Seq<KvPair>, p: KvPair, k: int)
    requires
        0 <= k <= entries.len(),
        forall|j: int| 0 <= j < k ==> (#[trigger] entries[j]).0 != p.0,
        k < entries.len() ==> entries[k].0 == p.0,
    ensures
        k < entries.len() ==> kv_upsert(entries, p) == entries.update(k, p),
        k == entries.len() ==> kv_upsert(entries, p) == entries.push(p),
    decreases k,
{
    if k == 0 {
        if entries.len() == 0 {
            assert(kv_upsert(entries, p) =~= entries.push(p));
        } else if entries[0].0 == p.0 {
            assert(seq![p] + entries.drop_first() =~= entries.update(0, p));
        }
    } else {
        lemma_kv_upsert_at(entries.drop_first(), p, k - 1);
        assert(forall|j: int|
            0 <= j < entries.len() - 1 ==> entries.drop_first()[j] == #[trigger] entries[j + 1]);
        if k < entries.len() {
            assert(seq![entries[0]] + kv_upsert(entries.drop_first(), p) =~= entries.update(k, p));
        } else {
            assert(seq![entries[0]] + kv_upsert(entries.drop_first(), p) =~= entries.push(p));
        }
    }
}

/// The first pair at a key sits at the first matching index.
proof fn lemma_kv_lookup_at(entries: Seq<KvPair>, key: Seq<char>, k: int)
    requires
        0 <= k < entries.len(),
        entries[k].0 == key,
        forall|j: int| 0 <= j < k ==> (#[trigger] entries[j]).0 != key,
    ensures
        kv_lookup(entries, key) == Some(entries[k].1),
    decreases k,
{
    if k > 0 {
        lemma_kv_lookup_at(entries.drop_first(), key, k - 1);
        assert(forall|j: int|
            0 <= j < entries.len() - 1 ==> entries.drop_first()[j] == #[trigger] entries[j + 1]);
    }
}

/// With no matching index there is no pair to find.
proof fn lemma_kv_lookup_miss(entries: Seq<KvPair>, key: Seq<char>)
    requires
        forall|j: int| 0 <= j < entries.len() ==> (#[trigger] entries[j]).0 != key,
    ensures
        kv_lookup(entries, key) is None,
    decreases entries.len(),
{
    if entries.len() > 0 {
        lemma_kv_lookup_miss(entries.drop_first(), key);
    }
}


/// The first column with the given name.
pub open spec fn spec_col_index(fields: Seq<Field>, name: Seq<char>) -> Option<int>
    decreases fields.len(),
{
    if fields.len() == 0 {
        None
    } else if fields[0].name@ == name {
        Some(0)
    } else {
        match spec_col_index(fields.drop_first(), name) {
            Some(i) => Some(i + 1),
            None => None,
        }
    }
}

/// A found column index is in range and first of its name.
pub proof fn lemma_col_index(fields: Seq<Field>, name: Seq<char>)
    ensures
        match spec_col_index(fields, name) {
            Some(i) => 0 <= i < fields.len() && fields[i].name@ == name && forall|j: int|
                0 <= j < i ==> (#[trigger] fields[j]).name@ != name,
            None => forall|j: int| 0 <= j < fields.len() ==> (#[trigger] fields[j]).name@ != name,
        },
    decreases fields.len(),
{
    if fields.len() > 0 && fields[0].name@ != name {
        lemma_col_index(fields.drop_first(), name);
        assert(forall|j: int|
            0 <= j < fields.len() - 1 ==> fields.drop_first()[j] == #[trigger] fields[j + 1]);
        match spec_col_index(fields.drop_first(), name) {
            Some(i) => {
                assert(spec_col_index(fields, name) == Some(i + 1));
                assert(fields[i + 1].name@ == name);
                assert forall|j: int| 0 <= j < i + 1 implies (#[trigger] fields[j]).name@
                    != name by {
                    if j > 0 {
                        assert(fields.drop_first()[j - 1].name@ != name);
                    }
                }
            },
            None => {
                assert forall|j: int| 0 <= j < fields.len() implies (#[trigger] fields[j]).name@
                    != name by {
                    if j > 0 {
                        assert(fields.drop_first()[j - 1].name@ != name);
                    }
                }
            },
        }
    }
}

/// The text a cell contributes to a composite lookup: its key text, or
/// nothing at all for a cell without one.
pub open spec fn spec_text_or_empty(v: CellV) -> Seq<char> {
    match spec_cell_text(v) {
        Some(s) => s,
        None => seq![],
    }
}

/// The lookup parts of one row: the text of each configured column, in
/// the configured order; a name that matches no column contributes
/// nothing.
pub open spec fn spec_parts(row: Seq<CellV>, fields: Seq<Field>, names: Seq<Seq<char>>) -> Seq<
    Seq<char>,
>
    decreases names.len(),
{
    if names.len() == 0 {
        seq![]
    } else {
        (match spec_col_index(fields, names[0]) {
            Some(ci) => if 0 <= ci < row.len() {
                seq![spec_text_or_empty(row[ci])]
            } else {
                seq![]
            },
            None => seq![],
        }) + spec_parts(row, fields, names.drop_first())
    }
}

/// Space-joined parts.
pub open spec fn spec_join_space(parts: Seq<Seq<char>>) -> Seq<char>
    decreases parts.len(),
{
    if parts.len() == 0 {
        seq![]
    } else if parts.len() == 1 {
        parts[0]
    } else {
        parts[0] + seq![' '] + spec_join_space(parts.drop_first())
    }
}

/// The pair one row contributes: its key column's text, with the joined
/// lookup parts; a row whose key cell has no text contributes nothing.
pub open spec fn spec_row_pair(
    row: Seq<CellV>,
    fields: Seq<Field>,
    ci: int,
    names: Seq<Seq<char>>,
) -> Option<KvPair> {
    if 0 <= ci < row.len() {
        match spec_cell_text(row[ci]) {
            Some(k) => Some((k, spec_join_space(spec_parts(row, fields, names)))),
            None => None,
        }
    } else {
        None
    }
}

/// The pairs all rows contribute, in row order.
pub open spec fn spec_rows_pairs(
    rows: Seq<Seq<CellV>>,
    fields: Seq<Field>,
    ci: int,
    names: Seq<Seq<char>>,
) -> Seq<KvPair>
    decreases rows.len(),
{
    if rows.len() == 0 {
        seq![]
    } else {
        (match spec_row_pair(rows[0], fields, ci, names) {
            Some(p) => seq![p],
            None => seq![],
        }) + spec_rows_pairs(rows.drop_first(), fields, ci, names)
    }
}

/// The pairs one table contributes for a referenced column: nothing when
/// the table has no such column.
pub open spec fn spec_table_pairs(t: Table, column: Seq<char>, names: Seq<Seq<char>>) -> Seq<
    KvPair,
> {
    match spec_col_index(t.spec_definition().fields@, column) {
        Some(ci) => spec_rows_pairs(t.spec_rows(), t.spec_definition().fields@, ci, names),
        None => seq![],
    }
}

/// The pairs a list of named tables contributes for one reference target,
/// in list order, counting only tables under the target's name.
pub open spec fn spec_tables_pairs(
    tables: Seq<(String, Table)>,
    target: Seq<char>,
    column: Seq<char>,
    names: Seq<Seq<char>>,
) -> Seq<KvPair>
    decreases tables.len(),
{
    if tables.len() == 0 {
        seq![]
    } else {
        (if tables[0].0@ == target {
            spec_table_pairs(tables[0].1, column, names)
        } else {
            seq![]
        }) + spec_tables_pairs(tables.drop_first(), target, column, names)
    }
}

/// The views of the configured lookup column names of a field.
pub open spec fn spec_names(names: Seq<String>) -> Seq<Seq<char>>
    decreases names,
{
    if names.len() == 0 {
        seq![]
    } else {
        spec_names(names.drop_last()).push(names.last()@)
    }
}

/// Index form of [`spec_names`].
pub proof fn lemma_spec_names_len(names: Seq<String>)
    ensures
        spec_names(names).len() == names.len(),
        forall|i: int| 0 <= i < names.len() ==> spec_names(names)[i] == (#[trigger] names[i])@,
    decreases names,
{
    if names.len() > 0 {
        lemma_spec_names_len(names.drop_last());
        assert(forall|i: int| 0 <= i < names.len() - 1 ==> names.drop_last()[i] == names[i]);
    }
}

/// The full pair stream one reference field sees: dependency-pack tables
/// first, currently open tables after them, so that open copies win.
pub open spec fn spec_reference_stream(
    field: Field,
    dependency_tables: Seq<(String, Table)>,
    open_tables: Seq<(String, Table)>,
) -> Seq<KvPair>
    recommends
        field.is_reference is Some,
{
    let target = (match field.is_reference {
        Some(r) => r.0@,
        None => Seq::<char>::empty(),
    });
    let column = (match field.is_reference {
        Some(r) => r.1@,
        None => Seq::<char>::empty(),
    });
    let names = (match field.lookup {
        Some(ns) => spec_names(ns@),
        None => seq![],
    });
    spec_tables_pairs(dependency_tables, target, column, names) + spec_tables_pairs(
        open_tables,
        target,
        column,
        names,
    )
}

/// Appends one string and, between parts, one space.
fn join_push(acc: &mut String, part: &str, first: bool)
    ensures
        final(acc)@ == (if first {
            old(acc)@ + part@
        } else {
            old(acc)@ + seq![' '] + part@
        }),
{
    if !first {
        acc.append(" ");
        proof {
            reveal_strlit(" ");
            assert(old(acc)@ + seq![' '] =~= acc@);
        }
    }
    acc.append(part);
}

/// The joined image grows one part at a time.
proof fn lemma_join_space_push(parts: Seq<Seq<char>>, p: Seq<char>)
    ensures
        spec_join_space(parts.push(p)) == (if parts.len() == 0 {
            p
        } else {
            spec_join_space(parts) + seq![' '] + p
        }),
    decreases parts.len(),
{
    if parts.len() == 0 {
        assert(parts.push(p)[0] == p);
    } else {
        assert(parts.push(p)[0] == parts[0]);
        assert(parts.push(p).drop_first() =~= parts.drop_first().push(p));
        lemma_join_space_push(parts.drop_first(), p);
        if parts.len() == 1 {
            assert(parts.drop_first().len() == 0);
            assert(spec_join_space(parts.push(p)) =~= spec_join_space(parts) + seq![' '] + p);
        } else {
            assert(spec_join_space(parts.push(p)) =~= spec_join_space(parts) + seq![' '] + p);
        }
    }
}

/// The first column of the definition with the given name.
pub fn find_column(fields: &Vec<Field>, name: &String) -> (r: Option<usize>)
    ensures
        match r {
            Some(i) => spec_col_index(fields@, name@) == Some(i as int),
            None => spec_col_index(fields@, name@) is None,
        },
{
    proof {
        lemma_col_index(fields@, name@);
    }
    let mut i: usize = 0;
    while i < fields.len()
        invariant
            i <= fields@.len(),
            forall|j: int| 0 <= j < i ==> (#[trigger] fields@[j]).name@ != name@,
        decreases fields@.len() - i,
    {
        if fields[i].name == *name {
            proof {
                lemma_col_index_at(fields@, name@, i as int);
            }
            return Some(i);
        }
        i += 1;
    }
    proof {
        lemma_col_index_miss(fields@, name@);
    }
    None
}

/// A first matching index is what the column search yields.
proof fn lemma_col_index_at(fields: Seq<Field>, name: Seq<char>, k: int)
    requires
        0 <= k < fields.len(),
        fields[k].name@ == name,
        forall|j: int| 0 <= j < k ==> (#[trigger] fields[j]).name@ != name,
    ensures
        spec_col_index(fields, name) == Some(k),
    decreases k,
{
    if k > 0 {
        lemma_col_index_at(fields.drop_first(), name, k - 1);
        assert(forall|j: int|
            0 <= j < fields.len() - 1 ==> fields.drop_first()[j] == #[trigger] fields[j + 1]);
    }
}

/// Without a matching name there is no column to find.
proof fn lemma_col_index_miss(fields: Seq<Field>, name: Seq<char>)
    requires
        forall|j: int| 0 <= j < fields.len() ==> (#[trigger] fields[j]).name@ != name,
    ensures
        spec_col_index(fields, name) is None,
    decreases fields.len(),
{
    if fields.len() > 0 {
        lemma_col_index_miss(fields.drop_first(), name);
    }
}


/// Folding a concatenation folds its halves in turn.
proof fn lemma_kv_fold_concat(acc: Seq<KvPair>, a: Seq<KvPair>, b: Seq<KvPair>)
    ensures
        kv_fold(acc, a + b) == kv_fold(kv_fold(acc, a), b),
    decreases a.len(),
{
    if a.len() == 0 {
        assert(a + b =~= b);
    } else {
        assert((a + b)[0] == a[0]);
        assert((a + b).drop_first() =~= a.drop_first() + b);
        lemma_kv_fold_concat(kv_upsert(acc, a[0]), a.drop_first(), b);
    }
}

/// One more row extends the pair stream by that row's pair, if any.
proof fn lemma_rows_pairs_push(
    rows: Seq<Seq<CellV>>,
    r: Seq<CellV>,
    fields: Seq<Field>,
    ci: int,
    names: Seq<Seq<char>>,
)
    ensures
        spec_rows_pairs(rows.push(r), fields, ci, names) == spec_rows_pairs(rows, fields, ci, names)
            + (match spec_row_pair(r, fields, ci, names) {
            Some(p) => seq![p],
            None => Seq::<KvPair>::empty(),
        }),
    decreases rows.len(),
{
    let tail = (match spec_row_pair(r, fields, ci, names) {
        Some(p) => seq![p],
        None => Seq::<KvPair>::empty(),
    });
    if rows.len() == 0 {
        assert(rows.push(r)[0] == r);
        assert(rows.push(r).drop_first() =~= rows);
        assert(spec_rows_pairs(rows.push(r), fields, ci, names) =~= spec_rows_pairs(
            rows,
            fields,
            ci,
            names,
        ) + tail);
    } else {
        assert(rows.push(r)[0] == rows[0]);
        assert(rows.push(r).drop_first() =~= rows.drop_first().push(r));
        lemma_rows_pairs_push(rows.drop_first(), r, fields, ci, names);
        assert(spec_rows_pairs(rows.push(r), fields, ci, names) =~= spec_rows_pairs(
            rows,
            fields,
            ci,
            names,
        ) + tail);
    }
}

/// The composite lookup string of one row.
fn joined_lookup(
    row: &Vec<DecodedData>,
    fields: &Vec<Field>,
    names: &Vec<String>,
) -> (s: String)
    ensures
        s@ == spec_join_space(
            spec_parts(crate::cell::cells_view(row@), fields@, spec_names(names@)),
        ),
{
    proof {
        crate::cell::lemma_cells_view_len(row@);
        lemma_spec_names_len(names@);
    }
    let ghost rowv = crate::cell::cells_view(row@);
    let ghost namesv = spec_names(names@);
    let mut acc = String::new();
    let ghost mut parts: Seq<Seq<char>> = seq![];
    let mut count: usize = 0;
    let mut i: usize = 0;
    proof {
        assert(namesv.subrange(0, 0) =~= Seq::<Seq<char>>::empty());
        assert(acc@ =~= spec_join_space(parts));
    }
    while i < names.len()
        invariant
            i <= names@.len(),
            rowv == crate::cell::cells_view(row@),
            rowv.len() == row@.len(),
            forall|k: int|
                0 <= k < row@.len() ==> rowv[k] == crate::cell::cell_view(#[trigger] row@[k]),
            namesv == spec_names(names@),
            namesv.len() == names@.len(),
            forall|k: int| 0 <= k < names@.len() ==> namesv[k] == (#[trigger] names@[k])@,
            parts == spec_parts(rowv, fields@, namesv.subrange(0, i as int)),
            count == parts.len(),
            count <= i,
            acc@ == spec_join_space(parts),
        decreases names@.len() - i,
    {
        let ghost oldparts = parts;
        proof {
            lemma_parts_snoc(rowv, fields@, namesv, i as int);
        }
        match find_column(fields, &names[i]) {
            Some(ci) => {
                if ci < row.len() {
                    let part: String = match cell_text(&row[ci]) {
                        Some(t) => t,
                        None => String::new(),
                    };
                    proof {
                        assert(part@ == spec_text_or_empty(rowv[ci as int]));
                        lemma_join_space_push(oldparts, part@);
                        parts = parts.push(part@);
                    }
                    join_push(&mut acc, part.as_str(), count == 0);
                    count = count + 1;
                }
            },
            None => {},
        }
        i += 1;
    }
    proof {
        assert(namesv.subrange(0, names@.len() as int) =~= namesv);
    }
    acc
}

/// The parts of one more configured name extend the part list by at most
/// one entry.
proof fn lemma_parts_snoc(row: Seq<CellV>, fields: Seq<Field>, names: Seq<Seq<char>>, i: int)
    requires
        0 <= i < names.len(),
    ensures
        spec_parts(row, fields, names.subrange(0, i + 1)) == spec_parts(
            row,
            fields,
            names.subrange(0, i),
        ) + (match spec_col_index(fields, names[i]) {
            Some(ci) => if 0 <= ci < row.len() {
                seq![spec_text_or_empty(row[ci])]
            } else {
                Seq::<Seq<char>>::empty()
            },
            None => Seq::<Seq<char>>::empty(),
        }),
    decreases i,
{
    let pre = names.subrange(0, i);
    let cur = names.subrange(0, i + 1);
    if i == 0 {
        assert(cur[0] == names[0]);
        assert(cur.drop_first() =~= pre);
        assert(pre =~= Seq::<Seq<char>>::empty());
        assert(spec_parts(row, fields, cur) =~= spec_parts(row, fields, pre) + (
        match spec_col_index(fields, names[0]) {
            Some(ci) => if 0 <= ci < row.len() {
                seq![spec_text_or_empty(row[ci])]
            } else {
                Seq::<Seq<char>>::empty()
            },
            None => Seq::<Seq<char>>::empty(),
        }));
    } else {
        lemma_parts_snoc(row, fields, names.drop_first(), i - 1);
        assert(cur[0] == names[0]);
        assert(pre[0] == names[0]);
        assert(cur.drop_first() =~= names.drop_first().subrange(0, i));
        assert(pre.drop_first() =~= names.drop_first().subrange(0, i - 1));
        assert(names.drop_first()[i - 1] == names[i]);
        assert(spec_parts(row, fields, cur) =~= spec_parts(row, fields, pre) + (
        match spec_col_index(fields, names[i]) {
            Some(ci) => if 0 <= ci < row.len() {
                seq![spec_text_or_empty(row[ci])]
            } else {
                Seq::<Seq<char>>::empty()
            },
            None => Seq::<Seq<char>>::empty(),
        }));
    }
}

/// Folds one table's pairs into a lookup table.
fn fold_table(dd: &mut DependencyData, table: &Table, column: &String, names: &Vec<String>)
    ensures
        kv_view(final(dd).data@) == kv_fold(
            kv_view(old(dd).data@),
            spec_table_pairs(*table, column@, spec_names(names@)),
        ),
{
    let fields = &table.get_ref_definition().fields;
    let ci = match find_column(fields, column) {
        Some(ci) => ci,
        None => {
            return ;
        },
    };
    let rows = table.get_ref_table_data();
    proof {
        crate::cell::lemma_rows_view_len(rows@);
        lemma_col_index(fields@, column@);
    }
    let ghost rowsv = table.spec_rows();
    let ghost namesv = spec_names(names@);
    let ghost base = kv_view(dd.data@);
    let mut i: usize = 0;
    proof {
        assert(rowsv.subrange(0, 0) =~= Seq::<Seq<CellV>>::empty());
        assert(kv_fold(base, Seq::<KvPair>::empty()) == base);
    }
    while i < rows.len()
        invariant
            i <= rows@.len(),
            rowsv == table.spec_rows(),
            rowsv == crate::cell::rows_view(rows@),
            rowsv.len() == rows@.len(),
            forall|k: int|
                0 <= k < rows@.len() ==> rowsv[k] == crate::cell::cells_view(
                    (#[trigger] rows@[k])@,
                ),
            namesv == spec_names(names@),
            spec_col_index(table.spec_definition().fields@, column@) == Some(ci as int),
            fields@ == table.spec_definition().fields@,
            kv_view(dd.data@) == kv_fold(
                base,
                spec_rows_pairs(rowsv.subrange(0, i as int), fields@, ci as int, namesv),
            ),
        decreases rows@.len() - i,
    {
        let row = &rows[i];
        let ghost rowv = rowsv[i as int];
        proof {
            crate::cell::lemma_cells_view_len(row@);
            lemma_rows_pairs_push(rowsv.subrange(0, i as int), rowv, fields@, ci as int, namesv);
            assert(rowsv.subrange(0, i as int).push(rowv) =~= rowsv.subrange(0, i + 1));
        }
        let ghost prefix_pairs = spec_rows_pairs(
            rowsv.subrange(0, i as int),
            fields@,
            ci as int,
            namesv,
        );
        if ci < row.len() {
            match cell_text(&row[ci]) {
                Some(key) => {
                    let lookup = joined_lookup(row, fields, names);
                    proof {
                        assert(spec_row_pair(rowv, fields@, ci as int, namesv) == Some(
                            (key@, lookup@),
                        ));
                        lemma_kv_fold_push(base, prefix_pairs, (key@, lookup@));
                        assert(prefix_pairs.push((key@, lookup@)) =~= prefix_pairs + seq![
                            (key@, lookup@),
                        ]);
                    }
                    dd.insert(key, lookup);
                },
                None => {
                    proof {
                        assert(spec_row_pair(rowv, fields@, ci as int, namesv) is None);
                        assert(prefix_pairs + Seq::<KvPair>::empty() =~= prefix_pairs);
                    }
                },
            }
        } else {
            proof {
                assert(spec_row_pair(rowv, fields@, ci as int, namesv) is None);
                assert(prefix_pairs + Seq::<KvPair>::empty() =~= prefix_pairs);
            }
        }
        i += 1;
    }
    proof {
        assert(rowsv.subrange(0, rowsv.len() as int) =~= rowsv);
    }
}

/// Folds, in list order, the pairs of every listed table under the target
/// name.
fn fold_tables(
    dd: &mut DependencyData,
    tables: &Vec<(String, Table)>,
    target: &String,
    column: &String,
    names: &Vec<String>,
)
    ensures
        kv_view(final(dd).data@) == kv_fold(
            kv_view(old(dd).data@),
            spec_tables_pairs(tables@, target@, column@, spec_names(names@)),
        ),
{
    let ghost base = kv_view(dd.data@);
    let ghost namesv = spec_names(names@);
    let mut i: usize = 0;
    proof {
        assert(tables@.subrange(0, 0) =~= Seq::<(String, Table)>::empty());
        assert(kv_fold(base, Seq::<KvPair>::empty()) == base);
    }
    while i < tables.len()
        invariant
            i <= tables@.len(),
            namesv == spec_names(names@),
            kv_view(dd.data@) == kv_fold(
                base,
                spec_tables_pairs(
                    tables@.subrange(0, i as int),
                    target@,
                    column@,
                    namesv,
                ),
            ),
        decreases tables@.len() - i,
    {
        let ghost prefix = spec_tables_pairs(
            tables@.subrange(0, i as int),
            target@,
            column@,
            namesv,
        );
        proof {
            lemma_tables_pairs_push(tables@, target@, column@, namesv, i as int);
        }
        if tables[i].0 == *target {
            proof {
                lemma_kv_fold_concat(
                    base,
                    prefix,
                    spec_table_pairs(tables@[i as int].1, column@, namesv),
                );
            }
            fold_table(dd, &tables[i].1, column, names);
        } else {
            proof {
                assert(prefix + Seq::<KvPair>::empty() =~= prefix);
            }
        }
        i += 1;
    }
    proof {
        assert(tables@.subrange(0, tables@.len() as int) =~= tables@);
    }
}

/// One more table extends the pair stream by that table's pairs, when its
/// name matches.
proof fn lemma_tables_pairs_push(
    tables: Seq<(String, Table)>,
    target: Seq<char>,
    column: Seq<char>,
    names: Seq<Seq<char>>,
    i: int,
)
    requires
        0 <= i < tables.len(),
    ensures
        spec_tables_pairs(tables.subrange(0, i + 1), target, column, names) == spec_tables_pairs(
            tables.subrange(0, i),
            target,
            column,
            names,
        ) + (if tables[i].0@ == target {
            spec_table_pairs(tables[i].1, column, names)
        } else {
            Seq::<KvPair>::empty()
        }),
    decreases i,
{
    let pre = tables.subrange(0, i);
    let cur = tables.subrange(0, i + 1);
    let tail = (if tables[i].0@ == target {
        spec_table_pairs(tables[i].1, column, names)
    } else {
        Seq::<KvPair>::empty()
    });
    if i == 0 {
        assert(cur[0] == tables[0]);
        assert(cur.drop_first() =~= Seq::<(String, Table)>::empty());
        assert(pre =~= Seq::<(String, Table)>::empty());
        assert(spec_tables_pairs(cur, target, column, names) =~= spec_tables_pairs(
            pre,
            target,
            column,
            names,
        ) + tail);
    } else {
        lemma_tables_pairs_push(tables.drop_first(), target, column, names, i - 1);
        assert(cur[0] == tables[0]);
        assert(pre[0] == tables[0]);
        assert(cur.drop_first() =~= tables.drop_first().subrange(0, i));
        assert(pre.drop_first() =~= tables.drop_first().subrange(0, i - 1));
        assert(tables.drop_first()[i - 1] == tables[i]);
        assert(spec_tables_pairs(cur, target, column, names) =~= spec_tables_pairs(
            pre,
            target,
            column,
            names,
        ) + tail);
    }
}

/// Builds, per reference-carrying field, the lookup table seen through
/// every available copy of the target table: dependency-pack tables first,
/// open tables after them, the last writer winning per key
/// (`lemma_dependency_last_wins`).
pub fn get_reference_data(
    definition: &Definition,
    dependency_tables: &Vec<(String, Table)>,
    open_tables: &Vec<(String, Table)>,
) -> (r: Vec<(usize, DependencyData)>)
    ensures
        forall|k: int|
            0 <= k < r@.len() ==> {
                let (fi, dd) = #[trigger] r@[k];
                &&& fi < definition.fields@.len()
                &&& definition.fields@[fi as int].is_reference is Some
                &&& kv_view(dd.data@) == kv_fold(
                    Seq::<KvPair>::empty(),
                    spec_reference_stream(
                        definition.fields@[fi as int],
                        dependency_tables@,
                        open_tables@,
                    ),
                )
            },
        forall|fi: int|
            0 <= fi < definition.fields@.len() && (#[trigger] definition.fields@[fi]).is_reference
                is Some ==> exists|k: int| 0 <= k < r@.len() && (#[trigger] r@[k]).0 == fi,
    {
    let mut out: Vec<(usize, DependencyData)> = Vec::new();
    let mut fi: usize = 0;
    while fi < definition.fields.len()
        invariant
            fi <= definition.fields@.len(),
            forall|k: int|
                0 <= k < out@.len() ==> {
                    let (fj, dd) = #[trigger] out@[k];
                    &&& fj < definition.fields@.len()
                    &&& definition.fields@[fj as int].is_reference is Some
                    &&& kv_view(dd.data@) == kv_fold(
                        Seq::<KvPair>::empty(),
                        spec_reference_stream(
                            definition.fields@[fj as int],
                            dependency_tables@,
                            open_tables@,
                        ),
                    )
                },
            forall|fj: int|
                0 <= fj < fi && (#[trigger] definition.fields@[fj]).is_reference is Some
                    ==> exists|k: int| 0 <= k < out@.len() && (#[trigger] out@[k]).0 == fj,
        decreases definition.fields@.len() - fi,
    {
        let field = &definition.fields[fi];
        match &field.is_reference {
            Some(rf) => {
                let target = &rf.0;
                let column = &rf.1;
                let empty_names: Vec<String> = Vec::new();
                let names: &Vec<String> = match &field.lookup {
                    Some(ns) => ns,
                    None => &empty_names,
                };
                proof {
                    assert(spec_names(empty_names@) =~= Seq::<Seq<char>>::empty());
                }
                let mut dd = DependencyData::new();
                proof {
                    assert(kv_view(dd.data@) =~= Seq::<KvPair>::empty());
                }
                fold_tables(&mut dd, dependency_tables, target, column, names);
                fold_tables(&mut dd, open_tables, target, column, names);
                proof {
                    lemma_kv_fold_concat(
                        Seq::<KvPair>::empty(),
                        spec_tables_pairs(
                            dependency_tables@,
                            target@,
                            column@,
                            spec_names(names@),
                        ),
                        spec_tables_pairs(open_tables@, target@, column@, spec_names(names@)),
                    );
                }
                let ghost oldout = out@;
                out.push((fi, dd));
                proof {
                    assert(out@.last() == (fi as usize, dd));
                    assert forall|fj: int|
                        0 <= fj < fi + 1 && (#[trigger] definition.fields@[fj]).is_reference
                            is Some implies exists|k: int|
                        0 <= k < out@.len() && (#[trigger] out@[k]).0 == fj by {
                        if fj < fi {
                            let k0 = choose|k0: int|
                                0 <= k0 < oldout.len() && (#[trigger] oldout[k0]).0 == fj;
                            assert(out@[k0].0 == fj);
                        } else {
                            assert(out@[out@.len() - 1].0 == fj);
                        }
                    }
                }
            },
            None => {},
        }
        fi += 1;
    }
    out
}


/// The byte image of the reference artifact: for each table, its name as
/// a length-prefixed string, then its encoded image under a `u32` size.
pub open spec fn spec_pak(tables: Seq<(String, Table)>) -> Seq<u8>
    decreases tables.len(),
{
    if tables.len() == 0 {
        seq![]
    } else {
        crate::cell::spec_str8_bytes(tables[0].0@) + vstd::bytes::spec_u32_to_le_bytes(
            crate::table::spec_enc_table(tables[0].1.spec_rows()).len() as u32,
        ) + crate::table::spec_enc_table(tables[0].1.spec_rows()) + spec_pak(tables.drop_first())
    }
}

/// True when every listed table fits the artifact encoding.
pub open spec fn spec_pak_wf(tables: Seq<(String, Table)>) -> bool {
    forall|i: int|
        0 <= i < tables.len() ==> {
            let (name, t) = #[trigger] tables[i];
            &&& vstd::utf8::encode_utf8(name@).len() <= 0xFFFF
            &&& crate::cell::rows_len_ok(t.spec_rows())
            &&& t.spec_rows().len() <= 0xFFFFFFFF
            &&& crate::table::spec_enc_table(t.spec_rows()).len() <= 0xFFFFFFFF
        }
}

/// One more table extends the artifact by its item bytes.
proof fn lemma_pak_snoc(tables: Seq<(String, Table)>, i: int)
    requires
        0 <= i < tables.len(),
    ensures
        spec_pak(tables.subrange(0, i + 1)) == spec_pak(tables.subrange(0, i))
            + (crate::cell::spec_str8_bytes(tables[i].0@) + vstd::bytes::spec_u32_to_le_bytes(
            crate::table::spec_enc_table(tables[i].1.spec_rows()).len() as u32,
        ) + crate::table::spec_enc_table(tables[i].1.spec_rows())),
    decreases i,
{
    let pre = tables.subrange(0, i);
    let cur = tables.subrange(0, i + 1);
    let item = crate::cell::spec_str8_bytes(tables[i].0@) + vstd::bytes::spec_u32_to_le_bytes(
        crate::table::spec_enc_table(tables[i].1.spec_rows()).len() as u32,
    ) + crate::table::spec_enc_table(tables[i].1.spec_rows());
    if i == 0 {
        assert(cur[0] == tables[0]);
        assert(cur.drop_first() =~= Seq::<(String, Table)>::empty());
        assert(pre =~= Seq::<(String, Table)>::empty());
        assert(spec_pak(cur) =~= spec_pak(pre) + item);
    } else {
        lemma_pak_snoc(tables.drop_first(), i - 1);
        assert(cur[0] == tables[0]);
        assert(pre[0] == tables[0]);
        assert(cur.drop_first() =~= tables.drop_first().subrange(0, i));
        assert(pre.drop_first() =~= tables.drop_first().subrange(0, i - 1));
        assert(tables.drop_first()[i - 1] == tables[i]);
        assert(spec_pak(cur) =~= spec_pak(pre) + item);
    }
}

/// The derived reference artifact: a deterministic byte summary of the
/// given reference tables — the same tables give the same bytes, as the
/// result is a function of the inputs alone.  Fails exactly when a name
/// or a table is too large for its length prefix.
pub fn generate_pak(tables: &Vec<(String, Table)>) -> (r: Result<Vec<u8>, RpfmError>)
    ensures
        match r {
            Ok(bytes) => spec_pak_wf(tables@) && bytes@ == spec_pak(tables@),
            Err(e) => e == RpfmError::EncodeError && !spec_pak_wf(tables@),
        },
{
    let mut out: Vec<u8> = Vec::new();
    let mut i: usize = 0;
    proof {
        assert(tables@.subrange(0, 0) =~= Seq::<(String, Table)>::empty());
        assert(out@ =~= spec_pak(tables@.subrange(0, 0)));
    }
    while i < tables.len()
        invariant
            i <= tables@.len(),
            out@ == spec_pak(tables@.subrange(0, i as int)),
            forall|k: int|
                0 <= k < i ==> {
                    let (name, t) = #[trigger] tables@[k];
                    &&& vstd::utf8::encode_utf8(name@).len() <= 0xFFFF
                    &&& crate::cell::rows_len_ok(t.spec_rows())
                    &&& t.spec_rows().len() <= 0xFFFFFFFF
                    &&& crate::table::spec_enc_table(t.spec_rows()).len() <= 0xFFFFFFFF
                },
        decreases tables@.len() - i,
    {
        let ghost prefix = out@;
        match crate::cell::encode_str8(tables[i].0.as_str(), &mut out) {
            Ok(_) => {},
            Err(_) => {
                return Err(RpfmError::EncodeError);
            },
        }
        let body = match tables[i].1.encode() {
            Ok(body) => body,
            Err(_) => {
                return Err(RpfmError::EncodeError);
            },
        };
        if body.len() as u64 > 0xFFFFFFFFu64 {
            return Err(RpfmError::EncodeError);
        }
        crate::cursor::write_u32(&mut out, body.len() as u32);
        let mut body = body;
        out.append(&mut body);
        proof {
            lemma_pak_snoc(tables@, i as int);
            assert(out@ =~= spec_pak(tables@.subrange(0, i + 1)));
        }
        i += 1;
    }
    proof {
        assert(tables@.subrange(0, tables@.len() as int) =~= tables@);
    }
    Ok(out)
}

} // verus!
