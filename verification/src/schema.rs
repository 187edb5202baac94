//! The schema model: versioned table definitions.
//!
//! A `Definition` is the ordered field list of one table version; a `Field`
//! describes one column (its binary type, key-ness, reference target, display
//! hints).  A `Schema` holds, per table short-name, the definitions of every
//! known version, ordered by version descending.

use crate::error::RpfmError;
use vstd::prelude::*;

verus! {

/// The binary type of one table column.  A sequence field embeds a full
/// nested definition; the schema loader guarantees the nesting is acyclic,
/// so decoding is a bounded recursive descent.
pub enum FieldType {
    Boolean,
    I16,
    I32,
    I64,
    /// IEEE-754 single precision, carried as its raw bit pattern so that
    /// encode and decode are byte-exact; display formatting lives outside
    /// this crate.
    F32,
    StringU8,
    StringU16,
    OptionalStringU8,
    OptionalStringU16,
    SequenceU16(Box<Definition>),
    SequenceU32(Box<Definition>),
}

/// One column of a table definition.
pub struct Field {
    pub name: String,
    pub field_type: FieldType,
    pub is_key: bool,
    /// Referenced (table short-name, column name), when this column is a
    /// foreign-key-like lookup into another table.
    pub is_reference: Option<(String, String)>,
    /// Column names of the referenced table whose row values are joined
    /// (space-separated) into a human-readable lookup string.
    pub lookup: Option<Vec<String>>,
    /// Default value in string form, parsed per `field_type`.
    pub default_value: Option<String>,
    /// Canonical display-order hint; -1 means "none".
    pub ca_order: i16,
    /// Display-only length constraint; 0 means "none".
    pub max_length: i32,
    pub description: String,
}

/// One version of a table's schema: its ordered field list.  Field order is
/// fixed and determines the binary layout order.
pub struct Definition {
    pub version: i32,
    pub fields: Vec<Field>,
}

/// Structural sameness of two field types, strings compared by contents.
pub open spec fn ft_eqv(a: FieldType, b: FieldType) -> bool
    decreases a,
{
    match (a, b) {
        (FieldType::Boolean, FieldType::Boolean) => true,
        (FieldType::I16, FieldType::I16) => true,
        (FieldType::I32, FieldType::I32) => true,
        (FieldType::I64, FieldType::I64) => true,
        (FieldType::F32, FieldType::F32) => true,
        (FieldType::StringU8, FieldType::StringU8) => true,
        (FieldType::StringU16, FieldType::StringU16) => true,
        (FieldType::OptionalStringU8, FieldType::OptionalStringU8) => true,
        (FieldType::OptionalStringU16, FieldType::OptionalStringU16) => true,
        (FieldType::SequenceU16(da), FieldType::SequenceU16(db)) => def_eqv(*da, *db),
        (FieldType::SequenceU32(da), FieldType::SequenceU32(db)) => def_eqv(*da, *db),
        _ => false,
    }
}

/// Structural sameness of two string options, compared by contents.
pub open spec fn opt_string_eqv(a: Option<String>, b: Option<String>) -> bool {
    match (a, b) {
        (Some(sa), Some(sb)) => sa@ == sb@,
        (None, None) => true,
        _ => false,
    }
}

/// Structural sameness of two fields, strings compared by contents.
pub open spec fn field_eqv(a: Field, b: Field) -> bool
    decreases a,
{
    &&& a.name@ == b.name@
    &&& ft_eqv(a.field_type, b.field_type)
    &&& a.is_key == b.is_key
    &&& match (a.is_reference, b.is_reference) {
        (Some(ra), Some(rb)) => ra.0@ == rb.0@ && ra.1@ == rb.1@,
        (None, None) => true,
        _ => false,
    }
    &&& match (a.lookup, b.lookup) {
        (Some(la), Some(lb)) => la.deep_view() == lb.deep_view(),
        (None, None) => true,
        _ => false,
    }
    &&& opt_string_eqv(a.default_value, b.default_value)
    &&& a.ca_order == b.ca_order
    &&& a.max_length == b.max_length
    &&& a.description@ == b.description@
}

/// Structural sameness of two definitions, strings compared by contents.
pub open spec fn def_eqv(a: Definition, b: Definition) -> bool
    decreases a,
{
    &&& a.version == b.version
    &&& a.fields@.len() == b.fields@.len()
    &&& forall|i: int|
        0 <= i < a.fields@.len() ==> field_eqv(#[trigger] a.fields@[i], b.fields@[i])
}

impl Clone for FieldType {
    fn clone(&self) -> (res: Self)
        ensures
            ft_eqv(*self, res),
        decreases *self,
    {
        match self {
            FieldType::Boolean => FieldType::Boolean,
            FieldType::I16 => FieldType::I16,
            FieldType::I32 => FieldType::I32,
            FieldType::I64 => FieldType::I64,
            FieldType::F32 => FieldType::F32,
            FieldType::StringU8 => FieldType::StringU8,
            FieldType::StringU16 => FieldType::StringU16,
            FieldType::OptionalStringU8 => FieldType::OptionalStringU8,
            FieldType::OptionalStringU16 => FieldType::OptionalStringU16,
            FieldType::SequenceU16(d) => FieldType::SequenceU16(Box::new((**d).clone())),
            FieldType::SequenceU32(d) => FieldType::SequenceU32(Box::new((**d).clone())),
        }
    }
}

impl Clone for Field {
    fn clone(&self) -> (res: Self)
        ensures
            field_eqv(*self, res),
        decreases *self,
    {
        let is_reference = match &self.is_reference {
            Some(r) => Some((r.0.clone(), r.1.clone())),
            None => None,
        };
        let lookup = match &self.lookup {
            Some(columns) => {
                let mut out: Vec<String> = Vec::new();
                let mut i: usize = 0;
                while i < columns.len()
                    invariant
                        i <= columns@.len(),
                        out@.len() == i,
                        forall|j: int| 0 <= j < i ==> out@[j]@ == columns@[j]@,
                    decreases columns@.len() - i,
                {
                    out.push(columns[i].clone());
                    i += 1;
                }
                proof {
                    assert(out.deep_view() =~= columns.deep_view());
                }
                Some(out)
            },
            None => None,
        };
        let default_value = match &self.default_value {
            Some(s) => Some(s.clone()),
            None => None,
        };
        Field {
            name: self.name.clone(),
            field_type: self.field_type.clone(),
            is_key: self.is_key,
            is_reference,
            lookup,
            default_value,
            ca_order: self.ca_order,
            max_length: self.max_length,
            description: self.description.clone(),
        }
    }
}

impl Clone for Definition {
    fn clone(&self) -> (res: Self)
        ensures
            def_eqv(*self, res),
        decreases *self,
    {
        let mut fields: Vec<Field> = Vec::new();
        let mut i: usize = 0;
        while i < self.fields.len()
            invariant
                i <= self.fields@.len(),
                fields@.len() == i,
                forall|j: int| 0 <= j < i ==> field_eqv(self.fields@[j], #[trigger] fields@[j]),
            decreases self.fields@.len() - i,
        {
            fields.push(self.fields[i].clone());
            i += 1;
        }
        Definition { version: self.version, fields }
    }
}

impl Definition {
    /// A new, empty definition for the given version.
    pub fn new(version: i32) -> (d: Definition)
        ensures
            d.version == version,
            d.fields@.len() == 0,
    {
        Definition { version, fields: Vec::new() }
    }

    /// The ordered field list, as the codec consumes it.
    pub fn get_fields_processed(&self) -> (fields: &Vec<Field>)
        ensures
            fields == &self.fields,
    {
        &self.fields
    }

    pub fn field_count(&self) -> (n: usize)
        ensures
            n == self.fields@.len(),
    {
        self.fields.len()
    }
}


/// First definition list registered under the given table name.
pub open spec fn schema_lookup(entries: Seq<(String, Vec<Definition>)>, name: Seq<char>) -> Option<
    Seq<Definition>,
>
    decreases entries.len(),
{
    if entries.len() == 0 {
        None
    } else if entries[0].0@ == name {
        Some(entries[0].1@)
    } else {
        schema_lookup(entries.drop_first(), name)
    }
}

/// First definition with exactly the requested version.
pub open spec fn spec_resolve_exact(defs: Seq<Definition>, version: int) -> Option<Definition>
    decreases defs.len(),
{
    if defs.len() == 0 {
        None
    } else if defs[0].version == version {
        Some(defs[0])
    } else {
        spec_resolve_exact(defs.drop_first(), version)
    }
}

/// First definition whose version is at most the requested one; with the
/// list ordered by version descending this is the highest such version.
pub open spec fn spec_resolve_best(defs: Seq<Definition>, version: int) -> Option<Definition>
    decreases defs.len(),
{
    if defs.len() == 0 {
        None
    } else if defs[0].version <= version {
        Some(defs[0])
    } else {
        spec_resolve_best(defs.drop_first(), version)
    }
}

/// The definition a schema resolves for a request: by exact version, or
/// in best-effort mode the highest version at most the requested one.
pub open spec fn spec_resolve(
    entries: Seq<(String, Vec<Definition>)>,
    name: Seq<char>,
    version: int,
    best_effort: bool,
) -> Option<Definition> {
    match schema_lookup(entries, name) {
        Some(defs) => if best_effort {
            spec_resolve_best(defs, version)
        } else {
            spec_resolve_exact(defs, version)
        },
        None => None,
    }
}

/// Insertion into a version-descending list: a new version goes before the
/// first lower one, an already-present version is replaced.
pub open spec fn spec_insert_def(defs: Seq<Definition>, d: Definition) -> Seq<Definition>
    decreases defs.len(),
{
    if defs.len() == 0 {
        seq![d]
    } else if d.version > defs[0].version {
        seq![d] + defs
    } else if d.version == defs[0].version {
        seq![d] + defs.drop_first()
    } else {
        seq![defs[0]] + spec_insert_def(defs.drop_first(), d)
    }
}

/// The versioned table definitions of one game, looked up by table
/// short-name.  Immutable after loading; a different game's schema is a
/// fresh `Schema`.
pub struct Schema {
    entries: Vec<(String, Vec<Definition>)>,
}

impl Schema {
    /// The registered (name, definitions) pairs.
    pub closed spec fn spec_entries(&self) -> Seq<(String, Vec<Definition>)> {
        self.entries@
    }

    /// An empty schema.
    pub fn new() -> (s: Schema)
        ensures
            s.spec_entries().len() == 0,
    {
        Schema { entries: Vec::new() }
    }

    /// Registers one definition under a table name, keeping that name's
    /// list ordered by version descending and replacing an equal version.
    pub fn add_definition(&mut self, table_name: &str, definition: Definition)
        ensures
            schema_lookup(final(self).spec_entries(), table_name@) == Some(
                match schema_lookup(old(self).spec_entries(), table_name@) {
                    Some(defs) => spec_insert_def(defs, definition),
                    None => seq![definition],
                },
            ),
            forall|other: Seq<char>|
                other != table_name@ ==> #[trigger] schema_lookup(
                    final(self).spec_entries(),
                    other,
                ) == schema_lookup(old(self).spec_entries(), other),
    {
        let needle = table_name.to_owned();
        let n = self.entries.len();
        let mut i: usize = 0;
        while i < n
            invariant
                needle@ == table_name@,
                i <= n,
                n == self.entries@.len(),
                *self == *old(self),
                forall|k: int| 0 <= k < i ==> (#[trigger] self.entries@[k]).0@ != table_name@,
            decreases n - i,
        {
            if self.entries[i].0 == needle {
                let m = self.entries[i].1.len();
                let mut j: usize = 0;
                while j < m && self.entries[i].1[j].version > definition.version
                    invariant
                        j <= m,
                        m == self.entries@[i as int].1@.len(),
                        i < self.entries@.len(),
                        *self == *old(self),
                        forall|k: int|
                            0 <= k < j ==> (#[trigger] self.entries@[i as int].1@[k]).version
                                > definition.version,
                    decreases m - j,
                {
                    j += 1;
                }
                let ghost olddefs = self.entries@[i as int].1@;
                let pair = &mut self.entries[i];
                if j < pair.1.len() && pair.1[j].version == definition.version {
                    pair.1.set(j, definition);
                    proof {
                        lemma_insert_def_at(olddefs, definition, j as int);
                        assert(self.entries@[i as int].1@ =~= spec_insert_def(
                            olddefs,
                            definition,
                        ));
                    }
                } else {
                    pair.1.insert(j, definition);
                    proof {
                        lemma_insert_def_at(olddefs, definition, j as int);
                        assert(self.entries@[i as int].1@ =~= spec_insert_def(
                            olddefs,
                            definition,
                        ));
                    }
                }
                proof {
                    lemma_schema_lookup_at(old(self).entries@, i as int, table_name@);
                    lemma_schema_lookup_update(
                        old(self).entries@,
                        self.entries@,
                        i as int,
                        table_name@,
                    );
                }
                return ;
            }
            i += 1;
        }
        proof {
            lemma_schema_lookup_miss(old(self).entries@, table_name@);
        }
        let mut defs: Vec<Definition> = Vec::new();
        defs.push(definition);
        self.entries.push((table_name.to_owned(), defs));
        proof {
            assert(self.entries@[n as int].1@ =~= seq![definition]);
            lemma_schema_lookup_append(old(self).entries@, self.entries@[n as int], table_name@);
            assert(old(self).entries@.push(self.entries@[n as int]) =~= self.entries@);
        }
    }

    /// The definitions registered under the name, version descending.
    pub fn get_versioned_definitions(&self, table_name: &str) -> (r: Option<&Vec<Definition>>)
        ensures
            match r {
                Some(defs) => schema_lookup(self.spec_entries(), table_name@) == Some(defs@),
                None => schema_lookup(self.spec_entries(), table_name@) is None,
            },
    {
        let needle = table_name.to_owned();
        let n = self.entries.len();
        let mut i: usize = 0;
        while i < n
            invariant
                needle@ == table_name@,
                i <= n,
                n == self.entries@.len(),
                forall|k: int| 0 <= k < i ==> (#[trigger] self.entries@[k]).0@ != table_name@,
        decreases n - i,
        {
            if self.entries[i].0 == needle {
                proof {
                    lemma_schema_lookup_at(self.entries@, i as int, table_name@);
                }
                return Some(&self.entries[i].1);
            }
            i += 1;
        }
        proof {
            lemma_schema_lookup_miss(self.entries@, table_name@);
        }
        None
    }

    /// The definition for the requested version: the exact version, or in
    /// best-effort mode the highest version at most the requested one.
    /// Fails with `NoMatchingVersion` exactly when no such definition is
    /// registered.
    pub fn resolve_version(&self, table_name: &str, version: i32, best_effort: bool) -> (r: Result<
        &Definition,
        RpfmError,
    >)
        ensures
            ({
                let found = spec_resolve(
                    self.spec_entries(),
                    table_name@,
                    version as int,
                    best_effort,
                );
                match r {
                    Ok(d) => found == Some(*d),
                    Err(e) => found is None && e == RpfmError::NoMatchingVersion,
                }
            }),
    {
        let defs = match self.get_versioned_definitions(table_name) {
            Some(defs) => defs,
            None => {
                return Err(RpfmError::NoMatchingVersion);
            },
        };
        let m = defs.len();
        let mut j: usize = 0;
        while j < m
            invariant
                j <= m,
                m == defs@.len(),
                schema_lookup(self.spec_entries(), table_name@) == Some(defs@),
                best_effort ==> forall|k: int|
                    0 <= k < j ==> (#[trigger] defs@[k]).version > version,
                !best_effort ==> forall|k: int|
                    0 <= k < j ==> (#[trigger] defs@[k]).version != version,
            decreases m - j,
        {
            let hit = if best_effort {
                defs[j].version <= version
            } else {
                defs[j].version == version
            };
            if hit {
                proof {
                    if best_effort {
                        lemma_resolve_best_at(defs@, version as int, j as int);
                    } else {
                        lemma_resolve_exact_at(defs@, version as int, j as int);
                    }
                }
                return Ok(&defs[j]);
            }
            j += 1;
        }
        proof {
            if best_effort {
                lemma_resolve_best_miss(defs@, version as int);
            } else {
                lemma_resolve_exact_miss(defs@, version as int);
            }
        }
        Err(RpfmError::NoMatchingVersion)
    }
}

proof fn lemma_schema_lookup_at(entries: Seq<(String, Vec<Definition>)>, i: int, name: Seq<char>)
    requires
        0 <= i < entries.len(),
        entries[i].0@ == name,
        forall|k: int| 0 <= k < i ==> (#[trigger] entries[k]).0@ != name,
    ensures
        schema_lookup(entries, name) == Some(entries[i].1@),
    decreases i,
{
    if i > 0 {
        lemma_schema_lookup_at(entries.drop_first(), i - 1, name);
        assert(forall|k: int|
            0 <= k < i - 1 ==> entries.drop_first()[k] == #[trigger] entries[k + 1]);
        assert(entries.drop_first()[i - 1] == entries[i]);
    }
}

proof fn lemma_schema_lookup_miss(entries: Seq<(String, Vec<Definition>)>, name: Seq<char>)
    requires
        forall|k: int| 0 <= k < entries.len() ==> (#[trigger] entries[k]).0@ != name,
    ensures
        schema_lookup(entries, name) is None,
    decreases entries.len(),
{
    if entries.len() > 0 {
        lemma_schema_lookup_miss(entries.drop_first(), name);
    }
}

/// Looking a name up after an update in place only changes that name's
/// entry.
proof fn lemma_schema_lookup_update(
    before: Seq<(String, Vec<Definition>)>,
    after: Seq<(String, Vec<Definition>)>,
    i: int,
    name: Seq<char>,
)
    requires
        0 <= i < before.len(),
        after.len() == before.len(),
        forall|k: int| 0 <= k < before.len() && k != i ==> after[k] == #[trigger] before[k],
        after[i].0@ == before[i].0@,
        before[i].0@ == name,
        forall|k: int| 0 <= k < i ==> (#[trigger] before[k]).0@ != name,
    ensures
        schema_lookup(after, name) == Some(after[i].1@),
        forall|other: Seq<char>|
            other != name ==> #[trigger] schema_lookup(after, other) == schema_lookup(
                before,
                other,
            ),
    decreases before.len(),
{
    assert forall|k: int| 0 <= k < i implies (#[trigger] after[k]).0@ != name by {
        assert(after[k] == before[k]);
    }
    lemma_schema_lookup_at(after, i, name);
    assert forall|other: Seq<char>| other != name implies #[trigger] schema_lookup(after, other)
        == schema_lookup(before, other) by {
        lemma_schema_lookup_frame(before, after, i, other);
    }
}

proof fn lemma_schema_lookup_frame(
    before: Seq<(String, Vec<Definition>)>,
    after: Seq<(String, Vec<Definition>)>,
    i: int,
    other: Seq<char>,
)
    requires
        0 <= i < before.len(),
        after.len() == before.len(),
        forall|k: int| 0 <= k < before.len() && k != i ==> after[k] == #[trigger] before[k],
        after[i].0@ == before[i].0@,
        before[i].0@ != other,
    ensures
        schema_lookup(after, other) == schema_lookup(before, other),
    decreases before.len(),
{
    if before.len() > 0 {
        if i == 0 {
            assert(after.drop_first() =~= before.drop_first());
        } else {
            assert(after[0] == before[0]);
            lemma_schema_lookup_frame(before.drop_first(), after.drop_first(), i - 1, other);
            assert(forall|k: int|
                0 <= k < before.len() - 1 ==> before.drop_first()[k] == #[trigger] before[k + 1]);
            assert(forall|k: int|
                0 <= k < after.len() - 1 ==> after.drop_first()[k] == #[trigger] after[k + 1]);
        }
    }
}

proof fn lemma_schema_lookup_append(
    before: Seq<(String, Vec<Definition>)>,
    entry: (String, Vec<Definition>),
    name: Seq<char>,
)
    requires
        forall|k: int| 0 <= k < before.len() ==> (#[trigger] before[k]).0@ != name,
        entry.0@ == name,
    ensures
        schema_lookup(before.push(entry), name) == Some(entry.1@),
        forall|other: Seq<char>|
            other != name ==> #[trigger] schema_lookup(before.push(entry), other) == schema_lookup(
                before,
                other,
            ),
    decreases before.len(),
{
    lemma_schema_lookup_at(before.push(entry), before.len() as int, name);
    assert forall|other: Seq<char>| other != name implies #[trigger] schema_lookup(
        before.push(entry),
        other,
    ) == schema_lookup(before, other) by {
        lemma_schema_lookup_push_frame(before, entry, other);
    }
}

proof fn lemma_schema_lookup_push_frame(
    before: Seq<(String, Vec<Definition>)>,
    entry: (String, Vec<Definition>),
    other: Seq<char>,
)
    requires
        entry.0@ != other,
    ensures
        schema_lookup(before.push(entry), other) == schema_lookup(before, other),
    decreases before.len(),
{
    if before.len() == 0 {
        assert(before.push(entry)[0] == entry);
        assert(before.push(entry).drop_first() =~= Seq::<(String, Vec<Definition>)>::empty());
        assert(schema_lookup(Seq::<(String, Vec<Definition>)>::empty(), other) is None);
        assert(schema_lookup(before.push(entry), other) == schema_lookup(
            before.push(entry).drop_first(),
            other,
        ));
    } else {
        assert(before.push(entry)[0] == before[0]);
        assert(before.push(entry).drop_first() =~= before.drop_first().push(entry));
        lemma_schema_lookup_push_frame(before.drop_first(), entry, other);
        if before[0].0@ != other {
            assert(schema_lookup(before.push(entry), other) == schema_lookup(
                before.drop_first().push(entry),
                other,
            ));
            assert(schema_lookup(before, other) == schema_lookup(before.drop_first(), other));
        }
    }
}

/// An update or insert at the split point is what [`spec_insert_def`]
/// yields, provided everything before it has a greater version.
proof fn lemma_insert_def_at(defs: Seq<Definition>, d: Definition, j: int)
    requires
        0 <= j <= defs.len(),
        forall|k: int| 0 <= k < j ==> (#[trigger] defs[k]).version > d.version,
        j < defs.len() ==> defs[j].version <= d.version,
    ensures
        (j < defs.len() && defs[j].version == d.version) ==> spec_insert_def(defs, d)
            == defs.update(j, d),
        !(j < defs.len() && defs[j].version == d.version) ==> spec_insert_def(defs, d)
            == defs.insert(j, d),
    decreases j,
{
    if j == 0 {
        if defs.len() == 0 {
            assert(spec_insert_def(defs, d) =~= defs.insert(0, d));
        } else if defs[0].version == d.version {
            assert(seq![d] + defs.drop_first() =~= defs.update(0, d));
        } else {
            assert(seq![d] + defs =~= defs.insert(0, d));
        }
    } else {
        lemma_insert_def_at(defs.drop_first(), d, j - 1);
        assert(forall|k: int|
            0 <= k < defs.len() - 1 ==> defs.drop_first()[k] == #[trigger] defs[k + 1]);
        if j < defs.len() && defs[j].version == d.version {
            assert(seq![defs[0]] + spec_insert_def(defs.drop_first(), d) =~= defs.update(j, d));
        } else {
            assert(seq![defs[0]] + spec_insert_def(defs.drop_first(), d) =~= defs.insert(j, d));
        }
    }
}

proof fn lemma_resolve_exact_at(defs: Seq<Definition>, version: int, j: int)
    requires
        0 <= j < defs.len(),
        defs[j].version == version,
        forall|k: int| 0 <= k < j ==> (#[trigger] defs[k]).version != version,
    ensures
        spec_resolve_exact(defs, version) == Some(defs[j]),
    decreases j,
{
    if j > 0 {
        lemma_resolve_exact_at(defs.drop_first(), version, j - 1);
        assert(forall|k: int|
            0 <= k < defs.len() - 1 ==> defs.drop_first()[k] == #[trigger] defs[k + 1]);
    }
}

proof fn lemma_resolve_exact_miss(defs: Seq<Definition>, version: int)
    requires
        forall|k: int| 0 <= k < defs.len() ==> (#[trigger] defs[k]).version != version,
    ensures
        spec_resolve_exact(defs, version) is None,
    decreases defs.len(),
{
    if defs.len() > 0 {
        lemma_resolve_exact_miss(defs.drop_first(), version);
    }
}

proof fn lemma_resolve_best_at(defs: Seq<Definition>, version: int, j: int)
    requires
        0 <= j < defs.len(),
        defs[j].version <= version,
        forall|k: int| 0 <= k < j ==> (#[trigger] defs[k]).version > version,
    ensures
        spec_resolve_best(defs, version) == Some(defs[j]),
    decreases j,
{
    if j > 0 {
        lemma_resolve_best_at(defs.drop_first(), version, j - 1);
        assert(forall|k: int|
            0 <= k < defs.len() - 1 ==> defs.drop_first()[k] == #[trigger] defs[k + 1]);
    }
}

proof fn lemma_resolve_best_miss(defs: Seq<Definition>, version: int)
    requires
        forall|k: int| 0 <= k < defs.len() ==> (#[trigger] defs[k]).version > version,
    ensures
        spec_resolve_best(defs, version) is None,
    decreases defs.len(),
{
    if defs.len() > 0 {
        lemma_resolve_best_miss(defs.drop_first(), version);
    }
}

} // verus!
