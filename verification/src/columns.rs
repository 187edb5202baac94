//! Column presentation helpers: display names and display ordering.
//!
//! These prepare a definition's fields for a table view: turning raw field
//! names into headings, and ordering columns by the schema's canonical
//! order hint or, in the old style, keys first.  The choice between the two
//! orderings is an explicit parameter; this crate reads no ambient
//! settings.

use crate::schema::field_eqv;
use crate::schema::Definition;
use crate::schema::Field;
use crate::text::chars_of;
use crate::text::string_from_chars;
use vstd::prelude::*;

verus! {

/// ASCII uppercase of one character; anything else is left alone.
pub open spec fn ascii_upper(c: char) -> char {
    if 'a' <= c && c <= 'z' {
        ((c as u8) - 32) as char
    } else {
        c
    }
}

/// One step of the heading transform: the first character emitted, and
/// every character after an underscore, is uppercased; the underscore
/// itself becomes a space.
pub open spec fn spec_clean(s: Seq<char>, empty: bool, upper: bool) -> Seq<char>
    decreases s.len(),
{
    if s.len() == 0 {
        seq![]
    } else if empty || upper {
        seq![ascii_upper(s[0])] + spec_clean(s.drop_first(), false, false)
    } else if s[0] == '_' {
        seq![' '] + spec_clean(s.drop_first(), false, true)
    } else {
        seq![s[0]] + spec_clean(s.drop_first(), false, false)
    }
}

/// The heading shown for a raw field name.
pub open spec fn spec_clean_column_names(s: Seq<char>) -> Seq<char> {
    spec_clean(s, true, false)
}

/// Turns a raw field name into its display heading: underscores become
/// spaces, and the first letter of each word is uppercased.
pub fn clean_column_names(field_name: &str) -> (r: String)
    ensures
        r@ == spec_clean_column_names(field_name@),
{
    let chars = chars_of(field_name);
    let mut out: Vec<char> = Vec::new();
    let mut upper: bool = false;
    let mut i: usize = 0;
    proof {
        assert(field_name@.subrange(0, field_name@.len() as int) =~= field_name@);
    }
    while i < chars.len()
        invariant
            i <= chars@.len(),
            chars@ == field_name@,
            out@.len() == 0 <==> i == 0,
            spec_clean_column_names(field_name@) == out@ + spec_clean(
                chars@.subrange(i as int, chars@.len() as int),
                out@.len() == 0,
                upper,
            ),
        decreases chars@.len() - i,
    {
        let ghost suffix = chars@.subrange(i as int, chars@.len() as int);
        proof {
            assert(suffix[0] == chars@[i as int]);
            assert(suffix.drop_first() =~= chars@.subrange(i + 1, chars@.len() as int));
        }
        let c = chars[i];
        if out.len() == 0 || upper {
            if 'a' <= c && c <= 'z' {
                out.push(((c as u8) - 32) as char);
            } else {
                out.push(c);
            }
            upper = false;
        } else if c == '_' {
            out.push(' ');
            upper = true;
        } else {
            out.push(c);
        }
        i += 1;
        proof {
            assert(spec_clean_column_names(field_name@) == out@ + spec_clean(
                chars@.subrange(i as int, chars@.len() as int),
                out@.len() == 0,
                upper,
            ));
        }
    }
    proof {
        assert(chars@.subrange(chars@.len() as int, chars@.len() as int) =~= Seq::<char>::empty());
        assert(out@ + Seq::<char>::empty() =~= out@);
    }
    string_from_chars(out.as_slice())
}

/// Whether `a` must be shown strictly before `b`.  In the old ordering key
/// columns come first; otherwise the canonical order hints decide, and a
/// field without a hint is never moved against another.
pub open spec fn field_before(a: Field, b: Field, use_old_column_order: bool) -> bool {
    if use_old_column_order {
        a.is_key && !b.is_key
    } else {
        a.ca_order != -1 && b.ca_order != -1 && a.ca_order < b.ca_order
    }
}

fn field_before_exec(a: &Field, b: &Field, use_old_column_order: bool) -> (r: bool)
    ensures
        r == field_before(*a, *b, use_old_column_order),
{
    if use_old_column_order {
        a.is_key && !b.is_key
    } else {
        a.ca_order != -1 && b.ca_order != -1 && a.ca_order < b.ca_order
    }
}

/// True when `perm` maps the positions of `sorted` injectively into
/// `orig`, position by position carrying the same field.
pub open spec fn fields_permuted(sorted: Seq<Field>, orig: Seq<Field>, perm: Seq<int>) -> bool {
    &&& perm.len() == sorted.len()
    &&& sorted.len() == orig.len()
    &&& forall|k: int| 0 <= k < perm.len() ==> 0 <= #[trigger] perm[k] < orig.len()
    &&& forall|k1: int, k2: int|
        0 <= k1 < k2 < perm.len() ==> #[trigger] perm[k1] != #[trigger] perm[k2]
    &&& forall|k: int|
        0 <= k < sorted.len() ==> field_eqv(orig[#[trigger] perm[k]], sorted[k])
}

/// The field list ordered for display: a stable insertion by
/// [`field_before`], so that no column stands directly after one it must
/// precede.  The result is a rearrangement of the definition's fields.
pub fn get_fields_sorted(table_definition: &Definition, use_old_column_order: bool) -> (r: Vec<
    Field,
>)
    ensures
        r@.len() == table_definition.fields@.len(),
        exists|perm: Seq<int>|
            #[trigger] fields_permuted(r@, table_definition.fields@, perm),
        forall|k: int|
            0 <= k < r@.len() - 1 ==> !field_before(
                #[trigger] r@[k + 1],
                r@[k],
                use_old_column_order,
            ),
{
    let fields = &table_definition.fields;
    let n = fields.len();
    let mut out: Vec<Field> = Vec::new();
    let mut idx: Vec<usize> = Vec::new();
    let mut i: usize = 0;
    while i < n
        invariant
            i <= n,
            n == fields@.len(),
            out@.len() == i,
            idx@.len() == i,
            forall|k: int| 0 <= k < i ==> 0 <= (#[trigger] idx@[k]) < i,
            forall|k1: int, k2: int|
                0 <= k1 < k2 < i ==> (#[trigger] idx@[k1]) != (#[trigger] idx@[k2]),
            forall|k: int|
                0 <= k < i ==> field_eqv(fields@[(#[trigger] idx@[k]) as int], out@[k]),
            forall|k: int|
                0 <= k < i - 1 ==> !field_before(
                    #[trigger] out@[k + 1],
                    out@[k],
                    use_old_column_order,
                ),
        decreases n - i,
    {
        let f = fields[i].clone();
        let mut j: usize = out.len();
        while j > 0 && field_before_exec(&f, &out[j - 1], use_old_column_order)
            invariant
                j <= out@.len(),
                out@.len() == i,
                field_eqv(fields@[i as int], f),
                forall|k: int|
                    j <= k < out@.len() ==> field_before(
                        f,
                        #[trigger] out@[k],
                        use_old_column_order,
                    ),
            decreases j,
        {
            j -= 1;
        }
        let ghost oldout = out@;
        let ghost oldidx = idx@;
        let ghost fv = f;
        proof {
            if j > 0 {
                assert(!field_before(fv, oldout[j - 1], use_old_column_order));
            }
        }
        out.insert(j, f);
        idx.insert(j, i);
        proof {
            assert(out@ == oldout.insert(j as int, fv));
            assert(idx@ == oldidx.insert(j as int, i));
            oldout.insert_ensures(j as int, fv);
            oldidx.insert_ensures(j as int, i);
            assert forall|k: int| 0 <= k < i + 1 implies {
                &&& out@[k] == (if k < j {
                    oldout[k]
                } else if k == j {
                    fv
                } else {
                    oldout[k - 1]
                })
                &&& idx@[k] == (if k < j {
                    oldidx[k]
                } else if k == j {
                    i as usize
                } else {
                    oldidx[k - 1]
                })
            } by {
                assert(out@ == oldout.insert(j as int, fv));
                assert(idx@ == oldidx.insert(j as int, i));
            }
            assert forall|k: int|
                0 <= k < i + 1 - 1 implies !field_before(
                #[trigger] out@[k + 1],
                out@[k],
                use_old_column_order,
            ) by {
                if k + 1 < j {
                    assert(out@[k] == oldout[k] && out@[k + 1] == oldout[k + 1]);
                } else if k + 1 == j {
                    assert(out@[k] == oldout[k] && out@[k + 1] == fv);
                } else if k == j {
                    assert(out@[k] == fv && out@[k + 1] == oldout[k]);
                    assert(field_before(fv, oldout[k], use_old_column_order));
                } else {
                    assert(out@[k] == oldout[k - 1] && out@[k + 1] == oldout[k]);
                }
            }
        }
        i += 1;
    }
    proof {
        let perm = Seq::new(idx@.len(), |k: int| idx@[k] as int);
        assert(fields_permuted(out@, table_definition.fields@, perm));
    }
    out
}

} // verus!
