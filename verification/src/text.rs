//! Text transcoding for the string field types.
//!
//! Narrow strings are stored as UTF-8, wide strings as UTF-16 code units;
//! both directions are verified against `vstd::utf8` for the narrow side and
//! against the spec functions of this module for the wide side.

use vstd::prelude::*;
use vstd::slice::slice_subrange;
use vstd::string::StrSliceExecFns;
use vstd::string::StringSliceAdditionalSpecFns;
use vstd::utf8::*;

verus! {

broadcast use vstd::utf8::group_utf8_lib;

/// Appending one character extends a UTF-8 image by that scalar's encoding.
pub proof fn lemma_encode_utf8_push(chars: Seq<char>, c: char)
    ensures
        encode_utf8(chars.push(c)) == encode_utf8(chars) + encode_scalar(c as u32),
    decreases chars.len(),
{
    if chars.len() == 0 {
        assert(chars.push(c).drop_first() =~= chars);
        assert(encode_utf8(chars.push(c)) =~= encode_scalar(c as u32));
        assert(encode_utf8(chars) + encode_scalar(c as u32) =~= encode_scalar(c as u32));
    } else {
        assert(chars.push(c).drop_first() =~= chars.drop_first().push(c));
        lemma_encode_utf8_push(chars.drop_first(), c);
        assert(encode_utf8(chars.push(c)) =~= encode_utf8(chars) + encode_scalar(c as u32));
    }
}

/// Relies on `core::str::from_utf8`: on UTF-8 input it returns `Ok`, and the
/// resulting string views exactly the given bytes.  The input here is always
/// valid, either proved so by [`parse_utf8`] or built by encoding characters.
#[verifier::external_body]
fn utf8_to_string(bytes: &[u8]) -> (s: String)
    requires
        valid_utf8(bytes@),
    ensures
        encode_utf8(s@) == bytes@,
{
    match core::str::from_utf8(bytes) {
        Ok(s) => s.to_owned(),
        Err(_) => String::new(),
    }
}

/// The characters of a string, in order, as a vector.
pub fn chars_of(s: &str) -> (v: Vec<char>)
    ensures
        v@ == s@,
{
    let n = s.unicode_len();
    let mut v: Vec<char> = Vec::new();
    let mut i: usize = 0;
    while i < n
        invariant
            i <= n,
            n == s@.len(),
            v@ =~= s@.subrange(0, i as int),
        decreases n - i,
    {
        v.push(s.get_char(i));
        i += 1;
    }
    proof {
        assert(v@ =~= s@);
    }
    v
}

/// Appends the UTF-8 encoding of one Unicode scalar.
pub fn push_utf8_scalar(out: &mut Vec<u8>, v: u32)
    requires
        is_scalar(v),
    ensures
        final(out)@ == old(out)@ + encode_scalar(v),
{
    if v <= 0x7F {
        out.push((v & 0x7F) as u8);
    } else if v <= 0x7FF {
        out.push((0xC0u32 | ((v >> 6) & 0x1F)) as u8);
        out.push((0x80u32 | (v & 0x3F)) as u8);
        proof {
            assert((0xC0u32 | ((v >> 6) & 0x1F)) as u8 == 0xC0 | ((v >> 6) & 0x1F) as u8
                && (0x80u32 | (v & 0x3F)) as u8 == 0x80 | (v & 0x3F) as u8) by (bit_vector);
        }
    } else if v <= 0xFFFF {
        out.push((0xE0u32 | ((v >> 12) & 0x0F)) as u8);
        out.push((0x80u32 | ((v >> 6) & 0x3F)) as u8);
        out.push((0x80u32 | (v & 0x3F)) as u8);
        proof {
            assert((0xE0u32 | ((v >> 12) & 0x0F)) as u8 == 0xE0 | ((v >> 12) & 0x0F) as u8
                && (0x80u32 | ((v >> 6) & 0x3F)) as u8 == 0x80 | ((v >> 6) & 0x3F) as u8 && (0x80u32
                | (v & 0x3F)) as u8 == 0x80 | (v & 0x3F) as u8) by (bit_vector);
        }
    } else {
        out.push((0xF0u32 | ((v >> 18) & 0x7)) as u8);
        out.push((0x80u32 | ((v >> 12) & 0x3F)) as u8);
        out.push((0x80u32 | ((v >> 6) & 0x3F)) as u8);
        out.push((0x80u32 | (v & 0x3F)) as u8);
        proof {
            assert((0xF0u32 | ((v >> 18) & 0x7)) as u8 == 0xF0 | ((v >> 18) & 0x7) as u8 && (0x80u32
                | ((v >> 12) & 0x3F)) as u8 == 0x80 | ((v >> 12) & 0x3F) as u8 && (0x80u32 | ((v
                >> 6) & 0x3F)) as u8 == 0x80 | ((v >> 6) & 0x3F) as u8 && (0x80u32 | (v & 0x3F))
                as u8 == 0x80 | (v & 0x3F) as u8) by (bit_vector);
        }
    }
    proof {
        assert(final(out)@ =~= old(out)@ + encode_scalar(v));
    }
}

/// A string whose view is the given character sequence.
pub fn string_from_chars(chars: &[char]) -> (s: String)
    ensures
        s@ == chars@,
{
    let mut bytes: Vec<u8> = Vec::new();
    let mut i: usize = 0;
    while i < chars.len()
        invariant
            i <= chars@.len(),
            bytes@ == encode_utf8(chars@.subrange(0, i as int)),
        decreases chars@.len() - i,
    {
        let c = chars[i];
        proof {
            char_is_scalar(c);
            lemma_encode_utf8_push(chars@.subrange(0, i as int), c);
            assert(chars@.subrange(0, i as int).push(c) =~= chars@.subrange(0, i + 1));
        }
        push_utf8_scalar(&mut bytes, c as u32);
        i += 1;
    }
    proof {
        assert(chars@.subrange(0, chars@.len() as int) =~= chars@);
        encode_utf8_valid_utf8(chars@);
    }
    let s = utf8_to_string(bytes.as_slice());
    proof {
        encode_utf8_decode_utf8(chars@);
        encode_utf8_decode_utf8(s@);
    }
    s
}

/// Decodes UTF-8 bytes into a string, telling invalid input apart exactly.
pub fn parse_utf8(b: &[u8]) -> (r: Option<String>)
    ensures
        match r {
            Some(s) => valid_utf8(b@) && s@ == decode_utf8(b@),
            None => !valid_utf8(b@),
        },
{
    let len = b.len();
    let mut pos: usize = 0;
    while pos < len
        invariant
            pos <= len,
            len == b@.len(),
            partial_valid_utf8(b@, pos as int),
        decreases len - pos,
    {
        let ghost suffix = b@.subrange(pos as int, len as int);
        let b0 = b[pos];
        proof {
            assert(suffix[0] == b@[pos as int]);
        }
        let width: usize = if b0 < 0x80 {
            proof {
                assert(b0 < 0x80 ==> b0 & 0x7F == b0) by (bit_vector);
                assert(decode_first_codepoint(suffix) == b0 as u32);
                assert(valid_first_scalar(suffix));
            }
            1
        } else if 0xC0 <= b0 && b0 <= 0xDF {
            if len - pos < 2 {
                proof {
                    assert(!valid_first_scalar(suffix));
                    partial_valid_partial_invalid_utf8(b@, pos as int);
                }
                return None;
            }
            let b1 = b[pos + 1];
            proof {
                assert(suffix[1] == b@[pos as int + 1]);
            }
            if !(0x80 <= b1 && b1 <= 0xBF) {
                proof {
                    assert(!valid_first_scalar(suffix));
                    partial_valid_partial_invalid_utf8(b@, pos as int);
                }
                return None;
            }
            let cp: u32 = (((b0 & 0x1F) as u32) << 6) | ((b1 & 0x3F) as u32);
            proof {
                assert(cp == codepoint_width_2(b0, b1));
                assert((((b0 & 0x1F) as u32) << 6) | ((b1 & 0x3F) as u32) <= 0x7FF)
                    by (bit_vector);
            }
            if cp < 0x80 {
                proof {
                    assert(!valid_first_scalar(suffix));
                    partial_valid_partial_invalid_utf8(b@, pos as int);
                }
                return None;
            }
            proof {
                assert(valid_first_scalar(suffix));
            }
            2
        } else if 0xE0 <= b0 && b0 <= 0xEF {
            if len - pos < 3 {
                proof {
                    assert(!valid_first_scalar(suffix));
                    partial_valid_partial_invalid_utf8(b@, pos as int);
                }
                return None;
            }
            let b1 = b[pos + 1];
            let b2 = b[pos + 2];
            proof {
                assert(suffix[1] == b@[pos as int + 1] && suffix[2] == b@[pos as int + 2]);
            }
            if !(0x80 <= b1 && b1 <= 0xBF && 0x80 <= b2 && b2 <= 0xBF) {
                proof {
                    assert(!valid_first_scalar(suffix));
                    partial_valid_partial_invalid_utf8(b@, pos as int);
                }
                return None;
            }
            let cp: u32 = (((b0 & 0x0F) as u32) << 12) | (((b1 & 0x3F) as u32) << 6) | ((b2 & 0x3F)
                as u32);
            proof {
                assert(cp == codepoint_width_3(b0, b1, b2));
                assert((((b0 & 0x0F) as u32) << 12) | (((b1 & 0x3F) as u32) << 6) | ((b2 & 0x3F)
                    as u32) <= 0xFFFF) by (bit_vector);
            }
            if cp < 0x800 || (0xD800 <= cp && cp <= 0xDFFF) {
                proof {
                    assert(!valid_first_scalar(suffix));
                    partial_valid_partial_invalid_utf8(b@, pos as int);
                }
                return None;
            }
            proof {
                assert(valid_first_scalar(suffix));
            }
            3
        } else if 0xF0 <= b0 && b0 <= 0xF7 {
            if len - pos < 4 {
                proof {
                    assert(!valid_first_scalar(suffix));
                    partial_valid_partial_invalid_utf8(b@, pos as int);
                }
                return None;
            }
            let b1 = b[pos + 1];
            let b2 = b[pos + 2];
            let b3 = b[pos + 3];
            proof {
                assert(suffix[1] == b@[pos as int + 1] && suffix[2] == b@[pos as int + 2]
                    && suffix[3] == b@[pos as int + 3]);
            }
            if !(0x80 <= b1 && b1 <= 0xBF && 0x80 <= b2 && b2 <= 0xBF && 0x80 <= b3 && b3
                <= 0xBF) {
                proof {
                    assert(!valid_first_scalar(suffix));
                    partial_valid_partial_invalid_utf8(b@, pos as int);
                }
                return None;
            }
            let cp: u32 = (((b0 & 0x07) as u32) << 18) | (((b1 & 0x3F) as u32) << 12) | (((b2
                & 0x3F) as u32) << 6) | ((b3 & 0x3F) as u32);
            proof {
                assert(cp == codepoint_width_4(b0, b1, b2, b3));
            }
            if !(0x10000 <= cp && cp <= 0x10FFFF) {
                proof {
                    assert(!valid_first_scalar(suffix));
                    partial_valid_partial_invalid_utf8(b@, pos as int);
                }
                return None;
            }
            proof {
                assert(valid_first_scalar(suffix));
            }
            4
        } else {
            proof {
                assert(!valid_first_scalar(suffix));
                partial_valid_partial_invalid_utf8(b@, pos as int);
            }
            return None;
        };
        proof {
            assert(length_of_first_scalar(suffix) == width);
            partial_valid_utf8_extend(b@, pos as int);
        }
        pos += width;
    }
    proof {
        assert(b@.subrange(0, len as int) =~= b@);
    }
    let s = utf8_to_string(b);
    proof {
        decode_utf8_encode_utf8(b@);
        encode_utf8_decode_utf8(s@);
        assert(decode_utf8(encode_utf8(s@)) == decode_utf8(b@));
    }
    Some(s)
}

/// True when a UTF-16 code unit is a high (leading) surrogate.
pub open spec fn is_high_surrogate(u: u16) -> bool {
    0xD800 <= u <= 0xDBFF
}

/// True when a UTF-16 code unit is a low (trailing) surrogate.
pub open spec fn is_low_surrogate(u: u16) -> bool {
    0xDC00 <= u <= 0xDFFF
}

/// True when a UTF-16 code unit stands for a scalar on its own.
pub open spec fn is_single_unit(u: u16) -> bool {
    !is_high_surrogate(u) && !is_low_surrogate(u)
}

/// The UTF-16 code units of one character.
pub open spec fn spec_utf16_units_of_char(c: char) -> Seq<u16> {
    let v = c as u32;
    if v < 0x10000 {
        seq![v as u16]
    } else {
        seq![
            (0xD800 + ((v - 0x10000) as u32 >> 10)) as u16,
            (0xDC00 + ((v - 0x10000) as u32 & 0x3FF)) as u16,
        ]
    }
}

/// The UTF-16 encoding of a character sequence.
pub open spec fn spec_encode_utf16(chars: Seq<char>) -> Seq<u16>
    decreases chars.len(),
{
    if chars.len() == 0 {
        seq![]
    } else {
        spec_utf16_units_of_char(chars[0]) + spec_encode_utf16(chars.drop_first())
    }
}

/// The scalar held by a surrogate pair.
pub open spec fn spec_surrogate_pair_scalar(hi: u16, lo: u16) -> u32
    recommends
        is_high_surrogate(hi),
        is_low_surrogate(lo),
{
    (0x10000 + (((hi - 0xD800) as u32) << 10) + ((lo - 0xDC00) as u32)) as u32
}

/// True when the code units form a well-formed UTF-16 sequence.
pub open spec fn valid_utf16(units: Seq<u16>) -> bool
    decreases units.len(),
{
    if units.len() == 0 {
        true
    } else if is_single_unit(units[0]) {
        valid_utf16(units.drop_first())
    } else if is_high_surrogate(units[0]) {
        units.len() >= 2 && is_low_surrogate(units[1]) && valid_utf16(
            units.subrange(2, units.len() as int),
        )
    } else {
        false
    }
}

/// The characters encoded by a well-formed UTF-16 sequence.
pub open spec fn spec_decode_utf16(units: Seq<u16>) -> Seq<char>
    recommends
        valid_utf16(units),
    decreases units.len(),
    when valid_utf16(units)
{
    if units.len() == 0 {
        seq![]
    } else if is_single_unit(units[0]) {
        seq![(units[0] as u32) as char] + spec_decode_utf16(units.drop_first())
    } else {
        seq![spec_surrogate_pair_scalar(units[0], units[1]) as char] + spec_decode_utf16(
            units.subrange(2, units.len() as int),
        )
    }
}

/// One character's units are well formed, and decode back to it.
proof fn lemma_utf16_char_units(c: char)
    ensures
        ({
            let units = spec_utf16_units_of_char(c);
            let v = c as u32;
            if v < 0x10000 {
                units.len() == 1 && is_single_unit(units[0]) && units[0] as u32 == v
            } else {
                units.len() == 2 && is_high_surrogate(units[0]) && is_low_surrogate(units[1])
                    && spec_surrogate_pair_scalar(units[0], units[1]) == v
            }
        }),
{
    char_is_scalar(c);
    let v = c as u32;
    assert(v <= 0x10FFFF && !(0xD800 <= v && v <= 0xDFFF));
    if v < 0x10000 {
        assert(v < 0x10000 && !(0xD800 <= v && v <= 0xDFFF) ==> !(0xD800 <= (v as u16) && (v
            as u16) <= 0xDFFF) && (v as u16) as u32 == v) by (bit_vector);
    } else {
        assert(0x10000 <= v && v <= 0x10FFFF ==> {
            let hi = (0xD800 + ((v - 0x10000) as u32 >> 10)) as u16;
            let lo = (0xDC00 + ((v - 0x10000) as u32 & 0x3FF)) as u16;
            0xD800 <= hi && hi <= 0xDBFF && 0xDC00 <= lo && lo <= 0xDFFF && (0x10000 + (((hi
                - 0xD800) as u32) << 10) + ((lo - 0xDC00) as u32)) as u32 == v
        }) by (bit_vector);
    }
}

/// The UTF-16 image of any character sequence is well formed and decodes
/// back to the same characters.
pub proof fn lemma_utf16_round_trip_chars(chars: Seq<char>)
    ensures
        valid_utf16(spec_encode_utf16(chars)),
        spec_decode_utf16(spec_encode_utf16(chars)) == chars,
    decreases chars.len(),
{
    if chars.len() == 0 {
        assert(spec_decode_utf16(spec_encode_utf16(chars)) =~= chars);
    } else {
        let c = chars[0];
        let units = spec_utf16_units_of_char(c);
        let rest = spec_encode_utf16(chars.drop_first());
        lemma_utf16_char_units(c);
        lemma_utf16_round_trip_chars(chars.drop_first());
        char_is_scalar(c);
        char_u32_cast(c, c as u32);
        if (c as u32) < 0x10000 {
            assert((units + rest).drop_first() =~= rest);
            assert((units + rest)[0] as u32 == c as u32);
            assert(spec_decode_utf16(units + rest) =~= chars);
        } else {
            assert((units + rest).subrange(2, (units + rest).len() as int) =~= rest);
            assert(spec_decode_utf16(units + rest) =~= chars);
        }
    }
}

/// Decoding well-formed UTF-16 and re-encoding gives the same units.
pub proof fn lemma_utf16_round_trip_units(units: Seq<u16>)
    requires
        valid_utf16(units),
    ensures
        spec_encode_utf16(spec_decode_utf16(units)) == units,
    decreases units.len(),
{
    if units.len() == 0 {
        assert(spec_encode_utf16(spec_decode_utf16(units)) =~= units);
    } else if is_single_unit(units[0]) {
        let u = units[0];
        let v = u as u32;
        let c = v as char;
        assert(!(0xD800 <= u && u <= 0xDFFF) ==> (u as u32) <= 0xFFFF && !(0xD800 <= (u as u32)
            && (u as u32) <= 0xDFFF)) by (bit_vector);
        assert(is_scalar(v));
        assert((v as char) as u32 == v);
        lemma_utf16_round_trip_units(units.drop_first());
        assert(v < 0x10000 && v as u16 == u) by (bit_vector)
            requires
                v == u as u32,
        ;
        assert(spec_utf16_units_of_char(c) =~= seq![u]);
        assert(spec_decode_utf16(units).drop_first() =~= spec_decode_utf16(units.drop_first()));
        assert(spec_encode_utf16(spec_decode_utf16(units)) =~= units);
    } else {
        let hi = units[0];
        let lo = units[1];
        let v = spec_surrogate_pair_scalar(hi, lo);
        assert(0xD800 <= hi && hi <= 0xDBFF && 0xDC00 <= lo && lo <= 0xDFFF ==> {
            let w = (0x10000 + (((hi - 0xD800) as u32) << 10) + ((lo - 0xDC00) as u32)) as u32;
            0x10000 <= w && w <= 0x10FFFF
        }) by (bit_vector);
        assert(is_scalar(v));
        let c = v as char;
        assert((v as char) as u32 == v);
        assert(0xD800 <= hi && hi <= 0xDBFF && 0xDC00 <= lo && lo <= 0xDFFF ==> {
            let w = (0x10000 + (((hi - 0xD800) as u32) << 10) + ((lo - 0xDC00) as u32)) as u32;
            (0xD800 + ((w - 0x10000) as u32 >> 10)) as u16 == hi && (0xDC00 + ((w - 0x10000) as u32
                & 0x3FF)) as u16 == lo
        }) by (bit_vector);
        assert(spec_utf16_units_of_char(c) =~= seq![hi, lo]);
        let tail = units.subrange(2, units.len() as int);
        lemma_utf16_round_trip_units(tail);
        assert(spec_decode_utf16(units).drop_first() =~= spec_decode_utf16(tail));
        assert(spec_encode_utf16(spec_decode_utf16(units)) =~= units);
    }
}

/// Appending one character extends a UTF-16 image by that character's units.
proof fn lemma_encode_utf16_push(chars: Seq<char>, c: char)
    ensures
        spec_encode_utf16(chars.push(c)) == spec_encode_utf16(chars) + spec_utf16_units_of_char(c),
    decreases chars.len(),
{
    if chars.len() == 0 {
        assert(chars.push(c).drop_first() =~= chars);
        assert(spec_encode_utf16(chars.push(c)) =~= spec_encode_utf16(chars)
            + spec_utf16_units_of_char(c));
    } else {
        assert(chars.push(c).drop_first() =~= chars.drop_first().push(c));
        lemma_encode_utf16_push(chars.drop_first(), c);
        assert(spec_encode_utf16(chars.push(c)) =~= spec_encode_utf16(chars)
            + spec_utf16_units_of_char(c));
    }
}

/// The UTF-16 code units of a string.
pub fn encode_utf16(s: &str) -> (units: Vec<u16>)
    ensures
        units@ == spec_encode_utf16(s@),
{
    let chars = chars_of(s);
    let mut units: Vec<u16> = Vec::new();
    let mut i: usize = 0;
    while i < chars.len()
        invariant
            i <= chars@.len(),
            chars@ == s@,
            units@ == spec_encode_utf16(chars@.subrange(0, i as int)),
        decreases chars@.len() - i,
    {
        let c = chars[i];
        proof {
            char_is_scalar(c);
            lemma_encode_utf16_push(chars@.subrange(0, i as int), c);
            assert(chars@.subrange(0, i as int).push(c) =~= chars@.subrange(0, i + 1));
        }
        let v = c as u32;
        if v < 0x10000 {
            units.push(v as u16);
            proof {
                assert(units@ =~= spec_encode_utf16(chars@.subrange(0, i + 1)));
            }
        } else {
            proof {
                assert(v <= 0x10FFFF);
                assert(0x10000 <= v && v <= 0x10FFFF ==> ((v - 0x10000) as u32 >> 10) <= 0x3FF && ((
                v - 0x10000) as u32 & 0x3FF) <= 0x3FF) by (bit_vector);
            }
            let w: u32 = v - 0x10000;
            units.push((0xD800 + (w >> 10)) as u16);
            units.push((0xDC00 + (w & 0x3FF)) as u16);
            proof {
                assert(units@ =~= spec_encode_utf16(chars@.subrange(0, i + 1)));
            }
        }
        i += 1;
    }
    proof {
        assert(chars@.subrange(0, chars@.len() as int) =~= chars@);
    }
    units
}

/// Decodes UTF-16 code units into a string, telling invalid input apart
/// exactly.
pub fn parse_utf16(units: &[u16]) -> (r: Option<String>)
    ensures
        match r {
            Some(s) => valid_utf16(units@) && s@ == spec_decode_utf16(units@),
            None => !valid_utf16(units@),
        },
{
    let len = units.len();
    let mut bytes: Vec<u8> = Vec::new();
    let ghost mut chars: Seq<char> = seq![];
    let mut pos: usize = 0;
    proof {
        assert(units@.subrange(0, len as int) =~= units@);
        assert(encode_utf8(chars) =~= bytes@);
    }
    while pos < len
        invariant
            pos <= len,
            len == units@.len(),
            bytes@ == encode_utf8(chars),
            valid_utf16(units@) <==> valid_utf16(units@.subrange(pos as int, len as int)),
            valid_utf16(units@.subrange(pos as int, len as int)) ==> spec_decode_utf16(units@)
                =~= chars + spec_decode_utf16(units@.subrange(pos as int, len as int)),
        decreases len - pos,
    {
        let ghost suffix = units@.subrange(pos as int, len as int);
        let u = units[pos];
        if u < 0xD800 || u > 0xDFFF {
            let v = u as u32;
            proof {
                assert(!(0xD800 <= u && u <= 0xDFFF) ==> (u as u32) <= 0xFFFF && !(0xD800 <= (u
                    as u32) && (u as u32) <= 0xDFFF)) by (bit_vector);
                assert(is_scalar(v));
                assert((v as char) as u32 == v);
                lemma_encode_utf8_push(chars, v as char);
                assert(suffix.drop_first() =~= units@.subrange(pos + 1, len as int));
            }
            push_utf8_scalar(&mut bytes, v);
            proof {
                chars = chars.push(v as char);
                assert(seq![(suffix[0] as u32) as char] + spec_decode_utf16(suffix.drop_first())
                    =~= seq![v as char] + spec_decode_utf16(suffix.drop_first()));
            }
            pos += 1;
        } else if u <= 0xDBFF {
            if len - pos < 2 {
                proof {
                    assert(!valid_utf16(suffix));
                }
                return None;
            }
            let lo = units[pos + 1];
            if !(0xDC00 <= lo && lo <= 0xDFFF) {
                proof {
                    assert(suffix[1] == lo);
                    assert(!valid_utf16(suffix));
                }
                return None;
            }
            proof {
                assert(0xD800 <= u && u <= 0xDBFF && 0xDC00 <= lo && lo <= 0xDFFF ==> {
                    let w = (0x10000 + (((u - 0xD800) as u32) << 10) + ((lo - 0xDC00) as u32))
                        as u32;
                    (((u - 0xD800) as u32) << 10) <= 0xFFC00 && 0x10000 <= w && w <= 0x10FFFF
                }) by (bit_vector);
            }
            let v: u32 = 0x10000 + (((u - 0xD800) as u32) << 10) + ((lo - 0xDC00) as u32);
            proof {
                assert(suffix[0] == u && suffix[1] == lo);
                assert(v == spec_surrogate_pair_scalar(u, lo));
                assert(is_scalar(v));
                assert((v as char) as u32 == v);
                lemma_encode_utf8_push(chars, v as char);
                assert(suffix.subrange(2, suffix.len() as int) =~= units@.subrange(
                    pos + 2,
                    len as int,
                ));
            }
            push_utf8_scalar(&mut bytes, v);
            proof {
                chars = chars.push(v as char);
            }
            pos += 2;
        } else {
            proof {
                assert(!valid_utf16(suffix));
            }
            return None;
        }
    }
    proof {
        assert(units@.subrange(len as int, len as int) =~= Seq::<u16>::empty());
        assert(units@.subrange(0, len as int) =~= units@);
        assert(spec_decode_utf16(units@) =~= chars);
        encode_utf8_valid_utf8(chars);
    }
    let s = utf8_to_string(bytes.as_slice());
    proof {
        encode_utf8_decode_utf8(chars);
        encode_utf8_decode_utf8(s@);
    }
    Some(s)
}

} // verus!
