//! The byte-representation bridge. Wide inputs are escaped by first
//! converting them to the byte-oriented representation (UTF-8), so this
//! module holds the verified converter from code-point values to bytes and
//! the lemmas that connect escaping at the byte level with escaping at the
//! character level: the two commute, because every escape character encodes
//! as itself and every multi-byte encoding contains no escape byte.
use vstd::prelude::*;

use vstd::utf8::char_is_scalar;
use vstd::utf8::encode_scalar;
use vstd::utf8::encode_utf8;
use vstd::utf8::is_scalar;

use crate::classify::byte_expansion;
use crate::classify::byte_vals;
use crate::classify::char_expansion;
use crate::classify::escaped;
use crate::classify::escaped_chars;
use crate::classify::has_escape;
use crate::classify::is_escape_value;
use crate::classify::lemma_escaped_append;
use crate::classify::replacement_bytes;
use crate::classify::replacement_chars;
use crate::unit::unit_vals;
use crate::unit::CodeUnit;

verus! {

/// The failure reported when a wide input violates its claimed encoding:
/// some code unit is not a Unicode scalar value, so no byte representation
/// exists for it.
#[derive(Clone, Copy, Debug, PartialEq, Eq, Structural)]
pub enum EscapeError {
    InvalidCodeUnit { pos: usize },
}

/// A character sequence seen as a sequence of code-unit values.
pub open spec fn chars_units(cs: Seq<char>) -> Seq<u32> {
    cs.map_values(|c: char| c as u32)
}

/// Whether every unit of the sequence is a Unicode scalar value.
pub open spec fn all_scalars(vs: Seq<u32>) -> bool {
    forall|i: int| 0 <= i < vs.len() ==> is_scalar(#[trigger] vs[i])
}

/// The position of the first unit that is not a scalar value; the length
/// when all are.
pub open spec fn first_non_scalar(vs: Seq<u32>) -> int
    decreases vs.len(),
{
    if vs.len() == 0 {
        0
    } else if !is_scalar(vs[0]) {
        0
    } else {
        1 + first_non_scalar(vs.drop_first())
    }
}

/// The byte representation of a sequence of scalar values.
pub open spec fn units_utf8(vs: Seq<u32>) -> Seq<u8>
    decreases vs.len(),
{
    if vs.len() == 0 {
        Seq::empty()
    } else {
        encode_scalar(vs[0]) + units_utf8(vs.drop_first())
    }
}

/// An ASCII value encodes as the single byte holding it.
proof fn lemma_ascii_byte(v: u32)
    by (bit_vector)
    requires
        v < 0x80,
    ensures
        (v & 0x7F) as u8 == v as u8,
        ((v as u8) as u32) == v,
{
}

/// Every byte of a multi-byte encoding has its high bit set.
proof fn lemma_high_bytes(y: u8)
    by (bit_vector)
    ensures
        (0x80u8 | y) >= 0x80,
        (0xC0u8 | y) >= 0x80,
        (0xE0u8 | y) >= 0x80,
        (0xF0u8 | y) >= 0x80,
{
}

/// An ASCII scalar encodes as exactly one byte, itself.
proof fn lemma_encode_scalar_ascii(v: u32)
    requires
        v < 0x80,
    ensures
        encode_scalar(v) == seq![v as u8],
{
    lemma_ascii_byte(v);
    assert(encode_scalar(v) =~= seq![v as u8]);
}

/// The encoding of a non-escape scalar holds no escape byte.
proof fn lemma_encode_scalar_no_escape(v: u32)
    requires
        is_scalar(v),
        !is_escape_value(v),
    ensures
        forall|i: int|
            0 <= i < encode_scalar(v).len() ==> !is_escape_value(
                (#[trigger] encode_scalar(v)[i]) as u32,
            ),
{
    let e = encode_scalar(v);
    if v < 0x80 {
        lemma_encode_scalar_ascii(v);
        lemma_ascii_byte(v);
        assert(e[0] as u32 == v);
    } else {
        assert forall|i: int| 0 <= i < e.len() implies !is_escape_value(
            (#[trigger] e[i]) as u32,
        ) by {
            lemma_high_bytes((v >> 6) as u8);
            lemma_high_bytes((v >> 12) as u8);
            lemma_high_bytes((v >> 18) as u8);
            lemma_high_bytes(((v >> 6) & 0x1F) as u8);
            lemma_high_bytes(((v >> 12) & 0x0F) as u8);
            lemma_high_bytes(((v >> 18) & 0x7) as u8);
            lemma_high_bytes((v & 0x3F) as u8);
            lemma_high_bytes(((v >> 6) & 0x3F) as u8);
            lemma_high_bytes(((v >> 12) & 0x3F) as u8);
            assert(e[i] >= 0x80);
        }
    }
}

/// Escaping one byte alone yields exactly its expansion.
proof fn lemma_escaped_single(b: u8)
    ensures
        escaped(seq![b]) == byte_expansion(b),
{
    let s = seq![b];
    assert(s.drop_last() =~= Seq::<u8>::empty());
    assert(s.last() == b);
    assert(escaped(Seq::<u8>::empty()) + byte_expansion(b) =~= byte_expansion(b));
}

/// UTF-8 encoding distributes over concatenation.
pub proof fn lemma_encode_utf8_append(a: Seq<char>, b: Seq<char>)
    ensures
        encode_utf8(a + b) == encode_utf8(a) + encode_utf8(b),
    decreases a.len(),
{
    if a.len() == 0 {
        assert(a + b =~= b);
        assert(encode_utf8(a) + encode_utf8(b) =~= encode_utf8(b));
    } else {
        assert((a + b).drop_first() =~= a.drop_first() + b);
        assert((a + b)[0] == a[0]);
        lemma_encode_utf8_append(a.drop_first(), b);
        assert(encode_scalar(a[0] as u32) + (encode_utf8(a.drop_first()) + encode_utf8(b)) =~= (
        encode_scalar(a[0] as u32) + encode_utf8(a.drop_first())) + encode_utf8(b));
    }
}

/// An ASCII character sequence seen byte-for-byte.
spec fn ascii_bytes(cs: Seq<char>) -> Seq<u8> {
    Seq::new(cs.len(), |i: int| (cs[i] as u32) as u8)
}

/// An all-ASCII character sequence encodes byte-for-byte.
proof fn lemma_encode_ascii_seq(cs: Seq<char>)
    requires
        forall|i: int| 0 <= i < cs.len() ==> ((#[trigger] cs[i]) as u32) < 0x80,
    ensures
        encode_utf8(cs) == ascii_bytes(cs),
    decreases cs.len(),
{
    if cs.len() == 0 {
        assert(encode_utf8(cs) =~= ascii_bytes(cs));
    } else {
        let rest = cs.drop_first();
        assert(forall|i: int| 0 <= i < rest.len() ==> ((#[trigger] rest[i]) as u32) < 0x80);
        lemma_encode_ascii_seq(rest);
        lemma_encode_scalar_ascii(cs[0] as u32);
        assert(encode_utf8(cs) =~= ascii_bytes(cs));
    }
}

/// The replacement string for an escape value encodes byte-for-byte into the
/// replacement bytes.
proof fn lemma_encode_replacement(v: u32)
    requires
        is_escape_value(v),
    ensures
        encode_utf8(replacement_chars(v)) == replacement_bytes(v),
{
    let cs = replacement_chars(v);
    assert(forall|i: int| 0 <= i < cs.len() ==> ((#[trigger] cs[i]) as u32) < 0x80);
    lemma_encode_ascii_seq(cs);
    assert(ascii_bytes(cs) =~= replacement_bytes(v));
}

/// One character's escaped encoding equals the encoding of its expansion.
proof fn lemma_expansion_encode(c: char)
    ensures
        escaped(encode_scalar(c as u32)) == encode_utf8(char_expansion(c)),
{
    char_is_scalar(c);
    let v = c as u32;
    if is_escape_value(v) {
        lemma_encode_scalar_ascii(v);
        lemma_escaped_single(v as u8);
        lemma_ascii_byte(v);
        assert(byte_expansion(v as u8) == replacement_bytes(v));
        lemma_encode_replacement(v);
        assert(char_expansion(c) == replacement_chars(v));
    } else {
        assert(char_expansion(c) =~= seq![c]);
        assert(encode_utf8(seq![c].drop_first()) =~= Seq::<u8>::empty()) by {
            assert(seq![c].drop_first() =~= Seq::<char>::empty());
        }
        assert(encode_utf8(seq![c]) =~= encode_scalar(v));
        if v < 0x80 {
            lemma_encode_scalar_ascii(v);
            lemma_escaped_single(v as u8);
            lemma_ascii_byte(v);
            assert(!is_escape_value((v as u8) as u32));
            assert(byte_expansion(v as u8) =~= seq![v as u8]);
        } else {
            lemma_encode_scalar_no_escape(v);
            assert(!has_escape(byte_vals(encode_scalar(v)))) by {
                let bs = encode_scalar(v);
                assert(forall|i: int|
                    0 <= i < bs.len() ==> #[trigger] byte_vals(bs)[i] == bs[i] as u32);
            }
            crate::classify::lemma_escaped_no_escape(encode_scalar(v));
        }
    }
}

/// Escaping commutes with UTF-8 encoding: escaping the byte representation
/// is the byte representation of the character-level escape.
pub proof fn lemma_escaped_encode_utf8(cs: Seq<char>)
    ensures
        escaped(encode_utf8(cs)) == encode_utf8(escaped_chars(cs)),
    decreases cs.len(),
{
    if cs.len() == 0 {
        assert(escaped(encode_utf8(cs)) =~= encode_utf8(escaped_chars(cs)));
    } else {
        let c = cs[0];
        let rest = cs.drop_first();
        lemma_escaped_append(encode_scalar(c as u32), encode_utf8(rest));
        lemma_expansion_encode(c);
        lemma_escaped_encode_utf8(rest);
        lemma_encode_utf8_append(char_expansion(c), escaped_chars(rest));
    }
}

/// Presence of an escape value splits over concatenation.
proof fn lemma_has_escape_append(a: Seq<u32>, b: Seq<u32>)
    ensures
        has_escape(a + b) <==> (has_escape(a) || has_escape(b)),
{
    if has_escape(a) {
        let i = choose|i: int| 0 <= i < a.len() && is_escape_value(a[i]);
        assert((a + b)[i] == a[i]);
    }
    if has_escape(b) {
        let i = choose|i: int| 0 <= i < b.len() && is_escape_value(b[i]);
        assert((a + b)[a.len() + i] == b[i]);
    }
    if has_escape(a + b) {
        let i = choose|i: int| 0 <= i < (a + b).len() && is_escape_value((a + b)[i]);
        if i < a.len() {
            assert(a[i] == (a + b)[i]);
        } else {
            assert(b[i - a.len()] == (a + b)[i]);
        }
    }
}

/// Byte views split over concatenation.
proof fn lemma_byte_vals_append(a: Seq<u8>, b: Seq<u8>)
    ensures
        byte_vals(a + b) == byte_vals(a) + byte_vals(b),
{
    assert(byte_vals(a + b) =~= byte_vals(a) + byte_vals(b));
}

/// A sequence of scalar values holds an escape value exactly when its byte
/// representation holds an escape byte.
pub proof fn lemma_units_utf8_has_escape(vs: Seq<u32>)
    requires
        all_scalars(vs),
    ensures
        has_escape(byte_vals(units_utf8(vs))) <==> has_escape(vs),
    decreases vs.len(),
{
    if vs.len() == 0 {
        assert(byte_vals(units_utf8(vs)).len() == 0);
    } else {
        let v = vs[0];
        let rest = vs.drop_first();
        assert(is_scalar(v));
        assert(all_scalars(rest)) by {
            assert(forall|i: int| 0 <= i < rest.len() ==> #[trigger] rest[i] == vs[i + 1]);
        }
        lemma_units_utf8_has_escape(rest);
        lemma_byte_vals_append(encode_scalar(v), units_utf8(rest));
        lemma_has_escape_append(byte_vals(encode_scalar(v)), byte_vals(units_utf8(rest)));
        assert(has_escape(byte_vals(encode_scalar(v))) <==> is_escape_value(v)) by {
            let bs = encode_scalar(v);
            assert(forall|i: int| 0 <= i < bs.len() ==> #[trigger] byte_vals(bs)[i] == bs[i] as u32);
            if is_escape_value(v) {
                lemma_encode_scalar_ascii(v);
                lemma_ascii_byte(v);
                assert(byte_vals(bs)[0] == v);
            } else {
                lemma_encode_scalar_no_escape(v);
            }
        }
        assert(has_escape(vs) <==> (is_escape_value(v) || has_escape(rest))) by {
            lemma_has_escape_append(seq![v], rest);
            assert(seq![v] + rest =~= vs);
            assert(has_escape(seq![v]) <==> is_escape_value(v)) by {
                assert(seq![v][0] == v);
            }
        }
    }
}

/// The escape characters of a character sequence are exactly the escape
/// bytes of its byte representation.
pub proof fn lemma_encode_utf8_escape_presence(cs: Seq<char>)
    ensures
        has_escape(byte_vals(encode_utf8(cs))) <==> has_escape(chars_units(cs)),
{
    lemma_units_utf8_chars(cs);
    assert(all_scalars(chars_units(cs))) by {
        assert forall|i: int| 0 <= i < chars_units(cs).len() implies is_scalar(
            #[trigger] chars_units(cs)[i],
        ) by {
            char_is_scalar(cs[i]);
        }
    }
    lemma_units_utf8_has_escape(chars_units(cs));
}

/// A character sequence's unit values encode to its UTF-8 bytes.
pub proof fn lemma_units_utf8_chars(cs: Seq<char>)
    ensures
        units_utf8(chars_units(cs)) == encode_utf8(cs),
    decreases cs.len(),
{
    if cs.len() == 0 {
        assert(units_utf8(chars_units(cs)) =~= encode_utf8(cs));
    } else {
        assert(chars_units(cs)[0] == cs[0] as u32);
        assert(chars_units(cs).drop_first() =~= chars_units(cs.drop_first()));
        lemma_units_utf8_chars(cs.drop_first());
    }
}

/// The byte representation grows by at most four bytes per unit.
pub proof fn lemma_units_utf8_len(vs: Seq<u32>)
    ensures
        units_utf8(vs).len() <= 4 * vs.len(),
    decreases vs.len(),
{
    if vs.len() > 0 {
        lemma_units_utf8_len(vs.drop_first());
        assert(encode_scalar(vs[0]).len() <= 4);
    }
}

/// `first_non_scalar` is the least invalid position, in bounds whenever some
/// unit is invalid.
pub proof fn lemma_first_non_scalar(vs: Seq<u32>)
    ensures
        !all_scalars(vs) ==> 0 <= first_non_scalar(vs) < vs.len() && !is_scalar(
            vs[first_non_scalar(vs)],
        ),
        forall|p: int| 0 <= p < first_non_scalar(vs) && p < vs.len() ==> is_scalar(#[trigger] vs[p]),
    decreases vs.len(),
{
    if vs.len() > 0 && is_scalar(vs[0]) {
        let rest = vs.drop_first();
        lemma_first_non_scalar(rest);
        assert(forall|k: int| 0 <= k < rest.len() ==> #[trigger] rest[k] == vs[k + 1]);
        if !all_scalars(vs) {
            let i = choose|i: int| 0 <= i < vs.len() && !is_scalar(vs[i]);
            assert(rest[i - 1] == vs[i]);
            assert(!all_scalars(rest));
        }
        assert forall|p: int| 0 <= p < first_non_scalar(vs) && p < vs.len() implies is_scalar(
            #[trigger] vs[p],
        ) by {
            if p > 0 {
                assert(vs[p] == rest[p - 1]);
            }
        }
    }
}

/// Append the byte representation of one scalar value.
fn push_scalar_utf8(out: &mut Vec<u8>, v: u32)
    requires
        is_scalar(v),
    ensures
        final(out)@ == old(out)@ + encode_scalar(v),
{
    if v < 0x80 {
        out.push((v & 0x7F) as u8);
    } else if v < 0x800 {
        out.push(0xC0 | ((v >> 6) & 0x1F) as u8);
        out.push(0x80 | (v & 0x3F) as u8);
    } else if v < 0x10000 {
        out.push(0xE0 | ((v >> 12) & 0x0F) as u8);
        out.push(0x80 | ((v >> 6) & 0x3F) as u8);
        out.push(0x80 | (v & 0x3F) as u8);
    } else {
        out.push(0xF0 | ((v >> 18) & 0x7) as u8);
        out.push(0x80 | ((v >> 12) & 0x3F) as u8);
        out.push(0x80 | ((v >> 6) & 0x3F) as u8);
        out.push(0x80 | (v & 0x3F) as u8);
    }
    proof {
        assert(out@ =~= old(out)@ + encode_scalar(v));
    }
}

/// Convert a wide input to its byte representation, or report the first code
/// unit that is not a Unicode scalar value.
pub fn units_to_utf8<T: CodeUnit>(units: &[T]) -> (r: Result<Vec<u8>, EscapeError>)
    ensures
        match r {
            Ok(b) => all_scalars(unit_vals(units@)) && b@ == units_utf8(unit_vals(units@)),
            Err(e) => !all_scalars(unit_vals(units@)) && e == (EscapeError::InvalidCodeUnit {
                pos: first_non_scalar(unit_vals(units@)) as usize,
            }),
        },
{
    let ghost vs = unit_vals(units@);
    let len = units.len();
    let mut out: Vec<u8> = Vec::new();
    let mut i: usize = 0;
    proof {
        assert(out@ =~= units_utf8(vs.take(0)));
    }
    while i < len
        invariant
            i <= len,
            vs == unit_vals(units@),
            len == vs.len(),
            units@.len() == vs.len(),
            forall|p: int| 0 <= p < i ==> is_scalar(#[trigger] vs[p]),
            out@ == units_utf8(vs.take(i as int)),
        decreases len - i,
    {
        let v = units[i].to_u32();
        proof {
            assert(vs[i as int] == units@[i as int].unit_val());
        }
        if v < 0xD800 || (0xE000 <= v && v <= 0x10FFFF) {
            proof {
                assert(is_scalar(v));
            }
            push_scalar_utf8(&mut out, v);
            proof {
                lemma_units_utf8_snoc(vs, i as int);
            }
        } else {
            proof {
                assert(!is_scalar(v));
                lemma_first_non_scalar(vs);
                assert(!all_scalars(vs));
                let f = first_non_scalar(vs);
                assert(f <= i);
                assert(f >= i);
            }
            return Err(EscapeError::InvalidCodeUnit { pos: i });
        }
        i += 1;
    }
    proof {
        assert(vs.take(len as int) =~= vs);
        assert(all_scalars(vs));
    }
    Ok(out)
}

/// Extending a prefix by one unit appends that unit's encoding.
proof fn lemma_units_utf8_snoc(vs: Seq<u32>, i: int)
    requires
        0 <= i < vs.len(),
    ensures
        units_utf8(vs.take(i + 1)) == units_utf8(vs.take(i)) + encode_scalar(vs[i]),
{
    lemma_units_utf8_append(vs.take(i), seq![vs[i]]);
    assert(vs.take(i) + seq![vs[i]] =~= vs.take(i + 1));
    assert(units_utf8(seq![vs[i]]) =~= encode_scalar(vs[i])) by {
        assert(seq![vs[i]].drop_first() =~= Seq::<u32>::empty());
        assert(encode_scalar(vs[i]) + units_utf8(Seq::<u32>::empty()) =~= encode_scalar(vs[i]));
    }
}

/// The byte representation distributes over concatenation.
pub proof fn lemma_units_utf8_append(a: Seq<u32>, b: Seq<u32>)
    ensures
        units_utf8(a + b) == units_utf8(a) + units_utf8(b),
    decreases a.len(),
{
    if a.len() == 0 {
        assert(a + b =~= b);
        assert(units_utf8(a) + units_utf8(b) =~= units_utf8(b));
    } else {
        assert((a + b).drop_first() =~= a.drop_first() + b);
        assert((a + b)[0] == a[0]);
        lemma_units_utf8_append(a.drop_first(), b);
        assert(encode_scalar(a[0]) + (units_utf8(a.drop_first()) + units_utf8(b)) =~= (
        encode_scalar(a[0]) + units_utf8(a.drop_first())) + units_utf8(b));
    }
}

} // verus!
