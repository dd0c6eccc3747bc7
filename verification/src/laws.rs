//! General properties of the transformation, stated and proved once over the
//! model: repeating an input repeats its escaped form (so chunk boundaries
//! cannot matter), an input without escape characters is its own escaped
//! form, and the three storage widths of one text all yield the same escaped
//! output.
use vstd::prelude::*;

use vstd::utf8::encode_utf8;

use crate::classify::char_expansion;
use crate::classify::delta_units;
use crate::classify::esc_positions;
use crate::classify::escaped;
use crate::classify::escaped_chars;
use crate::classify::has_escape;
use crate::classify::lemma_escaped_append;
use crate::classify::lemma_escaped_chars_append;
use crate::encode::chars_units;
use crate::encode::lemma_escaped_encode_utf8;
use crate::encode::lemma_units_utf8_chars;
use crate::encode::units_utf8;
use crate::engine::positions_view;
use crate::unit::unit_vals;

verus! {

/// `n` copies of a byte sequence.
pub open spec fn repeated(s: Seq<u8>, n: nat) -> Seq<u8>
    decreases n,
{
    if n == 0 {
        Seq::empty()
    } else {
        repeated(s, (n - 1) as nat) + s
    }
}

/// `n` copies of a character sequence.
pub open spec fn repeated_chars(s: Seq<char>, n: nat) -> Seq<char>
    decreases n,
{
    if n == 0 {
        Seq::empty()
    } else {
        repeated_chars(s, (n - 1) as nat) + s
    }
}

/// Scale invariance: escaping `n` copies of a byte sequence yields `n`
/// copies of its escaped form, wherever the copies fall relative to chunk
/// boundaries.
pub proof fn lemma_scale_invariance(s: Seq<u8>, n: nat)
    ensures
        escaped(repeated(s, n)) == repeated(escaped(s), n),
    decreases n,
{
    if n == 0 {
        assert(repeated(s, 0).len() == 0);
    } else {
        lemma_scale_invariance(s, (n - 1) as nat);
        lemma_escaped_append(repeated(s, (n - 1) as nat), s);
    }
}

/// Scale invariance at the character level.
pub proof fn lemma_scale_invariance_chars(s: Seq<char>, n: nat)
    ensures
        escaped_chars(repeated_chars(s, n)) == repeated_chars(escaped_chars(s), n),
    decreases n,
{
    if n == 0 {
        assert(repeated_chars(s, 0).len() == 0);
    } else {
        lemma_scale_invariance_chars(s, (n - 1) as nat);
        lemma_escaped_chars_append(repeated_chars(s, (n - 1) as nat), s);
    }
}

/// A character sequence without escape characters is its own escaped form:
/// escaping such an input changes nothing.
pub proof fn lemma_no_escape_chars_identity(cs: Seq<char>)
    requires
        !has_escape(chars_units(cs)),
    ensures
        escaped_chars(cs) == cs,
    decreases cs.len(),
{
    if cs.len() > 0 {
        let rest = cs.drop_first();
        assert(chars_units(cs)[0] == cs[0] as u32);
        assert(char_expansion(cs[0]) == seq![cs[0]]);
        assert(chars_units(rest) =~= chars_units(cs).drop_first());
        assert(forall|k: int|
            0 <= k < chars_units(rest).len() ==> #[trigger] chars_units(rest)[k] == chars_units(
                cs,
            )[k + 1]);
        lemma_no_escape_chars_identity(rest);
        assert(seq![cs[0]] + rest =~= cs);
    }
}

/// Width equivalence: a text stored as 16-bit units, as 32-bit units, or as
/// its byte representation always escapes to the same final bytes, namely
/// the byte representation of the character-level escape.
pub proof fn lemma_width_equivalence(cs: Seq<char>, narrow: Seq<u16>, wide: Seq<u32>)
    requires
        unit_vals(narrow) == chars_units(cs),
        unit_vals(wide) == chars_units(cs),
    ensures
        units_utf8(unit_vals(narrow)) == encode_utf8(cs),
        units_utf8(unit_vals(wide)) == encode_utf8(cs),
        escaped(encode_utf8(cs)) == encode_utf8(escaped_chars(cs)),
{
    lemma_units_utf8_chars(cs);
    lemma_escaped_encode_utf8(cs);
}

/// Engine parity: the chunked mask engine and the element-by-element
/// reference implementation promise the same position list and the same
/// growth on every input, because both contracts pin their results to
/// `esc_positions` and `delta_units` of the same value sequence. Any two
/// result pairs meeting those contracts are therefore equal.
pub proof fn lemma_engine_parity(
    vs: Seq<u32>,
    chunked: (Seq<usize>, int),
    reference: (Seq<usize>, int),
)
    requires
        positions_view(chunked.0) == esc_positions(vs),
        chunked.1 == delta_units(vs),
        positions_view(reference.0) == esc_positions(vs),
        reference.1 == delta_units(vs),
    ensures
        chunked == reference,
{
    assert(chunked.0.len() == positions_view(chunked.0).len());
    assert(reference.0.len() == positions_view(reference.0).len());
    assert forall|i: int| 0 <= i < chunked.0.len() implies chunked.0[i] == reference.0[i] by {
        assert(positions_view(chunked.0)[i] == chunked.0[i] as int);
        assert(positions_view(reference.0)[i] == reference.0[i] as int);
    }
    assert(chunked.0 =~= reference.0);
}

} // verus!
