//! The orchestrator: run the presence scanner first and return without
//! allocating when nothing needs escaping; otherwise compute the replacement
//! positions and the exact output size with the chunked mask engine and
//! rebuild the output in one pass.
use vstd::prelude::*;

use vstd::utf8::encode_utf8;
use vstd::utf8::encode_utf8_decode_utf8;
use vstd::utf8::encode_utf8_valid_utf8;
use vstd::utf8::valid_utf8;

use crate::classify::byte_vals;
use crate::classify::delta_units;
use crate::classify::escaped;
use crate::classify::escaped_chars;
use crate::classify::has_escape;
use crate::classify::lemma_delta_bound;
use crate::encode::all_scalars;
use crate::encode::chars_units;
use crate::encode::first_non_scalar;
use crate::encode::lemma_encode_utf8_escape_presence;
use crate::encode::lemma_escaped_encode_utf8;
use crate::encode::lemma_units_utf8_has_escape;
use crate::encode::lemma_units_utf8_len;
use crate::encode::units_to_utf8;
use crate::encode::units_utf8;
use crate::encode::EscapeError;
use crate::engine::chunked_indices;
use crate::rebuild::rebuild;
use crate::scan::contains_escape;
use crate::scan::needs_sanitize;
use crate::unit::lemma_unit_vals_bytes;
use crate::unit::unit_vals;
use crate::unit::CodeUnit;

verus! {

/// Escape a byte-oriented input: `None` when no byte needs escaping (the
/// caller keeps the original, no allocation happens), else the fully escaped
/// output, whose length is the input length plus the total growth.
pub fn escape_bytes(bytes: &[u8]) -> (r: Option<Vec<u8>>)
    requires
        bytes@.len() <= usize::MAX / 5,
    ensures
        match r {
            None => !has_escape(byte_vals(bytes@)),
            Some(out) => has_escape(byte_vals(bytes@)) && out@ == escaped(bytes@) && out@.len()
                == bytes@.len() + delta_units(byte_vals(bytes@)),
        },
{
    match needs_sanitize(bytes) {
        None => None,
        Some(_hit) => {
            proof {
                assert(usize::MAX as int / 5 <= usize::MAX as int / 4);
            }
            let engine_out = chunked_indices(bytes);
            let idxs = engine_out.0;
            let d = engine_out.1;
            proof {
                lemma_unit_vals_bytes(bytes@);
                lemma_delta_bound(byte_vals(bytes@));
                assert(byte_vals(bytes@).len() == bytes@.len());
                assert(5 * (usize::MAX as int / 5) <= usize::MAX as int);
            }
            let out = rebuild(bytes, &idxs, d);
            Some(out)
        },
    }
}

/// Relies on `String::from_utf8` of std: it returns `Ok` exactly when the
/// bytes are valid UTF-8, and the returned string holds exactly those bytes.
#[verifier::external_body]
fn string_from_utf8(v: Vec<u8>) -> (r: Option<String>)
    ensures
        r is Some <==> valid_utf8(v@),
        r matches Some(s) ==> encode_utf8(s@) == v@,
{
    String::from_utf8(v).ok()
}

/// Escape a string: `None` when no character needs escaping (the caller
/// keeps the original, nothing is allocated), else the escaped string, whose
/// characters and whose byte representation are exactly the escaped forms of
/// the input's.
pub fn lut_replace(input: &str) -> (r: Option<String>)
    requires
        encode_utf8(input@).len() <= usize::MAX / 5,
    ensures
        match r {
            None => !has_escape(chars_units(input@)),
            Some(out) => {
                &&& has_escape(chars_units(input@))
                &&& out@ == escaped_chars(input@)
                &&& encode_utf8(out@) == escaped(encode_utf8(input@))
            },
        },
{
    let bytes = input.as_bytes();
    proof {
        lemma_encode_utf8_escape_presence(input@);
    }
    match escape_bytes(bytes) {
        None => None,
        Some(out_bytes) => {
            proof {
                lemma_escaped_encode_utf8(input@);
                encode_utf8_valid_utf8(escaped_chars(input@));
            }
            match string_from_utf8(out_bytes) {
                Some(s) => {
                    proof {
                        encode_utf8_decode_utf8(s@);
                        encode_utf8_decode_utf8(escaped_chars(input@));
                    }
                    Some(s)
                },
                None => {
                    proof {
                        assert(false);
                    }
                    None
                },
            }
        },
    }
}

/// Escape a wide (16- or 32-bit) input. The input is scanned at its own
/// width first: when nothing needs escaping, `Ok(None)` is returned without
/// converting or allocating. Otherwise the input is converted once to the
/// byte representation and escaped there; a code unit that is not a Unicode
/// scalar value makes the conversion impossible and is reported as the
/// error, with the position of the first such unit.
pub fn escape_wide<T: CodeUnit>(units: &[T]) -> (r: Result<Option<Vec<u8>>, EscapeError>)
    requires
        4 * units@.len() <= usize::MAX / 5,
    ensures
        match r {
            Ok(None) => !has_escape(unit_vals(units@)),
            Ok(Some(out)) => {
                &&& has_escape(unit_vals(units@))
                &&& all_scalars(unit_vals(units@))
                &&& out@ == escaped(units_utf8(unit_vals(units@)))
            },
            Err(e) => {
                &&& has_escape(unit_vals(units@))
                &&& !all_scalars(unit_vals(units@))
                &&& e == (EscapeError::InvalidCodeUnit {
                    pos: first_non_scalar(unit_vals(units@)) as usize,
                })
            },
        },
{
    if !contains_escape(units) {
        return Ok(None);
    }
    match units_to_utf8(units) {
        Err(e) => Err(e),
        Ok(bytes8) => {
            proof {
                lemma_units_utf8_len(unit_vals(units@));
                lemma_units_utf8_has_escape(unit_vals(units@));
                lemma_unit_vals_bytes(bytes8@);
            }
            match escape_bytes(bytes8.as_slice()) {
                Some(out) => Ok(Some(out)),
                None => {
                    proof {
                        assert(false);
                    }
                    Ok(None)
                },
            }
        },
    }
}

} // verus!
