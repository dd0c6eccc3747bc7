//! The code-unit abstraction: one algorithm serves 8-, 16- and 32-bit text
//! storage. A code unit is an unsigned integer whose value can be compared
//! against the five escape characters; the per-width chunk length keeps one
//! logical chunk at a constant register-sized bit width.
use vstd::prelude::*;

verus! {

/// One fixed-width storage element of a text buffer.
pub trait CodeUnit: Sized + Copy {
    /// The unit's numeric value.
    spec fn unit_val(self) -> u32;

    /// The unit's numeric value, for equality tests against the escape set.
    fn to_u32(self) -> (r: u32)
        ensures
            r == self.unit_val(),
    ;

    /// How many units one scan chunk holds at this width, chosen so that a
    /// chunk always spans the same number of bits and its match mask fits in
    /// one 64-bit word.
    fn chunk_len() -> (n: usize)
        ensures
            1 <= n <= 64,
    ;
}

impl CodeUnit for u8 {
    open spec fn unit_val(self) -> u32 {
        self as u32
    }

    fn to_u32(self) -> u32 {
        self as u32
    }

    fn chunk_len() -> usize {
        64
    }
}

impl CodeUnit for u16 {
    open spec fn unit_val(self) -> u32 {
        self as u32
    }

    fn to_u32(self) -> u32 {
        self as u32
    }

    fn chunk_len() -> usize {
        32
    }
}

impl CodeUnit for u32 {
    open spec fn unit_val(self) -> u32 {
        self
    }

    fn to_u32(self) -> u32 {
        self
    }

    fn chunk_len() -> usize {
        16
    }
}

/// A unit sequence seen as the sequence of its numeric values.
pub open spec fn unit_vals<T: CodeUnit>(s: Seq<T>) -> Seq<u32> {
    s.map_values(|t: T| t.unit_val())
}

/// For bytes, the two views of a sequence as values coincide.
pub proof fn lemma_unit_vals_bytes(s: Seq<u8>)
    ensures
        unit_vals(s) == crate::classify::byte_vals(s),
{
    assert(unit_vals(s) =~= crate::classify::byte_vals(s));
}

} // verus!
