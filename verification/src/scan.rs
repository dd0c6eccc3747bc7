//! The presence scanner: decides whether an input needs any escaping at all,
//! short-circuiting the common no-escape case without allocating. Bytes are
//! scanned four at a time with the per-byte classifications combined by OR;
//! the width-generic scanner processes one register-sized chunk per step.
use vstd::prelude::*;

use crate::classify::byte_needs_escape;
use crate::classify::byte_vals;
use crate::classify::has_escape;
use crate::classify::is_escape_value;
use crate::unit::unit_vals;
use crate::unit::CodeUnit;

verus! {

/// The position of the first escape unit; the length when there is none.
pub open spec fn first_escape(vs: Seq<u32>) -> int
    decreases vs.len(),
{
    if vs.len() == 0 {
        0
    } else if is_escape_value(vs[0]) {
        0
    } else {
        1 + first_escape(vs.drop_first())
    }
}

/// Where the four-at-a-time byte scan stops: the base of the four-byte chunk
/// holding the first escape byte, or the exact position when that byte lies
/// in the remainder after the last full chunk.
pub open spec fn scan_stop(vs: Seq<u32>) -> int {
    let f = first_escape(vs);
    if f < 4 * (vs.len() / 4) {
        4 * (f / 4)
    } else {
        f
    }
}

/// `first_escape` is the least escape position, and is in bounds whenever
/// some unit needs escaping.
pub proof fn lemma_first_escape(vs: Seq<u32>)
    ensures
        has_escape(vs) ==> 0 <= first_escape(vs) < vs.len() && is_escape_value(
            vs[first_escape(vs)],
        ),
        forall|p: int|
            0 <= p < first_escape(vs) && p < vs.len() ==> !is_escape_value(#[trigger] vs[p]),
    decreases vs.len(),
{
    if vs.len() > 0 && !is_escape_value(vs[0]) {
        let rest = vs.drop_first();
        lemma_first_escape(rest);
        assert(forall|k: int| 0 <= k < rest.len() ==> #[trigger] rest[k] == vs[k + 1]);
        if has_escape(vs) {
            let i = choose|i: int| 0 <= i < vs.len() && is_escape_value(vs[i]);
            assert(rest[i - 1] == vs[i]);
            assert(has_escape(rest));
        }
        assert forall|p: int|
            0 <= p < first_escape(vs) && p < vs.len() implies !is_escape_value(
            #[trigger] vs[p],
        ) by {
            if p > 0 {
                assert(vs[p] == rest[p - 1]);
            }
        }
    }
}

/// Return `None` when no byte needs escaping, else `Some` of the position
/// where the four-at-a-time scan stopped: at most the first escape position,
/// with no escape byte before it.
pub fn needs_sanitize(bytes: &[u8]) -> (r: Option<usize>)
    ensures
        match r {
            None => !has_escape(byte_vals(bytes@)),
            Some(i) => has_escape(byte_vals(bytes@)) && i == scan_stop(byte_vals(bytes@)),
        },
{
    let ghost vs = byte_vals(bytes@);
    proof {
        lemma_first_escape(vs);
        assert(vs.len() == bytes@.len());
        assert(forall|p: int| 0 <= p < bytes@.len() ==> #[trigger] vs[p] == bytes@[p] as u32);
    }
    let len = bytes.len();
    let nchunks = len / 4;
    let mut c: usize = 0;
    while c < nchunks
        invariant
            c <= nchunks,
            nchunks == len / 4,
            vs == byte_vals(bytes@),
            len == vs.len(),
            bytes@.len() == vs.len(),
            forall|p: int| 0 <= p < bytes@.len() ==> #[trigger] vs[p] == bytes@[p] as u32,
            forall|p: int| 0 <= p < 4 * c ==> !is_escape_value(#[trigger] vs[p]),
        decreases nchunks - c,
    {
        proof {
            assert(4 * c + 4 <= 4 * nchunks <= len) by (nonlinear_arith)
                requires
                    c < nchunks,
                    nchunks == len / 4,
                    len >= 0,
            ;
        }
        let base = 4 * c;
        let a = byte_needs_escape(bytes[base]);
        let b = byte_needs_escape(bytes[base + 1]);
        let d = byte_needs_escape(bytes[base + 2]);
        let e = byte_needs_escape(bytes[base + 3]);
        if a || b || d || e {
            proof {
                lemma_first_escape(vs);
                let f = first_escape(vs);
                assert(is_escape_value(vs[base as int]) || is_escape_value(vs[base + 1int])
                    || is_escape_value(vs[base + 2int]) || is_escape_value(vs[base + 3int]));
                assert(has_escape(vs));
                assert(base <= f < base + 4);
                assert(f < 4 * (len / 4));
                assert(f / 4 == c && 4 * (f / 4) == 4 * c) by (nonlinear_arith)
                    requires
                        4 * c <= f < 4 * c + 4,
                        c >= 0,
                ;
                assert(scan_stop(vs) == 4 * (f / 4));
                assert(base == scan_stop(vs));
            }
            return Some(base);
        }
        c += 1;
    }
    let mut i: usize = nchunks * 4;
    proof {
        assert(nchunks * 4 == 4 * nchunks && 4 * (len / 4) <= len) by (nonlinear_arith)
            requires
                nchunks == len / 4,
                len >= 0,
        ;
    }
    while i < len
        invariant
            4 * (len / 4) <= i <= len,
            vs == byte_vals(bytes@),
            len == vs.len(),
            bytes@.len() == vs.len(),
            forall|p: int| 0 <= p < bytes@.len() ==> #[trigger] vs[p] == bytes@[p] as u32,
            forall|p: int| 0 <= p < i ==> !is_escape_value(#[trigger] vs[p]),
        decreases len - i,
    {
        if byte_needs_escape(bytes[i]) {
            proof {
                assert(is_escape_value(vs[i as int]));
                lemma_first_escape(vs);
                assert(has_escape(vs));
                let f = first_escape(vs);
                assert(f <= i);
                assert(f >= i);
                assert(scan_stop(vs) == i);
            }
            return Some(i);
        }
        i += 1;
    }
    None
}

/// Return true iff some unit of the input needs escaping. Full chunks
/// combine the five equality tests over every lane by OR before one branch;
/// the remainder is scanned element by element.
pub fn contains_escape<T: CodeUnit>(units: &[T]) -> (r: bool)
    ensures
        r == has_escape(unit_vals(units@)),
{
    let ghost vs = unit_vals(units@);
    let len = units.len();
    let lanes = T::chunk_len();
    let mut base: usize = 0;
    while len - base >= lanes
        invariant
            base <= len,
            1 <= lanes <= 64,
            len == vs.len(),
            vs == unit_vals(units@),
            units@.len() == vs.len(),
            forall|p: int| 0 <= p < base ==> !is_escape_value(#[trigger] vs[p]),
        decreases len - base,
    {
        let mut found = false;
        let mut j: usize = 0;
        while j < lanes
            invariant
                0 <= j <= lanes,
                base + lanes <= len,
                len == vs.len(),
                vs == unit_vals(units@),
                units@.len() == vs.len(),
                found == exists|p: int| base <= p < base + j && is_escape_value(#[trigger] vs[p]),
            decreases lanes - j,
        {
            let v = units[base + j].to_u32();
            proof {
                assert(vs[base + j as int] == units@[base + j as int].unit_val());
            }
            let hit = (v == 34) || (v == 38) || (v == 39) || (v == 60) || (v == 62);
            proof {
                if hit {
                    assert(is_escape_value(vs[base + j as int]));
                }
                if found || hit {
                    assert(exists|p: int|
                        base <= p < base + j + 1 && is_escape_value(#[trigger] vs[p]));
                }
            }
            found = found || hit;
            j += 1;
        }
        if found {
            return true;
        }
        base += lanes;
    }
    let mut i: usize = base;
    while i < len
        invariant
            base <= i <= len,
            len == vs.len(),
            vs == unit_vals(units@),
            units@.len() == vs.len(),
            forall|p: int| 0 <= p < i ==> !is_escape_value(#[trigger] vs[p]),
        decreases len - i,
    {
        let v = units[i].to_u32();
        if (v == 34) || (v == 38) || (v == 39) || (v == 60) || (v == 62) {
            proof {
                assert(vs[i as int] == units@[i as int].unit_val());
            }
            return true;
        }
        proof {
            assert(vs[i as int] == units@[i as int].unit_val());
        }
        i += 1;
    }
    false
}

} // verus!
