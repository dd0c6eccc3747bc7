//! The rebuilder: given the original bytes, the replacement position list and
//! the total growth, it allocates the output at its exact final size and
//! copies unchanged spans interleaved with the fixed replacement strings,
//! driven by a single forward cursor over the monotonic position list.
use vstd::prelude::*;

use crate::classify::byte_vals;
use crate::classify::delta_units;
use crate::classify::esc_positions;
use crate::classify::escaped;
use crate::classify::is_escape_value;
use crate::classify::lemma_esc_positions_props;
use crate::classify::lemma_escaped_len;
use crate::classify::lemma_escaped_span;
use crate::classify::lemma_escaped_take_succ;
use crate::classify::replacement_bytes;
use crate::classify::replacement_index;
use crate::engine::positions_view;

verus! {

/// Append the fixed replacement string for one escape byte, selected through
/// the classification table's replacement index.
fn push_replacement(out: &mut Vec<u8>, b: u8)
    requires
        is_escape_value(b as u32),
    ensures
        final(out)@ == old(out)@ + replacement_bytes(b as u32),
{
    let ri = replacement_index(b);
    if ri == 0 {
        out.push(38);
        out.push(35);
        out.push(51);
        out.push(52);
        out.push(59);
    } else if ri == 1 {
        out.push(38);
        out.push(97);
        out.push(109);
        out.push(112);
        out.push(59);
    } else if ri == 2 {
        out.push(38);
        out.push(35);
        out.push(51);
        out.push(57);
        out.push(59);
    } else if ri == 3 {
        out.push(38);
        out.push(108);
        out.push(116);
        out.push(59);
    } else {
        out.push(38);
        out.push(103);
        out.push(116);
        out.push(59);
    }
    proof {
        assert(out@ =~= old(out)@ + replacement_bytes(b as u32));
    }
}

/// Append the unchanged span `[from, to)` of the original bytes.
fn push_span(out: &mut Vec<u8>, bytes: &[u8], from: usize, to: usize)
    requires
        from <= to <= bytes@.len(),
    ensures
        final(out)@ == old(out)@ + bytes@.subrange(from as int, to as int),
{
    let mut p = from;
    proof {
        assert(out@ =~= old(out)@ + bytes@.subrange(from as int, from as int));
    }
    while p < to
        invariant
            from <= p <= to <= bytes@.len(),
            out@ == old(out)@ + bytes@.subrange(from as int, p as int),
        decreases to - p,
    {
        out.push(bytes[p]);
        proof {
            assert(out@ =~= old(out)@ + bytes@.subrange(from as int, p + 1));
        }
        p += 1;
    }
}

/// Build the output: exactly the original bytes with every listed position
/// replaced by its entity. The output buffer is allocated once, at its exact
/// final size, which the growth argument determines in advance.
pub fn rebuild(bytes: &[u8], indices: &Vec<usize>, d: usize) -> (out: Vec<u8>)
    requires
        positions_view(indices@) == esc_positions(byte_vals(bytes@)),
        d as int == delta_units(byte_vals(bytes@)),
        bytes@.len() + d <= usize::MAX,
    ensures
        out@ == escaped(bytes@),
        out@.len() == bytes@.len() + d,
{
    let ghost vs = byte_vals(bytes@);
    let ghost ps = esc_positions(vs);
    let len = bytes.len();
    let n = indices.len();
    let mut out: Vec<u8> = Vec::with_capacity(len + d);
    let mut prev: usize = 0;
    let mut k: usize = 0;
    proof {
        lemma_esc_positions_props(vs);
        assert(vs.len() == bytes@.len());
        assert(forall|p: int| 0 <= p < bytes@.len() ==> #[trigger] vs[p] == bytes@[p] as u32);
        assert(out@ =~= escaped(bytes@.take(0)));
    }
    while k < n
        invariant
            k <= n,
            n == indices@.len(),
            vs == byte_vals(bytes@),
            ps == esc_positions(vs),
            positions_view(indices@) == ps,
            len == bytes@.len(),
            vs.len() == bytes@.len(),
            prev <= len,
            k > 0 ==> prev == ps[k - 1] + 1,
            k == 0 ==> prev == 0,
            out@ == escaped(bytes@.take(prev as int)),
        decreases n - k,
    {
        proof {
            lemma_esc_positions_props(vs);
            assert(forall|p: int| 0 <= p < bytes@.len() ==> #[trigger] vs[p] == bytes@[p] as u32);
        }
        let idx = indices[k];
        proof {
            assert(positions_view(indices@)[k as int] == idx as int);
            assert(ps[k as int] == idx as int);
            assert(0 <= idx < len && is_escape_value(vs[idx as int]));
            if k > 0 {
                assert(ps[k - 1] < ps[k as int]);
            }
            assert(prev <= idx);
            assert forall|p: int| prev <= p < idx implies !is_escape_value(
                (#[trigger] bytes@[p]) as u32,
            ) by {
                if is_escape_value(bytes@[p] as u32) {
                    assert(is_escape_value(vs[p]));
                    assert(ps.contains(p));
                    let j = choose|j: int| 0 <= j < ps.len() && ps[j] == p;
                    if j >= k {
                        if j > k {
                            assert(ps[k as int] < ps[j]);
                        }
                        assert(false);
                    }
                    if k > 0 {
                        if j < k - 1 {
                            assert(ps[j] < ps[k - 1]);
                        }
                        assert(false);
                    }
                    assert(false);
                }
            }
            lemma_escaped_span(bytes@, prev as int, idx as int);
        }
        push_span(&mut out, bytes, prev, idx);
        let b = bytes[idx];
        proof {
            assert(is_escape_value(b as u32));
        }
        push_replacement(&mut out, b);
        proof {
            lemma_escaped_take_succ(bytes@, idx as int);
            assert(out@ =~= escaped(bytes@.take(idx + 1)));
        }
        prev = idx + 1;
        k += 1;
    }
    proof {
        lemma_esc_positions_props(vs);
        assert(forall|p: int| 0 <= p < bytes@.len() ==> #[trigger] vs[p] == bytes@[p] as u32);
        assert forall|p: int| prev <= p < len implies !is_escape_value(
            (#[trigger] bytes@[p]) as u32,
        ) by {
            if is_escape_value(bytes@[p] as u32) {
                assert(is_escape_value(vs[p]));
                assert(ps.contains(p));
                let j = choose|j: int| 0 <= j < ps.len() && ps[j] == p;
                if k > 0 && j < k - 1 {
                    assert(ps[j] < ps[k - 1]);
                }
                assert(false);
            }
        }
        lemma_escaped_span(bytes@, prev as int, len as int);
    }
    push_span(&mut out, bytes, prev, len);
    proof {
        assert(bytes@.take(len as int) =~= bytes@);
        lemma_escaped_len(bytes@);
    }
    out
}

} // verus!
