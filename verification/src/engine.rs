//! The reference replacement engine: element-by-element classification that
//! produces the replacement position list and the total output growth. It is
//! the correctness oracle for the chunked mask engine, which must produce
//! exactly the same positions and growth on every input.
use vstd::prelude::*;

use crate::classify::delta_units;
use crate::classify::esc_positions;
use crate::classify::growth;
use crate::classify::is_escape_value;
use crate::classify::lemma_delta_bound;
use crate::classify::lemma_prefix_stall;
use crate::classify::lemma_prefix_step;
use crate::unit::unit_vals;
use crate::unit::CodeUnit;

verus! {

/// The view of a collected position list as mathematical positions.
pub open spec fn positions_view(idxs: Seq<usize>) -> Seq<int> {
    idxs.map_values(|i: usize| i as int)
}

/// Whether bit `k` of the 64-bit chunk mask is set.
pub open spec fn mask_bit(m: u64, k: u64) -> bool {
    (m >> k) & 1 == 1
}

/// Setting bit `j` leaves every other bit unchanged.
proof fn lemma_mask_set(m: u64, j: u64, k: u64)
    by (bit_vector)
    requires
        j < 64,
        k < 64,
    ensures
        mask_bit(m | (1u64 << j), k) <==> (mask_bit(m, k) || k == j),
{
}

/// The OR of two masks holds the union of their bits.
proof fn lemma_mask_or(a: u64, b: u64, k: u64)
    by (bit_vector)
    requires
        k < 64,
    ensures
        mask_bit(a | b, k) <==> (mask_bit(a, k) || mask_bit(b, k)),
{
}

/// The empty mask has no bits.
proof fn lemma_mask_empty(k: u64)
    by (bit_vector)
    requires
        k < 64,
    ensures
        !mask_bit(0u64, k),
{
}

/// Clearing the lowest set bit `tz` keeps every other bit, strictly shrinks
/// the mask, and every bit below `tz` was already clear.
proof fn lemma_mask_clear_lowest(m: u64, m1: u64, tz: u64, k: u64)
    by (bit_vector)
    requires
        tz < 64,
        k < 64,
        m1 == m - 1,
        mask_bit(m, tz),
        m << ((64 - tz) as u64) == 0,
    ensures
        mask_bit(m & m1, k) <==> (mask_bit(m, k) && k != tz),
        (m & m1) < m,
        k < tz ==> !mask_bit(m, k),
{
}

/// Chunked mask engine: identical contract to [`reference_indices`], but the
/// input is processed one register-sized chunk at a time. Each chunk is
/// reduced to two 64-bit match masks, one per growth group (`<`/`>` grow by
/// 3, `"`/`'`/`&` by 4); the set bits of their union are the replacement
/// positions within the chunk and are extracted in increasing order by
/// repeatedly taking and clearing the lowest set bit.
pub fn chunked_indices<T: CodeUnit>(units: &[T]) -> (r: (Vec<usize>, usize))
    requires
        units@.len() <= usize::MAX / 4,
    ensures
        positions_view(r.0@) == esc_positions(unit_vals(units@)),
        r.1 as int == delta_units(unit_vals(units@)),
{
    let ghost vs = unit_vals(units@);
    let len = units.len();
    let lanes = T::chunk_len();
    let mut idxs: Vec<usize> = Vec::new();
    let mut d: usize = 0;
    let mut base: usize = 0;
    proof {
        assert(positions_view(idxs@) =~= esc_positions(vs.take(0)));
    }
    while len - base >= lanes
        invariant
            base <= len,
            1 <= lanes <= 64,
            len <= usize::MAX / 4,
            vs == unit_vals(units@),
            len == vs.len(),
            units@.len() == vs.len(),
            positions_view(idxs@) == esc_positions(vs.take(base as int)),
            d as int == delta_units(vs.take(base as int)),
        decreases len - base,
    {
        let mut m3: u64 = 0;
        let mut m4: u64 = 0;
        let mut j: usize = 0;
        proof {
            assert forall|k: u64| k < 64 implies !mask_bit(m3, k) && !mask_bit(m4, k) by {
                lemma_mask_empty(k);
            }
        }
        while j < lanes
            invariant
                j <= lanes,
                1 <= lanes <= 64,
                base + lanes <= len,
                vs == unit_vals(units@),
                len == vs.len(),
                units@.len() == vs.len(),
                forall|k: u64|
                    k < 64 ==> (#[trigger] mask_bit(m3, k) <==> (k < j && (vs[base + k] == 60
                        || vs[base + k] == 62))),
                forall|k: u64|
                    k < 64 ==> (#[trigger] mask_bit(m4, k) <==> (k < j && (vs[base + k] == 34
                        || vs[base + k] == 38 || vs[base + k] == 39))),
            decreases lanes - j,
        {
            let v = units[base + j].to_u32();
            proof {
                assert(vs[base + j as int] == units@[base + j as int].unit_val());
            }
            if v == 60 || v == 62 {
                let ghost m3_old = m3;
                m3 = m3 | (1u64 << (j as u64));
                proof {
                    assert forall|k: u64| k < 64 implies (#[trigger] mask_bit(m3, k) <==> (k < j + 1
                        && (vs[base + k] == 60 || vs[base + k] == 62))) by {
                        lemma_mask_set(m3_old, j as u64, k);
                    }
                }
            } else if v == 34 || v == 38 || v == 39 {
                let ghost m4_old = m4;
                m4 = m4 | (1u64 << (j as u64));
                proof {
                    assert forall|k: u64| k < 64 implies (#[trigger] mask_bit(m4, k) <==> (k < j + 1
                        && (vs[base + k] == 34 || vs[base + k] == 38 || vs[base + k] == 39))) by {
                        lemma_mask_set(m4_old, j as u64, k);
                    }
                }
            }
            j += 1;
        }
        let mut mask: u64 = m3 | m4;
        let ghost mut next: int = 0;
        proof {
            assert forall|k: u64| k < 64 implies (#[trigger] mask_bit(mask, k) <==> (next <= k
                < lanes && is_escape_value(vs[base + k]))) by {
                lemma_mask_or(m3, m4, k);
            }
        }
        while mask != 0
            invariant
                0 <= next <= lanes,
                1 <= lanes <= 64,
                base + lanes <= len,
                len <= usize::MAX / 4,
                vs == unit_vals(units@),
                len == vs.len(),
                units@.len() == vs.len(),
                positions_view(idxs@) == esc_positions(vs.take(base + next)),
                d as int == delta_units(vs.take(base + next)),
                forall|k: u64|
                    k < 64 ==> (#[trigger] mask_bit(mask, k) <==> (next <= k < lanes
                        && is_escape_value(vs[base + k]))),
                forall|k: u64|
                    k < 64 ==> (#[trigger] mask_bit(m3, k) <==> (k < lanes && (vs[base + k] == 60
                        || vs[base + k] == 62))),
            decreases mask,
        {
            let tz32 = mask.trailing_zeros();
            proof {
                vstd::std_specs::bits::axiom_u64_trailing_zeros(mask);
            }
            let tz = tz32 as usize;
            let ghost tzg = tz as u64;
            proof {
                assert(tzg < 64);
                assert(mask_bit(mask, tzg));
                assert(next <= tzg < lanes && is_escape_value(vs[base + tzg]));
                assert forall|k: u64| k < tzg implies !mask_bit(mask, k) by {
                    lemma_mask_clear_lowest(mask, (mask - 1) as u64, tzg, k);
                }
                assert forall|p: int| base + next <= p < base + tzg implies !is_escape_value(
                    #[trigger] vs[p],
                ) by {
                    let k = (p - base) as u64;
                    assert(!mask_bit(mask, k));
                }
                lemma_prefix_stall(vs, base + next, base + tzg);
                lemma_prefix_step(vs, base + tzg);
                lemma_delta_bound(vs.take(base + tzg));
                assert(4 * (base + tzg) <= 4 * vs.len());
                assert(4 * (usize::MAX as int / 4) <= usize::MAX as int);
            }
            let pos = base + tz;
            idxs.push(pos);
            proof {
                assert(positions_view(idxs@) =~= esc_positions(vs.take(base + tzg)).push(
                    base + tzg,
                ));
            }
            let grow: usize = if (m3 >> (tz32 as u64)) & 1 == 1 {
                3
            } else {
                4
            };
            proof {
                if mask_bit(m3, tzg) {
                    assert(growth(vs[base + tzg]) == 3);
                } else {
                    assert(growth(vs[base + tzg]) == 4);
                }
            }
            d = d + grow;
            let ghost mask_old = mask;
            mask = mask & (mask - 1);
            proof {
                assert forall|k: u64| k < 64 implies (#[trigger] mask_bit(mask, k) <==> (tzg + 1
                    <= k < lanes && is_escape_value(vs[base + k]))) by {
                    lemma_mask_clear_lowest(mask_old, (mask_old - 1) as u64, tzg, k);
                }
                lemma_mask_clear_lowest(mask_old, (mask_old - 1) as u64, tzg, 0);
                next = tzg + 1;
            }
        }
        proof {
            assert forall|p: int| base + next <= p < base + lanes implies !is_escape_value(
                #[trigger] vs[p],
            ) by {
                let k = (p - base) as u64;
                assert(!mask_bit(mask, k));
            }
            lemma_prefix_stall(vs, base + next, base + lanes);
        }
        base += lanes;
    }
    let mut i: usize = base;
    while i < len
        invariant
            base <= i <= len,
            len <= usize::MAX / 4,
            vs == unit_vals(units@),
            len == vs.len(),
            units@.len() == vs.len(),
            positions_view(idxs@) == esc_positions(vs.take(i as int)),
            d as int == delta_units(vs.take(i as int)),
        decreases len - i,
    {
        proof {
            lemma_delta_bound(vs.take(i as int));
            lemma_prefix_step(vs, i as int);
            assert(vs[i as int] == units@[i as int].unit_val());
            assert(4 * (usize::MAX as int / 4) <= usize::MAX as int);
        }
        let v = units[i].to_u32();
        if v == 60 || v == 62 {
            idxs.push(i);
            d = d + 3;
            proof {
                assert(growth(vs[i as int]) == 3);
                assert(positions_view(idxs@) =~= esc_positions(vs.take(i as int)).push(i as int));
            }
        } else if v == 34 || v == 38 || v == 39 {
            idxs.push(i);
            d = d + 4;
            proof {
                assert(growth(vs[i as int]) == 4);
                assert(positions_view(idxs@) =~= esc_positions(vs.take(i as int)).push(i as int));
            }
        } else {
            proof {
                assert(!is_escape_value(vs[i as int]));
            }
        }
        i += 1;
    }
    proof {
        assert(vs.take(len as int) =~= vs);
    }
    (idxs, d)
}

/// Element-by-element reference implementation: returns the positions of all
/// escape units in increasing order together with the total output growth.
pub fn reference_indices<T: CodeUnit>(units: &[T]) -> (r: (Vec<usize>, usize))
    requires
        units@.len() <= usize::MAX / 4,
    ensures
        positions_view(r.0@) == esc_positions(unit_vals(units@)),
        r.1 as int == delta_units(unit_vals(units@)),
{
    let ghost vs = unit_vals(units@);
    let len = units.len();
    let mut idxs: Vec<usize> = Vec::new();
    let mut d: usize = 0;
    let mut i: usize = 0;
    proof {
        assert(positions_view(idxs@) =~= esc_positions(vs.take(0)));
    }
    while i < len
        invariant
            i <= len,
            len <= usize::MAX / 4,
            vs == unit_vals(units@),
            len == vs.len(),
            units@.len() == vs.len(),
            positions_view(idxs@) == esc_positions(vs.take(i as int)),
            d as int == delta_units(vs.take(i as int)),
        decreases len - i,
    {
        proof {
            lemma_delta_bound(vs.take(i as int));
            lemma_prefix_step(vs, i as int);
            assert(vs[i as int] == units@[i as int].unit_val());
        }
        let v = units[i].to_u32();
        if v == 60 || v == 62 {
            idxs.push(i);
            d = d + 3;
            proof {
                assert(growth(vs[i as int]) == 3);
                assert(positions_view(idxs@) =~= esc_positions(vs.take(i as int)).push(i as int));
            }
        } else if v == 34 || v == 38 || v == 39 {
            idxs.push(i);
            d = d + 4;
            proof {
                assert(growth(vs[i as int]) == 4);
                assert(positions_view(idxs@) =~= esc_positions(vs.take(i as int)).push(i as int));
            }
        } else {
            proof {
                assert(!is_escape_value(vs[i as int]));
            }
        }
        i += 1;
    }
    proof {
        assert(vs.take(len as int) =~= vs);
    }
    (idxs, d)
}

} // verus!
