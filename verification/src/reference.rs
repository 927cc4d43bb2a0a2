//! Hit-testing results for raster references placed in world space.
use vstd::prelude::*;

use crate::trace::PixelCoord;

verus! {

/// A reference found under a world point, with the pixel that was hit.
#[derive(Debug, Clone, Copy, PartialEq, Eq, Structural)]
pub struct ReferenceHit {
    pub reference_id: u128,
    pub asset_id: u128,
    pub pixel: PixelCoord,
    pub z_index: i64,
}

/// `a` comes no later than `b` in hit order: higher z first, then higher id.
pub open spec fn hit_before(a: ReferenceHit, b: ReferenceHit) -> bool {
    a.z_index > b.z_index || (a.z_index == b.z_index && a.reference_id >= b.reference_id)
}

pub open spec fn same_hit_key(a: ReferenceHit, b: ReferenceHit) -> bool {
    a.z_index == b.z_index && a.reference_id == b.reference_id
}

/// Hits ordered topmost first.
pub open spec fn hits_ordered(s: Seq<ReferenceHit>) -> bool {
    forall|i: int, j: int| 0 <= i < j < s.len() ==> hit_before(#[trigger] s[i], #[trigger] s[j])
}

/// `out` is `input` moved by the permutation `perm` (`out[k] == input[perm[k]]`),
/// with hits of equal key kept in input order.
pub open spec fn stable_hit_rearrangement(input: Seq<ReferenceHit>, out: Seq<ReferenceHit>, perm: Seq<int>) -> bool {
    &&& out.len() == input.len()
    &&& perm.len() == input.len()
    &&& forall|k: int| 0 <= k < perm.len() ==> 0 <= #[trigger] perm[k] < input.len() && out[k] == input[perm[k]]
    &&& forall|i: int, j: int| 0 <= i < j < perm.len() ==> #[trigger] perm[i] != #[trigger] perm[j]
    &&& forall|i: int, j: int|
        0 <= i < j < out.len() && same_hit_key(#[trigger] out[i], #[trigger] out[j]) ==> perm[i] < perm[j]
}

fn hit_before_exec(a: &ReferenceHit, b: &ReferenceHit) -> (r: bool)
    ensures
        r == hit_before(*a, *b),
{
    a.z_index > b.z_index || (a.z_index == b.z_index && a.reference_id >= b.reference_id)
}

/// Orders hits topmost first: by z-index descending, then by reference id
/// descending; the sort is stable.
pub fn order_hits(hits: &Vec<ReferenceHit>) -> (out: Vec<ReferenceHit>)
    ensures
        hits_ordered(out@),
        exists|perm: Seq<int>| stable_hit_rearrangement(hits@, out@, perm),
{
    let mut out: Vec<ReferenceHit> = Vec::new();
    let ghost mut perm: Seq<int> = Seq::empty();
    let mut m: usize = 0;
    while m < hits.len()
        invariant
            m <= hits@.len(),
            out@.len() == m,
            perm.len() == m,
            hits_ordered(out@),
            forall|k: int| 0 <= k < m ==> 0 <= #[trigger] perm[k] < m && out@[k] == hits@[perm[k]],
            forall|i: int, j: int| 0 <= i < j < m ==> #[trigger] perm[i] != #[trigger] perm[j],
            forall|i: int, j: int|
                0 <= i < j < m && same_hit_key(#[trigger] out@[i], #[trigger] out@[j]) ==> perm[i] < perm[j],
        decreases hits@.len() - m,
    {
        let e = hits[m];
        let mut p: usize = 0;
        while p < out.len() && hit_before_exec(&out[p], &e)
            invariant
                p <= out@.len(),
                forall|q: int| 0 <= q < p ==> hit_before(#[trigger] out@[q], e),
            decreases out@.len() - p,
        {
            p = p + 1;
        }
        let ghost old_out = out@;
        let ghost old_perm = perm;
        proof {
            assert forall|q: int| p <= q < old_out.len() implies !hit_before(#[trigger] old_out[q], e) by {
                if q > p {
                    assert(hit_before(old_out[p as int], old_out[q]));
                }
            }
        }
        out.insert(p, e);
        proof {
            perm = perm.insert(p as int, m as int);
            assert(out@ == old_out.insert(p as int, e));
            assert forall|i: int, j: int| 0 <= i < j < out@.len() implies hit_before(#[trigger] out@[i], #[trigger] out@[j]) by {
                if j < p {
                    assert(out@[i] == old_out[i] && out@[j] == old_out[j]);
                } else if j == p {
                    assert(out@[i] == old_out[i]);
                } else if i < p {
                    assert(out@[i] == old_out[i] && out@[j] == old_out[j - 1]);
                    assert(hit_before(old_out[i], old_out[j - 1]));
                } else if i == p {
                    assert(out@[j] == old_out[j - 1]);
                    assert(!hit_before(old_out[j - 1], e));
                } else {
                    assert(out@[i] == old_out[i - 1] && out@[j] == old_out[j - 1]);
                    assert(hit_before(old_out[i - 1], old_out[j - 1]));
                }
            }
            assert forall|k: int| 0 <= k < m + 1 implies 0 <= #[trigger] perm[k] < m + 1 && out@[k] == hits@[perm[k]] by {
                if k < p {
                    assert(perm[k] == old_perm[k]);
                } else if k > p {
                    assert(perm[k] == old_perm[k - 1]);
                }
            }
            assert forall|i: int, j: int| 0 <= i < j < m + 1 implies #[trigger] perm[i] != #[trigger] perm[j] by {
                if i < p && j < p {
                    assert(perm[i] == old_perm[i] && perm[j] == old_perm[j]);
                } else if i < p && j > p {
                    assert(perm[i] == old_perm[i] && perm[j] == old_perm[j - 1]);
                } else if i > p && j > p {
                    assert(perm[i] == old_perm[i - 1] && perm[j] == old_perm[j - 1]);
                } else if i == p {
                    assert(perm[j] == old_perm[j - 1]);
                } else {
                    assert(perm[i] == old_perm[i]);
                }
            }
            assert forall|i: int, j: int|
                0 <= i < j < m + 1 && same_hit_key(#[trigger] out@[i], #[trigger] out@[j]) implies perm[i] < perm[j] by {
                if i < p && j < p {
                    assert(perm[i] == old_perm[i] && perm[j] == old_perm[j]);
                    assert(out@[i] == old_out[i] && out@[j] == old_out[j]);
                } else if i < p && j > p {
                    assert(perm[i] == old_perm[i] && perm[j] == old_perm[j - 1]);
                    assert(out@[i] == old_out[i] && out@[j] == old_out[j - 1]);
                } else if i > p && j > p {
                    assert(perm[i] == old_perm[i - 1] && perm[j] == old_perm[j - 1]);
                    assert(out@[i] == old_out[i - 1] && out@[j] == old_out[j - 1]);
                } else if i == p {
                    assert(out@[j] == old_out[j - 1]);
                    assert(!hit_before(old_out[j - 1], e));
                } else {
                    assert(perm[i] == old_perm[i]);
                }
            }
        }
        m = m + 1;
    }
    assert(stable_hit_rearrangement(hits@, out@, perm));
    out
}

/// The stacking position for a newly imported reference: one above the
/// highest existing position (saturating at `i64::MAX`), or 0 when there
/// are no references yet.
pub open spec fn next_z_spec(existing: Seq<i64>) -> i64
    decreases existing.len(),
{
    if existing.len() == 0 {
        0
    } else {
        let rest = next_z_spec(existing.drop_last());
        let candidate = if existing.last() == i64::MAX { i64::MAX } else { (existing.last() + 1) as i64 };
        if existing.drop_last().len() > 0 && rest >= candidate {
            rest
        } else {
            candidate
        }
    }
}

/// One above the highest z-index in `existing` (saturating), or 0 for none.
pub fn next_z_index(existing: &Vec<i64>) -> (z: i64)
    ensures
        z == next_z_spec(existing@),
        existing@.len() == 0 ==> z == 0,
        forall|i: int| 0 <= i < existing@.len() ==> (#[trigger] existing@[i] < z || existing@[i] == i64::MAX),
        existing@.len() > 0 ==> exists|i: int| 0 <= i < existing@.len() && z == (if existing@[i] == i64::MAX {
            i64::MAX
        } else {
            (existing@[i] + 1) as i64
        }),
{
    let mut highest: i64 = -1;
    let mut i: usize = 0;
    while i < existing.len()
        invariant
            i <= existing@.len(),
            i == 0 ==> highest == -1,
            i > 0 ==> next_z_spec(existing@.take(i as int)) == (if highest == i64::MAX { i64::MAX } else { (highest + 1) as i64 }),
            forall|k: int| 0 <= k < i ==> #[trigger] existing@[k] <= highest,
            i > 0 ==> exists|k: int| 0 <= k < i && existing@[k] == highest,
        decreases existing@.len() - i,
    {
        assert(existing@.take(i + 1).drop_last() =~= existing@.take(i as int));
        if i == 0 || existing[i] > highest {
            highest = existing[i];
        }
        i = i + 1;
    }
    assert(existing@.take(existing@.len() as int) =~= existing@);
    if highest == i64::MAX {
        i64::MAX
    } else {
        highest + 1
    }
}

} // verus!
