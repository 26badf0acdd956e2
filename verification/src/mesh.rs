//! Index bookkeeping for triangulated meshes read from OBJ files.
//!
//! A mesh stores vertex positions as one flat array `[x0, y0, z0, x1, y1, z1, ...]`
//! and faces as a flat array of vertex indices, three per triangle.
use vstd::prelude::*;

verus! {

/// Every index names a whole vertex of a position array of length `n_positions`.
pub open spec fn indices_in_range(indices: Seq<u32>, n_positions: nat) -> bool {
    forall|k: int| 0 <= k < indices.len() ==> 3 * (#[trigger] indices[k]) + 3 <= n_positions
}

/// The range condition asks nothing more than that each index names a whole
/// vertex: it holds of a face list exactly when `3 * i + 3 <= n_positions`
/// for every index `i`, whatever the number of faces.
pub proof fn lemma_indices_in_range_exact(indices: Seq<u32>, n_positions: nat)
    ensures
        indices_in_range(indices, n_positions) <==> forall|k: int|
            0 <= k < indices.len() ==> 3 * (#[trigger] indices[k]) + 3 <= n_positions,
{
}

/// For every triangle of the face list, the offsets in the flat position array
/// where the coordinates of its three corners start: corner `c` of triangle `t`
/// starts at `3 * indices[3 * t + c]`.
///
/// Returns `None` when the face list does not split into whole triangles or an
/// index names a vertex past the end of the positions.
pub fn triangle_corner_offsets(indices: &Vec<u32>, n_positions: usize) -> (r: Option<
    Vec<[usize; 3]>,
>)
    ensures
        r is Some <==> indices@.len() % 3 == 0 && indices_in_range(indices@, n_positions as nat),
        (indices@.len() % 3 == 0 && forall|k: int|
            0 <= k < indices@.len() ==> 3 * (#[trigger] indices@[k]) + 3 <= n_positions) ==> r is Some,
        r is Some ==> indices@.len() % 3 == 0 && forall|k: int|
            0 <= k < indices@.len() ==> 3 * (#[trigger] indices@[k]) + 3 <= n_positions,
        r matches Some(v) ==> {
            &&& v@.len() == indices@.len() / 3
            &&& forall|t: int, c: int|
                0 <= t < v@.len() && 0 <= c < 3 ==> #[trigger] v@[t][c] == 3 * indices@[3 * t + c]
            &&& forall|t: int, c: int|
                0 <= t < v@.len() && 0 <= c < 3 ==> #[trigger] v@[t][c] + 3 <= n_positions
        },
{
    let n = indices.len();
    if n % 3 != 0 {
        return None;
    }
    let mut k: usize = 0;
    while k < n
        invariant
            n == indices@.len(),
            k <= n,
            forall|q: int| 0 <= q < k ==> 3 * (#[trigger] indices@[q]) + 3 <= n_positions,
        decreases n - k,
    {
        if (indices[k] as u64) * 3 + 3 > n_positions as u64 {
            return None;
        }
        k = k + 1;
    }
    let mut out: Vec<[usize; 3]> = Vec::new();
    let mut t: usize = 0;
    while t < n / 3
        invariant
            n == indices@.len(),
            n % 3 == 0,
            t <= n / 3,
            indices_in_range(indices@, n_positions as nat),
            out@.len() == t,
            forall|s: int, c: int|
                0 <= s < t && 0 <= c < 3 ==> #[trigger] out@[s][c] == 3 * indices@[3 * s + c],
            forall|s: int, c: int|
                0 <= s < t && 0 <= c < 3 ==> #[trigger] out@[s][c] + 3 <= n_positions,
        decreases n / 3 - t,
    {
        let a = indices[3 * t];
        let b = indices[3 * t + 1];
        let c = indices[3 * t + 2];
        assert(3 * a + 3 <= n_positions);
        assert(3 * b + 3 <= n_positions);
        assert(3 * c + 3 <= n_positions);
        let corners: [usize; 3] = [3 * (a as usize), 3 * (b as usize), 3 * (c as usize)];
        out.push(corners);
        t = t + 1;
    }
    Some(out)
}

} // verus!
