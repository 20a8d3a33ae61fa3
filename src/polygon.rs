use vstd::prelude::*;

verus! {

/// The corners, as vertex positions, of triangle `k` of the fan of a polygon:
/// vertex 0 and the two vertices `k + 1`, `k + 2`.
pub open spec fn fan_corner(k: int) -> (usize, usize, usize) {
    (0, (k + 1) as usize, (k + 2) as usize)
}

/// The triangles of the fan from vertex 0 of a polygon of `n` vertices, in
/// fan order: `(0, 1, 2)`, `(0, 2, 3)`, ... `(0, n - 2, n - 1)`; none for
/// fewer than three vertices.
pub fn fan_triangles(n: usize) -> (r: Vec<(usize, usize, usize)>)
    ensures
        r@.len() == if n >= 2 { n - 2 } else { 0 },
        forall|k: int| 0 <= k < r@.len() ==> #[trigger] r@[k] == fan_corner(k),
{
    let mut out: Vec<(usize, usize, usize)> = Vec::new();
    let mut p: usize = 1;
    while n >= 2 && p < n - 1
        invariant
            1 <= p,
            n >= 2 ==> p <= n - 1,
            n < 2 ==> p == 1,
            out@.len() == p - 1,
            forall|k: int| 0 <= k < out@.len() ==> #[trigger] out@[k] == fan_corner(k),
        decreases n - p,
    {
        out.push((0, p, p + 1));
        p = p + 1;
    }
    out
}

} // verus!
