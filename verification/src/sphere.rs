//! Topology of spherical Voronoi cells: the hull triangles of the sites put
//! in a canonical form, and for every site its incident triangles and its
//! neighbors along triangle edges.
use vstd::prelude::*;
use vstd::string::StringExecFns;

verus! {

broadcast use vstd::seq_lib::group_to_multiset_ensures;

/// Position of the first smallest corner of a triangle.
pub open spec fn min_corner(t: [u32; 3]) -> int {
    if t[0] <= t[1] && t[0] <= t[2] {
        0
    } else if t[1] <= t[2] {
        1
    } else {
        2
    }
}

/// The triangle rotated so that its smallest index comes first (the
/// winding is kept).
pub open spec fn rotate_to_min(t: [u32; 3]) -> [u32; 3] {
    let m = min_corner(t);
    [t[m], t[(m + 1) % 3], t[(m + 2) % 3]]
}

/// Lexicographic order on triangles.
pub open spec fn tri_le(a: [u32; 3], b: [u32; 3]) -> bool {
    a[0] < b[0] || (a[0] == b[0] && (a[1] < b[1] || (a[1] == b[1] && a[2] <= b[2])))
}

/// Sorted in lexicographic order.
pub open spec fn tris_sorted(s: Seq<[u32; 3]>) -> bool {
    forall|a: int, b: int| 0 <= a < b < s.len() ==> tri_le(s[a], s[b])
}

/// The hull's flat index list read three at a time (each index truncated
/// to 32 bits), every triangle rotated to its smallest index.
pub open spec fn rotated_chunks(indices: Seq<usize>) -> Seq<[u32; 3]> {
    Seq::new(
        indices.len() / 3,
        |t: int|
            rotate_to_min(
                [indices[3 * t] as u32, indices[3 * t + 1] as u32, indices[3 * t + 2] as u32],
            ),
    )
}

/// Error text when the hull's index list is not made of triangles.
pub open spec fn not_triangles_message() -> Seq<char> {
    "convex hull returned non-triangle indices"@
}

fn le3(a: [u32; 3], b: [u32; 3]) -> (r: bool)
    ensures
        r == tri_le(a, b),
{
    a[0] < b[0] || (a[0] == b[0] && (a[1] < b[1] || (a[1] == b[1] && a[2] <= b[2])))
}

fn rotate3(t: [u32; 3]) -> (r: [u32; 3])
    ensures
        r == rotate_to_min(t),
{
    let m: usize = if t[0] <= t[1] && t[0] <= t[2] {
        0
    } else if t[1] <= t[2] {
        1
    } else {
        2
    };
    let r = [t[m], t[(m + 1) % 3], t[(m + 2) % 3]];
    assert(r =~= rotate_to_min(t));
    r
}

/// Put a convex hull's triangles (a flat list of point indices, three per
/// triangle) in canonical form: each triangle rotated so that its smallest
/// index comes first, and the triangles sorted. The result is the sorted
/// arrangement of [`rotated_chunks`]; a list whose length is not a multiple
/// of three is refused.
pub fn canonical_triangles(indices: &Vec<usize>) -> (r: Result<Vec<[u32; 3]>, String>)
    ensures
        indices.len() % 3 != 0 ==> r is Err && r->Err_0@ == not_triangles_message(),
        indices.len() % 3 == 0 ==> r is Ok && tris_sorted(r->Ok_0@) && r->Ok_0@.to_multiset()
            == rotated_chunks(indices@).to_multiset(),
{
    if indices.len() % 3 != 0 {
        return Err(String::from_str("convex hull returned non-triangle indices"));
    }
    let count = indices.len() / 3;
    let ghost chunks = rotated_chunks(indices@);
    let mut out: Vec<[u32; 3]> = Vec::new();
    let mut t: usize = 0;
    while t < count
        invariant
            t <= count,
            count == indices.len() / 3,
            chunks == rotated_chunks(indices@),
            tris_sorted(out@),
            out@.to_multiset() == chunks.take(t as int).to_multiset(),
        decreases count - t,
    {
        let raw = [indices[3 * t] as u32, indices[3 * t + 1] as u32, indices[3 * t + 2] as u32];
        let tri = rotate3(raw);
        assert(tri == chunks[t as int]);
        let mut p: usize = 0;
        while p < out.len() && le3(out[p], tri)
            invariant
                p <= out.len(),
                forall|q: int| 0 <= q < p ==> tri_le(#[trigger] out@[q], tri),
            decreases out.len() - p,
        {
            p = p + 1;
        }
        let ghost before = out@;
        out.insert(p, tri);
        proof {
            assert(out@ == before.insert(p as int, tri));
            assert forall|a: int, b: int| 0 <= a < b < out@.len() implies tri_le(
                out@[a],
                out@[b],
            ) by {
                if b < p {
                    assert(tri_le(before[a], before[b]));
                } else if b == p {
                } else if a < p {
                    assert(tri_le(before[a], before[b - 1]) || a == b - 1);
                    assert(tri_le(before[a], tri));
                    assert(!tri_le(before[p as int], tri));
                    if b - 1 > p {
                        assert(tri_le(before[p as int], before[b - 1]));
                    }
                } else if a == p {
                    assert(!tri_le(before[p as int], tri));
                    if b - 1 > p {
                        assert(tri_le(before[p as int], before[b - 1]));
                    }
                } else {
                    assert(tri_le(before[a - 1], before[b - 1]));
                }
            }
            assert(out@.remove(p as int) =~= before);
            assert(out@[p as int] == tri);
            let m1 = out@.to_multiset();
            assert(before.to_multiset() =~= m1.remove(tri));
            assert(m1.count(tri) > 0);
            assert(m1 =~= before.to_multiset().insert(tri));
            assert(chunks.take(t + 1) =~= chunks.take(t as int).push(tri));
        }
        t = t + 1;
    }
    assert(chunks.take(count as int) =~= chunks);
    Ok(out)
}

/// The corners of the triangles, in order: (triangle, vertex, next, previous).
pub open spec fn corners(tris: Seq<[u32; 3]>) -> Seq<(usize, u32, u32, u32)> {
    Seq::new(
        3 * tris.len(),
        |c: int|
            {
                let t = c / 3;
                let k = c % 3;
                (t as usize, tris[t][k], tris[t][(k + 1) % 3], tris[t][(k + 2) % 3])
            },
    )
}

/// The triangles incident to `v`, once per corner at `v`, in order.
pub open spec fn incident_to(cs: Seq<(usize, u32, u32, u32)>, v: u32) -> Seq<usize>
    decreases cs.len(),
{
    if cs.len() == 0 {
        seq![]
    } else {
        let pre = incident_to(cs.drop_last(), v);
        if cs.last().1 == v {
            pre.push(cs.last().0)
        } else {
            pre
        }
    }
}

/// `s` with `x` appended unless it is already there.
pub open spec fn add_new(s: Seq<u32>, x: u32) -> Seq<u32> {
    if s.contains(x) {
        s
    } else {
        s.push(x)
    }
}

/// The neighbors of `v` in order of first appearance: at each corner at
/// `v`, the next corner's vertex, then the previous one's.
pub open spec fn neighbors_of(cs: Seq<(usize, u32, u32, u32)>, v: u32) -> Seq<u32>
    decreases cs.len(),
{
    if cs.len() == 0 {
        seq![]
    } else {
        let pre = neighbors_of(cs.drop_last(), v);
        if cs.last().1 == v {
            add_new(add_new(pre, cs.last().2), cs.last().3)
        } else {
            pre
        }
    }
}

/// For each of `n` sites, its incident triangles and its neighbors (see
/// [`incident_to`] and [`neighbors_of`]).
pub fn site_topology(n: usize, tris: &Vec<[u32; 3]>) -> (r: (Vec<Vec<usize>>, Vec<Vec<u32>>))
    requires
        forall|t: int, k: int| 0 <= t < tris.len() && 0 <= k < 3 ==> #[trigger] tris@[t][k] < n,
        n <= u32::MAX,
    ensures
        r.0.len() == n,
        r.1.len() == n,
        forall|v: int| 0 <= v < n ==> #[trigger] r.0@[v]@ == incident_to(corners(tris@), v as u32),
        forall|v: int| 0 <= v < n ==> #[trigger] r.1@[v]@ == neighbors_of(corners(tris@), v as u32),
{
    let mut incident: Vec<Vec<usize>> = Vec::new();
    let mut neighbors: Vec<Vec<u32>> = Vec::new();
    let mut v: usize = 0;
    while v < n
        invariant
            v <= n,
            incident.len() == v,
            neighbors.len() == v,
            forall|a: int| 0 <= a < v ==> #[trigger] incident@[a]@ == Seq::<usize>::empty(),
            forall|a: int| 0 <= a < v ==> #[trigger] neighbors@[a]@ == Seq::<u32>::empty(),
        decreases n - v,
    {
        incident.push(Vec::new());
        neighbors.push(Vec::new());
        v = v + 1;
    }
    let ghost cs = corners(tris@);
    let total = tris.len();
    let mut t: usize = 0;
    while t < total
        invariant
            t <= total,
            total == tris.len(),
            n <= u32::MAX,
            cs == corners(tris@),
            forall|a: int, k: int| 0 <= a < tris.len() && 0 <= k < 3 ==> #[trigger] tris@[a][k] < n,
            incident.len() == n,
            neighbors.len() == n,
            forall|a: int| 0 <= a < n ==> #[trigger] incident@[a]@ == incident_to(cs.take(3 * t), a as u32),
            forall|a: int| 0 <= a < n ==> #[trigger] neighbors@[a]@ == neighbors_of(cs.take(3 * t), a as u32),
        decreases total - t,
    {
        let tri = tris[t];
        let mut k: usize = 0;
        while k < 3
            invariant
                k <= 3,
                t < total,
                total == tris.len(),
                n <= u32::MAX,
                tri == tris@[t as int],
                cs == corners(tris@),
                forall|a: int, j: int| 0 <= a < tris.len() && 0 <= j < 3 ==> #[trigger] tris@[a][j] < n,
                incident.len() == n,
                neighbors.len() == n,
                forall|a: int|
                    0 <= a < n ==> #[trigger] incident@[a]@ == incident_to(cs.take(3 * t + k), a as u32),
                forall|a: int|
                    0 <= a < n ==> #[trigger] neighbors@[a]@ == neighbors_of(cs.take(3 * t + k), a as u32),
            decreases 3 - k,
        {
            let x = tri[k];
            let next = tri[(k + 1) % 3];
            let prev = tri[(k + 2) % 3];
            let ghost c = 3 * t + k;
            assert(c / 3 == t && c % 3 == k) by (nonlinear_arith)
                requires
                    c == 3 * t + k,
                    k < 3,
            ;
            assert(cs[c] == (t, x, next, prev));
            assert(cs.take(c + 1).drop_last() == cs.take(c));
            assert(cs.take(c + 1).last() == (t, x, next, prev));
            assert(x < n);
            let ghost old_inc = incident@;
            let ghost old_nb = neighbors@;
            incident[x as usize].push(t);
            if !contains_u32(&neighbors[x as usize], next) {
                neighbors[x as usize].push(next);
            }
            if !contains_u32(&neighbors[x as usize], prev) {
                neighbors[x as usize].push(prev);
            }
            assert forall|a: int| 0 <= a < n implies #[trigger] incident@[a]@ == incident_to(
                cs.take(c + 1),
                a as u32,
            ) by {
                if a != x as int {
                    assert(incident@[a] == old_inc[a]);
                }
            }
            assert forall|a: int| 0 <= a < n implies #[trigger] neighbors@[a]@ == neighbors_of(
                cs.take(c + 1),
                a as u32,
            ) by {
                if a != x as int {
                    assert(neighbors@[a] == old_nb[a]);
                }
            }
            k = k + 1;
        }
        t = t + 1;
    }
    assert(cs.take(3 * total as int) == cs);
    (incident, neighbors)
}

fn contains_u32(v: &Vec<u32>, x: u32) -> (r: bool)
    ensures
        r == v@.contains(x),
{
    let mut k: usize = 0;
    while k < v.len()
        invariant
            k <= v.len(),
            forall|q: int| 0 <= q < k ==> v@[q] != x,
        decreases v.len() - k,
    {
        if v[k] == x {
            assert(v@[k as int] == x);
            return true;
        }
        k = k + 1;
    }
    false
}

} // verus!
