//! Cell adjacency from the polygons actually drawn. Cell outlines arrive as
//! rings of quantized lattice points (each coordinate rounded to a fixed
//! grid); shared points are canonicalized to their first occurrence, rings
//! lose repeated points, and two cells become neighbors where their rings
//! use the same undirected edge.
use std::collections::BTreeMap;
use vstd::prelude::*;

verus! {

/// A quantized surface point.
pub type Lattice = (i64, i64, i64);

/// An undirected edge, endpoints in increasing lexicographic order.
pub type EdgeKey = ((i64, i64, i64), (i64, i64, i64));

/// Lexicographic order on lattice points.
pub open spec fn point_lt(a: Lattice, b: Lattice) -> bool {
    a.0 < b.0 || (a.0 == b.0 && (a.1 < b.1 || (a.1 == b.1 && a.2 < b.2)))
}

/// The undirected key of the edge between `a` and `b`.
pub open spec fn edge_of(a: Lattice, b: Lattice) -> EdgeKey {
    if point_lt(a, b) { (a, b) } else { (b, a) }
}

/// Positions of `s` that start a run of equal points.
pub open spec fn run_starts(s: Seq<Lattice>) -> Seq<int>
    decreases s.len(),
{
    if s.len() == 0 {
        seq![]
    } else if s.len() == 1 || s[s.len() - 1] != s[s.len() - 2] {
        run_starts(s.drop_last()).push(s.len() - 1)
    } else {
        run_starts(s.drop_last())
    }
}

/// Positions kept in a ring: the first point of each run, without a last
/// point that repeats the first one.
pub open spec fn kept_positions(s: Seq<Lattice>) -> Seq<int> {
    let r = run_starts(s);
    if r.len() > 1 && s[r[0]] == s[r.last()] {
        r.drop_last()
    } else {
        r
    }
}

/// The ring as drawn: its kept points.
pub open spec fn canonical_ring(s: Seq<Lattice>) -> Seq<Lattice> {
    kept_positions(s).map_values(|k: int| s[k])
}

/// Every point of every ring with its (ring, position), ring by ring.
pub open spec fn flat_points(rings: Seq<Seq<Lattice>>) -> Seq<(Lattice, (usize, usize))>
    decreases rings.len(),
{
    if rings.len() == 0 {
        seq![]
    } else {
        let i = rings.len() - 1;
        flat_points(rings.drop_last()) + Seq::new(
            rings.last().len(),
            |k: int| (rings.last()[k], (i as usize, k as usize)),
        )
    }
}

/// The first (ring, position) of each point in `flat`.
pub open spec fn first_seen(flat: Seq<(Lattice, (usize, usize))>) -> Map<Lattice, (usize, usize)>
    decreases flat.len(),
{
    if flat.len() == 0 {
        Map::empty()
    } else {
        let m = first_seen(flat.drop_last());
        if m.contains_key(flat.last().0) {
            m
        } else {
            m.insert(flat.last().0, flat.last().1)
        }
    }
}

/// The edges of ring `i`, each with the ring's index.
pub open spec fn ring_edges(i: int, ring: Seq<Lattice>) -> Seq<(usize, EdgeKey)> {
    Seq::new(
        ring.len(),
        |k: int| (i as usize, edge_of(ring[k], ring[(k + 1) % (ring.len() as int)])),
    )
}

/// The edges of the canonical rings, ring by ring.
pub open spec fn all_ring_edges(rings: Seq<Seq<Lattice>>) -> Seq<(usize, EdgeKey)>
    decreases rings.len(),
{
    if rings.len() == 0 {
        seq![]
    } else {
        all_ring_edges(rings.drop_last()) + ring_edges(rings.len() - 1, canonical_ring(rings.last()))
    }
}

/// Walking the edges in order, each edge remembers the last ring that used
/// it; a ring using an edge already seen is linked to that earlier ring.
/// Result: the memory and the links made, in order.
pub open spec fn link_fold(occ: Seq<(usize, EdgeKey)>) -> (Map<EdgeKey, usize>, Seq<(usize, usize)>)
    decreases occ.len(),
{
    if occ.len() == 0 {
        (Map::empty(), seq![])
    } else {
        let (m, links) = link_fold(occ.drop_last());
        let (i, e) = occ.last();
        (m.insert(e, i), if m.contains_key(e) { links.push((i, m[e])) } else { links })
    }
}

/// Cells `i` and `j` are linked across an edge of their canonical rings.
pub open spec fn linked(rings: Seq<Seq<Lattice>>, i: int, j: int) -> bool {
    let links = link_fold(all_ring_edges(rings)).1;
    exists|p: int|
        0 <= p < links.len() && ((links[p].0 == i && links[p].1 == j) || (links[p].0 == j
            && links[p].1 == i))
}

/// Strictly increasing.
pub open spec fn strictly_increasing(s: Seq<u32>) -> bool {
    forall|a: int, b: int| 0 <= a < b < s.len() ==> s[a] < s[b]
}

fn same_point(a: Lattice, b: Lattice) -> (r: bool)
    ensures
        r == (a == b),
{
    a.0 == b.0 && a.1 == b.1 && a.2 == b.2
}

fn edge_key(a: Lattice, b: Lattice) -> (e: EdgeKey)
    ensures
        e == edge_of(a, b),
{
    let lt = a.0 < b.0 || (a.0 == b.0 && (a.1 < b.1 || (a.1 == b.1 && a.2 < b.2)));
    if lt { (a, b) } else { (b, a) }
}

/// Insert `x` into a strictly increasing list, keeping it so.
fn insert_sorted(v: &mut Vec<u32>, x: u32)
    requires
        strictly_increasing(old(v)@),
    ensures
        strictly_increasing(final(v)@),
        forall|y: u32| final(v)@.contains(y) <==> (old(v)@.contains(y) || y == x),
{
    let mut p: usize = 0;
    while p < v.len() && v[p] < x
        invariant
            p <= v.len(),
            v@ == old(v)@,
            forall|q: int| 0 <= q < p ==> v@[q] < x,
        decreases v.len() - p,
    {
        p = p + 1;
    }
    if p < v.len() && v[p] == x {
        assert(v@[p as int] == x);
        return;
    }
    let ghost before = v@;
    v.insert(p, x);
    assert(v@ == before.insert(p as int, x));
    assert forall|a: int, b: int| 0 <= a < b < v@.len() implies v@[a] < v@[b] by {
        if b < p {
        } else if a < p && b == p {
        } else if a < p {
            assert(before[a] < before[b - 1]);
        } else if a == p {
            assert(before[p as int] > x);
            assert(before[p as int] <= before[b - 1]);
        } else {
            assert(before[a - 1] < before[b - 1]);
        }
    }
    assert forall|y: u32| v@.contains(y) <==> (before.contains(y) || y == x) by {
        if v@.contains(y) {
            let q = choose|q: int| 0 <= q < v@.len() && v@[q] == y;
            if q < p {
                assert(before[q] == y);
            } else if q > p {
                assert(before[q - 1] == y);
            }
        }
        if before.contains(y) {
            let q = choose|q: int| 0 <= q < before.len() && before[q] == y;
            if q < p {
                assert(v@[q] == y);
            } else {
                assert(v@[q + 1] == y);
            }
        }
        if y == x {
            assert(v@[p as int] == y);
        }
    }
}

/// Kept positions of one ring: see [`kept_positions`].
fn ring_kept(ring: &Vec<Lattice>) -> (kept: Vec<usize>)
    ensures
        kept@.map_values(|k: usize| k as int) == kept_positions(ring@),
        kept@.len() == canonical_ring(ring@).len(),
        forall|q: int|
            0 <= q < kept@.len() ==> #[trigger] kept@[q] < ring@.len() && canonical_ring(ring@)[q]
                == ring@[kept@[q] as int],
{
    let mut runs: Vec<usize> = Vec::new();
    let mut k: usize = 0;
    while k < ring.len()
        invariant
            k <= ring@.len(),
            runs@.map_values(|q: usize| q as int) == run_starts(ring@.take(k as int)),
        decreases ring.len() - k,
    {
        let ghost pre = ring@.take(k as int);
        let ghost next = ring@.take(k + 1);
        assert(next.drop_last() == pre);
        if k == 0 || !same_point(ring[k], ring[k - 1]) {
            runs.push(k);
            assert(runs@.map_values(|q: usize| q as int) == run_starts(pre).push(k as int));
        }
        k = k + 1;
    }
    assert(ring@.take(ring@.len() as int) == ring@);
    let ghost r = run_starts(ring@);
    proof {
        lemma_run_starts_bounds(ring@);
    }
    let n = runs.len();
    assert(forall|a: int| 0 <= a < n ==> runs@[a] as int == #[trigger] r[a]) by {
        assert forall|a: int| 0 <= a < n implies runs@[a] as int == #[trigger] r[a] by {
            assert(runs@.map_values(|q: usize| q as int)[a] == r[a]);
        }
    }
    if n > 1 {
        assert(runs@[0] as int == r[0]);
        assert(runs@[n - 1] as int == r[n - 1]);
        assert(0 <= r[0] < ring@.len());
        assert(0 <= r[n - 1] < ring@.len());
    }
    if n > 1 && same_point(ring[runs[0]], ring[runs[n - 1]]) {
        runs.pop();
        assert(runs@.map_values(|q: usize| q as int) == r.drop_last());
    }
    let ghost kp = kept_positions(ring@);
    assert(runs@.map_values(|x: usize| x as int) == kp);
    assert forall|q: int| 0 <= q < runs@.len() implies #[trigger] runs@[q] < ring@.len() && canonical_ring(
        ring@,
    )[q] == ring@[runs@[q] as int] by {
        assert(runs@.map_values(|x: usize| x as int)[q] == kp[q]);
        assert(runs@[q] as int == kp[q]);
        lemma_kept_index(ring@, q);
    }
    runs
}

/// Position `q` of the canonical ring is a position of the ring.
pub proof fn lemma_kept_index(s: Seq<Lattice>, q: int)
    requires
        0 <= q < kept_positions(s).len(),
    ensures
        0 <= kept_positions(s)[q] < s.len(),
        canonical_ring(s).len() == kept_positions(s).len(),
        canonical_ring(s)[q] == s[kept_positions(s)[q]],
{
    lemma_run_starts_bounds(s);
    let r = run_starts(s);
    if r.len() > 1 && s[r[0]] == s[r.last()] {
        assert(kept_positions(s)[q] == r[q]);
    } else {
        assert(kept_positions(s)[q] == r[q]);
    }
}

/// Run starts are increasing positions of `s`.
pub proof fn lemma_run_starts_bounds(s: Seq<Lattice>)
    ensures
        forall|a: int| 0 <= a < run_starts(s).len() ==> 0 <= #[trigger] run_starts(s)[a] < s.len(),
        forall|a: int, b: int|
            0 <= a < b < run_starts(s).len() ==> run_starts(s)[a] < run_starts(s)[b],
    decreases s.len(),
{
    if s.len() > 0 {
        let t = s.drop_last();
        lemma_run_starts_bounds(t);
        let r = run_starts(s);
        let q = run_starts(t);
        if s.len() == 1 || s[s.len() - 1] != s[s.len() - 2] {
            assert(r == q.push(s.len() - 1));
            assert forall|a: int| 0 <= a < r.len() implies 0 <= #[trigger] r[a] < s.len() by {
                if a < q.len() {
                    assert(r[a] == q[a]);
                }
            }
            assert forall|a: int, b: int| 0 <= a < b < r.len() implies r[a] < r[b] by {
                assert(r[a] == q[a]);
                if b < q.len() {
                    assert(r[b] == q[b]);
                }
            }
        } else {
            assert(r == q);
        }
    }
}


/// Every point listed in `flat` has a first occurrence.
pub proof fn lemma_first_seen_dom(flat: Seq<(Lattice, (usize, usize))>)
    ensures
        forall|t: int| 0 <= t < flat.len() ==> first_seen(flat).contains_key(#[trigger] flat[t].0),
    decreases flat.len(),
{
    if flat.len() > 0 {
        let pre = flat.drop_last();
        lemma_first_seen_dom(pre);
        assert forall|t: int| 0 <= t < flat.len() implies first_seen(flat).contains_key(
            #[trigger] flat[t].0,
        ) by {
            if t < pre.len() {
                assert(pre[t] == flat[t]);
            }
        }
    }
}

/// The point at position `k` of ring `i` is listed in `flat_points`.
pub proof fn lemma_flat_points_has(rings: Seq<Seq<Lattice>>, i: int, k: int)
    requires
        0 <= i < rings.len(),
        0 <= k < rings[i].len(),
    ensures
        exists|t: int|
            0 <= t < flat_points(rings).len() && #[trigger] flat_points(rings)[t].0 == rings[i][k],
    decreases rings.len(),
{
    let pre = rings.drop_last();
    let head = flat_points(pre);
    let tail = Seq::new(
        rings.last().len(),
        |q: int| (rings.last()[q], ((rings.len() - 1) as usize, q as usize)),
    );
    assert(flat_points(rings) == head + tail);
    if i < rings.len() - 1 {
        lemma_flat_points_has(pre, i, k);
        let t = choose|t: int| 0 <= t < head.len() && #[trigger] head[t].0 == pre[i][k];
        assert((head + tail)[t] == head[t]);
    } else {
        assert((head + tail)[head.len() + k] == tail[k]);
        assert(flat_points(rings)[head.len() + k].0 == rings[i][k]);
    }
}

/// The outline and neighbors of every cell.
///
/// `rings[i]` is cell `i`'s outline as quantized points. For each cell the
/// result gives the kept points of its outline (consecutive repeats
/// dropped, a last point equal to the first dropped), each as the (cell,
/// position) of the first occurrence of that point over all outlines; and
/// its neighbors in increasing order: the cells it is [`linked`] with across
/// an undirected edge of the kept outlines. Adjacency is reciprocal.
pub fn stitch_cells(rings: &Vec<Vec<Lattice>>) -> (out: (Vec<Vec<(usize, usize)>>, Vec<Vec<u32>>))
    requires
        rings.len() <= u32::MAX,
    ensures
        out.0.len() == rings.len(),
        out.1.len() == rings.len(),
        forall|i: int|
            #![trigger out.0@[i]]
            0 <= i < rings.len() ==> out.0@[i]@.len() == canonical_ring(rings.deep_view()[i]).len()
                && forall|k: int|
                0 <= k < out.0@[i]@.len() ==> #[trigger] out.0@[i]@[k] == first_seen(
                    flat_points(rings.deep_view()),
                )[canonical_ring(rings.deep_view()[i])[k]],
        forall|i: int| 0 <= i < rings.len() ==> strictly_increasing(#[trigger] out.1@[i]@),
        forall|i: int, j: u32|
            0 <= i < rings.len() ==> (#[trigger] out.1@[i]@.contains(j) <==> (j < rings.len()
                && linked(rings.deep_view(), i, j as int))),
        forall|i: int, j: int|
            0 <= i < rings.len() && 0 <= j < rings.len() ==> (out.1@[i]@.contains(j as u32)
                <==> out.1@[j]@.contains(i as u32)),
{
    let ghost all = rings.deep_view();
    let n = rings.len();
    // First occurrence of every point.
    let mut reps: BTreeMap<Lattice, (usize, usize)> = BTreeMap::new();
    let mut i: usize = 0;
    while i < n
        invariant
            i <= n,
            n == rings.len(),
            all == rings.deep_view(),
            reps@ == first_seen(flat_points(all.take(i as int))),
        decreases n - i,
    {
        let ring = &rings[i];
        assert(ring@ == all[i as int]);
        let ghost head = flat_points(all.take(i as int));
        let ghost tail = Seq::new(ring@.len(), |q: int| (ring@[q], (i, q as usize)));
        assert(all.take(i + 1).drop_last() == all.take(i as int));
        assert(flat_points(all.take(i + 1)) == head + tail);
        let mut k: usize = 0;
        while k < ring.len()
            invariant
                k <= ring@.len(),
                tail.len() == ring@.len(),
                forall|q: int| 0 <= q < tail.len() ==> #[trigger] tail[q] == (ring@[q], (i, q as usize)),
                reps@ == first_seen(head + tail.take(k as int)),
            decreases ring.len() - k,
        {
            assert((head + tail.take(k + 1)).drop_last() == head + tail.take(k as int));
            let p = ring[k];
            match reps.get(&p) {
                Some(_) => {},
                None => {
                    reps.insert(p, (i, k));
                },
            }
            k = k + 1;
        }
        assert(tail.take(ring@.len() as int) == tail);
        i = i + 1;
    }
    assert(all.take(n as int) == all);
    proof {
        lemma_first_seen_dom(flat_points(all));
    }
    // Kept outlines, and links across shared edges.
    let mut outlines: Vec<Vec<(usize, usize)>> = Vec::new();
    let mut edges: BTreeMap<EdgeKey, usize> = BTreeMap::new();
    let mut pairs: Vec<(usize, usize)> = Vec::new();
    let mut i: usize = 0;
    while i < n
        invariant
            i <= n,
            n == rings.len(),
            n <= u32::MAX,
            all == rings.deep_view(),
            reps@ == first_seen(flat_points(all)),
            forall|t: int|
                0 <= t < flat_points(all).len() ==> first_seen(flat_points(all)).contains_key(
                    #[trigger] flat_points(all)[t].0,
                ),
            outlines.len() == i,
            forall|a: int|
                #![trigger outlines@[a]]
                0 <= a < i ==> outlines@[a]@.len() == canonical_ring(all[a]).len() && forall|k: int|
                    0 <= k < outlines@[a]@.len() ==> #[trigger] outlines@[a]@[k] == first_seen(
                        flat_points(all),
                    )[canonical_ring(all[a])[k]],
            (edges@, pairs@) == link_fold(all_ring_edges(all.take(i as int))),
            forall|e: EdgeKey| #[trigger] edges@.contains_key(e) ==> edges@[e] < i,
            forall|p: int| 0 <= p < pairs.len() ==> #[trigger] pairs@[p].0 < i && pairs@[p].1 < i,
        decreases n - i,
    {
        let ring = &rings[i];
        assert(ring@ == all[i as int]);
        let kept = ring_kept(ring);
        let ghost canon = canonical_ring(ring@);
        let m = kept.len();
        let mut outline: Vec<(usize, usize)> = Vec::new();
        let ghost done = all_ring_edges(all.take(i as int));
        let ghost mine = ring_edges(i as int, canon);
        assert(all.take(i + 1).drop_last() == all.take(i as int));
        assert(all_ring_edges(all.take(i + 1)) == done + mine);
        let mut k: usize = 0;
        while k < m
            invariant
                k <= m,
                m == kept@.len(),
                m == canon.len(),
                i < n,
                n <= u32::MAX,
                all.len() == n,
                mine == ring_edges(i as int, canon),
                canon == canonical_ring(all[i as int]),
                ring@ == all[i as int],
                forall|q: int|
                    0 <= q < m ==> #[trigger] kept@[q] < ring@.len() && canon[q] == ring@[kept@[q] as int],
                reps@ == first_seen(flat_points(all)),
                forall|t: int|
                    0 <= t < flat_points(all).len() ==> first_seen(flat_points(all)).contains_key(
                        #[trigger] flat_points(all)[t].0,
                    ),
                outline@.len() == k,
                forall|q: int|
                    0 <= q < k ==> #[trigger] outline@[q] == first_seen(flat_points(all))[canon[q]],
                (edges@, pairs@) == link_fold(done + mine.take(k as int)),
                forall|e: EdgeKey| #[trigger] edges@.contains_key(e) ==> edges@[e] <= i,
                forall|p: int| 0 <= p < pairs.len() ==> #[trigger] pairs@[p].0 <= i && pairs@[p].1 <= i,
            decreases m - k,
        {
            let a = ring[kept[k]];
            let b = ring[kept[(k + 1) % m]];
            proof {
                lemma_flat_points_has(all, i as int, kept@[k as int] as int);
            }
            let rep = match reps.get(&a) {
                Some(v) => *v,
                None => (0, 0),
            };
            outline.push(rep);
            let e = edge_key(a, b);
            assert(mine[k as int] == (i, e));
            assert((done + mine.take(k + 1)).drop_last() == done + mine.take(k as int));
            assert((done + mine.take(k + 1)).last() == (i, e));
            let ghost before = edges@;
            match edges.insert(e, i) {
                Some(j) => {
                    pairs.push((i, j));
                },
                None => {},
            }
            assert(edges@ == before.insert(e, i));
            k = k + 1;
        }
        assert(mine.take(m as int) == mine);
        outlines.push(outline);
        i = i + 1;
    }
    assert(all.take(n as int) == all);
    let ghost links = pairs@;
    assert(links == link_fold(all_ring_edges(all)).1);
    // Neighbor lists from the links.
    let mut nb: Vec<Vec<u32>> = Vec::new();
    let mut c: usize = 0;
    while c < n
        invariant
            c <= n,
            nb.len() == c,
            forall|a: int| 0 <= a < c ==> #[trigger] nb@[a]@ == Seq::<u32>::empty(),
        decreases n - c,
    {
        nb.push(Vec::new());
        c = c + 1;
    }
    let mut t: usize = 0;
    while t < pairs.len()
        invariant
            t <= pairs.len(),
            pairs@ == links,
            n <= u32::MAX,
            nb.len() == n,
            forall|p: int| 0 <= p < pairs.len() ==> #[trigger] pairs@[p].0 < n && pairs@[p].1 < n,
            forall|a: int| 0 <= a < n ==> strictly_increasing(#[trigger] nb@[a]@),
            forall|a: int, y: u32|
                0 <= a < n ==> (#[trigger] nb@[a]@.contains(y) <==> exists|p: int|
                    0 <= p < t && ((links[p].0 == a && links[p].1 == y) || (links[p].1 == a
                        && links[p].0 == y))),
        decreases pairs.len() - t,
    {
        let (x, y) = pairs[t];
        let ghost old_nb = nb@;
        insert_sorted(&mut nb[x], y as u32);
        let ghost mid = nb@;
        insert_sorted(&mut nb[y], x as u32);
        assert forall|a: int, z: u32| 0 <= a < n implies (#[trigger] nb@[a]@.contains(z) <==> exists|
            p: int,
        | 0 <= p < t + 1 && ((links[p].0 == a && links[p].1 == z) || (links[p].1 == a && links[p].0
            == z))) by {
            let now = nb@[a]@.contains(z);
            let was = exists|p: int|
                0 <= p < t && ((links[p].0 == a && links[p].1 == z) || (links[p].1 == a
                    && links[p].0 == z));
            let hit = (x == a && y == z) || (y == a && x == z);
            assert(old_nb[a]@.contains(z) == was);
            assert(now == (was || hit));
            if hit {
                assert(links[t as int] == (x, y));
            }
            if now && !was {
                assert(links[t as int] == (x, y));
            }
            if (exists|p: int|
                0 <= p < t + 1 && ((links[p].0 == a && links[p].1 == z) || (links[p].1 == a
                    && links[p].0 == z))) {
                let p = choose|p: int|
                    0 <= p < t + 1 && ((links[p].0 == a && links[p].1 == z) || (links[p].1 == a
                        && links[p].0 == z));
                if p == t {
                    assert(hit);
                }
            }
        }
        t = t + 1;
    }
    (outlines, nb)
}


/// A quantized point of a flat map.
pub type Plane = (i64, i64);

/// The directed edges of polygon `i`, in order; none for fewer than two points.
pub open spec fn polygon_edges(poly: Seq<Plane>) -> Seq<(Plane, Plane)> {
    if poly.len() < 2 {
        seq![]
    } else {
        Seq::new(poly.len(), |k: int| (poly[k], poly[(k + 1) % (poly.len() as int)]))
    }
}

/// Every directed edge of every polygon with the polygon's index, in order.
pub open spec fn all_polygon_edges(polys: Seq<Seq<Plane>>) -> Seq<(u32, (Plane, Plane))>
    decreases polys.len(),
{
    if polys.len() == 0 {
        seq![]
    } else {
        let i = polys.len() - 1;
        all_polygon_edges(polys.drop_last()) + polygon_edges(polys.last()).map_values(
            |e: (Plane, Plane)| (i as u32, e),
        )
    }
}

/// The owner of each directed edge: the last polygon that has it.
pub open spec fn edge_owners(occ: Seq<(u32, (Plane, Plane))>) -> Map<(Plane, Plane), u32>
    decreases occ.len(),
{
    if occ.len() == 0 {
        Map::empty()
    } else {
        edge_owners(occ.drop_last()).insert(occ.last().1, occ.last().0)
    }
}

/// Neighbors of polygon `i` found along `edges` (its directed edges): for
/// each edge `a -> b` in order, the owner of `b -> a`, if there is one, it
/// is not `i` and it is not listed yet.
pub open spec fn reverse_owners(owners: Map<(Plane, Plane), u32>, i: u32, edges: Seq<(Plane, Plane)>) -> Seq<
    u32,
>
    decreases edges.len(),
{
    if edges.len() == 0 {
        seq![]
    } else {
        let found = reverse_owners(owners, i, edges.drop_last());
        let rev = (edges.last().1, edges.last().0);
        if owners.contains_key(rev) && owners[rev] != i && !found.contains(owners[rev]) {
            found.push(owners[rev])
        } else {
            found
        }
    }
}

/// The cells across the edges of `edges`: owners of reversed edges, other than `i`.
pub open spec fn across(owners: Map<(Plane, Plane), u32>, i: u32, edges: Seq<(Plane, Plane)>, j: u32) -> bool {
    exists|k: int|
        0 <= k < edges.len() && owners.contains_key((edges[k].1, edges[k].0)) && owners[(
            edges[k].1,
            edges[k].0,
        )] == j && j != i
}

/// The neighbors found along the edges are distinct, and are exactly the
/// cells across those edges.
pub proof fn lemma_reverse_owners(owners: Map<(Plane, Plane), u32>, i: u32, edges: Seq<(Plane, Plane)>)
    ensures
        reverse_owners(owners, i, edges).no_duplicates(),
        forall|j: u32| #[trigger] reverse_owners(owners, i, edges).contains(j) <==> across(owners, i, edges, j),
    decreases edges.len(),
{
    if edges.len() > 0 {
        let pre = edges.drop_last();
        lemma_reverse_owners(owners, i, pre);
        let found = reverse_owners(owners, i, pre);
        let last = edges.last();
        let rev = (last.1, last.0);
        assert forall|j: u32| #[trigger] reverse_owners(owners, i, edges).contains(j) <==> across(
            owners,
            i,
            edges,
            j,
        ) by {
            if across(owners, i, edges, j) {
                let k = choose|k: int|
                    0 <= k < edges.len() && owners.contains_key((edges[k].1, edges[k].0)) && owners[(
                        edges[k].1,
                        edges[k].0,
                    )] == j && j != i;
                if k < pre.len() {
                    assert(pre[k] == edges[k]);
                    assert(across(owners, i, pre, j));
                    assert(found.contains(j));
                }
            }
            if across(owners, i, pre, j) {
                let k = choose|k: int|
                    0 <= k < pre.len() && owners.contains_key((pre[k].1, pre[k].0)) && owners[(
                        pre[k].1,
                        pre[k].0,
                    )] == j && j != i;
                assert(edges[k] == pre[k]);
            }
            if owners.contains_key(rev) && owners[rev] != i && !found.contains(owners[rev]) {
                let pushed = found.push(owners[rev]);
                if pushed.contains(j) {
                    let q = choose|q: int| 0 <= q < pushed.len() && pushed[q] == j;
                    if q < found.len() {
                        assert(found[q] == j);
                    }
                }
                if found.contains(j) {
                    let q = choose|q: int| 0 <= q < found.len() && found[q] == j;
                    assert(pushed[q] == j);
                }
                if j == owners[rev] {
                    assert(pushed[found.len() as int] == j);
                }
                if j == owners[rev] {
                    assert(edges[edges.len() - 1] == last);
                }
            } else if owners.contains_key(rev) && owners[rev] != i && j == owners[rev] {
                assert(edges[edges.len() - 1] == last);
            }
        }
    }
}

fn listed(v: &Vec<u32>, x: u32) -> (r: bool)
    ensures
        r == v@.contains(x),
{
    let mut k: usize = 0;
    while k < v.len()
        invariant
            k <= v.len(),
            forall|q: int| 0 <= q < k ==> v@[q] != x,
        decreases v.len() - k,
    {
        if v[k] == x {
            assert(v@[k as int] == x);
            return true;
        }
        k = k + 1;
    }
    false
}

/// Neighbors of flat-map cells under the directed-edge rule: two cells are
/// neighbors where one has an edge `a -> b` and the other has `b -> a`
/// (each directed edge belongs to the last polygon that has it). Each list
/// follows the cell's own edges, without repetition and without the cell.
pub fn directed_edge_neighbors(polys: &Vec<Vec<Plane>>) -> (nb: Vec<Vec<u32>>)
    requires
        polys.len() <= u32::MAX,
    ensures
        nb.len() == polys.len(),
        forall|i: int|
            0 <= i < polys.len() ==> #[trigger] nb@[i]@ == reverse_owners(
                edge_owners(all_polygon_edges(polys.deep_view())),
                i as u32,
                polygon_edges(polys.deep_view()[i]),
            ),
        forall|i: int| 0 <= i < polys.len() ==> (#[trigger] nb@[i]@).no_duplicates(),
        forall|i: int, j: u32|
            0 <= i < polys.len() ==> (#[trigger] nb@[i]@.contains(j) <==> across(
                edge_owners(all_polygon_edges(polys.deep_view())),
                i as u32,
                polygon_edges(polys.deep_view()[i]),
                j,
            )),
{
    let ghost all = polys.deep_view();
    let n = polys.len();
    let mut owners: BTreeMap<(Plane, Plane), u32> = BTreeMap::new();
    let mut i: usize = 0;
    while i < n
        invariant
            i <= n,
            n == polys.len(),
            n <= u32::MAX,
            all == polys.deep_view(),
            owners@ == edge_owners(all_polygon_edges(all.take(i as int))),
        decreases n - i,
    {
        let poly = &polys[i];
        assert(poly@ == all[i as int]);
        let len = poly.len();
        let ghost done = all_polygon_edges(all.take(i as int));
        let ghost mine = polygon_edges(poly@).map_values(|e: (Plane, Plane)| (i as u32, e));
        assert(all.take(i + 1).drop_last() == all.take(i as int));
        assert(all_polygon_edges(all.take(i + 1)) == done + mine);
        if len >= 2 {
            let mut k: usize = 0;
            while k < len
                invariant
                    k <= len,
                    len == poly@.len(),
                    len >= 2,
                    i < n,
                    n <= u32::MAX,
                    mine == polygon_edges(poly@).map_values(|e: (Plane, Plane)| (i as u32, e)),
                    owners@ == edge_owners(done + mine.take(k as int)),
                decreases len - k,
            {
                let a = poly[k];
                let b = poly[(k + 1) % len];
                assert(mine[k as int] == (i as u32, (a, b)));
                assert((done + mine.take(k + 1)).drop_last() == done + mine.take(k as int));
                assert((done + mine.take(k + 1)).last() == (i as u32, (a, b)));
                owners.insert((a, b), i as u32);
                k = k + 1;
            }
            assert(mine.take(len as int) == mine);
        } else {
            assert(mine == Seq::<(u32, (Plane, Plane))>::empty());
            assert(done + mine == done);
        }
        i = i + 1;
    }
    assert(all.take(n as int) == all);
    let ghost owned = owners@;
    let mut nb: Vec<Vec<u32>> = Vec::new();
    let mut i: usize = 0;
    while i < n
        invariant
            i <= n,
            n == polys.len(),
            n <= u32::MAX,
            all == polys.deep_view(),
            owners@ == owned,
            owned == edge_owners(all_polygon_edges(all)),
            nb.len() == i,
            forall|a: int|
                0 <= a < i ==> #[trigger] nb@[a]@ == reverse_owners(owned, a as u32, polygon_edges(all[a])),
        decreases n - i,
    {
        let poly = &polys[i];
        assert(poly@ == all[i as int]);
        let len = poly.len();
        let ghost edges = polygon_edges(poly@);
        let mut row: Vec<u32> = Vec::new();
        if len >= 2 {
            let mut k: usize = 0;
            while k < len
                invariant
                    k <= len,
                    len == poly@.len(),
                    len >= 2,
                    i < n,
                    n <= u32::MAX,
                    owners@ == owned,
                    edges == polygon_edges(poly@),
                    row@ == reverse_owners(owned, i as u32, edges.take(k as int)),
                decreases len - k,
            {
                let a = poly[k];
                let b = poly[(k + 1) % len];
                assert(edges[k as int] == (a, b));
                assert(edges.take(k + 1).drop_last() == edges.take(k as int));
                assert(edges.take(k + 1).last() == (a, b));
                match owners.get(&(b, a)) {
                    Some(j) => {
                        let j = *j;
                        if j != i as u32 && !listed(&row, j) {
                            row.push(j);
                        }
                    },
                    None => {},
                }
                k = k + 1;
            }
            assert(edges.take(len as int) == edges);
        } else {
            assert(edges == Seq::<(Plane, Plane)>::empty());
            assert(row@ == reverse_owners(owned, i as u32, edges));
        }
        nb.push(row);
        i = i + 1;
    }
    proof {
        assert forall|a: int| 0 <= a < n implies (#[trigger] nb@[a]@).no_duplicates() by {
            lemma_reverse_owners(owned, a as u32, polygon_edges(all[a]));
        }
        assert forall|a: int, j: u32| 0 <= a < n implies (#[trigger] nb@[a]@.contains(j) <==> across(
            owned,
            a as u32,
            polygon_edges(all[a]),
            j,
        )) by {
            lemma_reverse_owners(owned, a as u32, polygon_edges(all[a]));
        }
    }
    nb
}

} // verus!
