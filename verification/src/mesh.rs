//! Polyhedron topology: the outline of a group of hull triangles, the map
//! from edges to the faces that use them, the pairs of faces sharing an
//! edge, and geodesic subdivision of triangle faces.
use std::collections::BTreeMap;
use vstd::prelude::*;
use vstd::std_specs::btree::axiom_spec_values_iter;
use vstd::std_specs::iter::IteratorSpec;
use vstd::string::StringExecFns;

verus! {

/// The three directed edges of a triangle, in winding order.
pub open spec fn tri_edges(t: [u32; 3]) -> Seq<(u32, u32)> {
    seq![(t[0], t[1]), (t[1], t[2]), (t[2], t[0])]
}

/// Directed edges of the member triangles, in member order.
pub open spec fn member_edges(members: Seq<usize>, tris: Seq<[u32; 3]>) -> Seq<(u32, u32)>
    decreases members.len(),
{
    if members.len() == 0 {
        seq![]
    } else {
        member_edges(members.drop_last(), tris) + tri_edges(tris[members.last() as int])
    }
}

/// Edge `k` of `edges` lies on the boundary: its reverse is not an edge.
pub open spec fn boundary_at(edges: Seq<(u32, u32)>, k: int) -> bool {
    !edges.contains((edges[k].1, edges[k].0))
}

/// Target of the first boundary edge leaving `a`, searching from position `from`.
pub open spec fn next_on_boundary(edges: Seq<(u32, u32)>, a: u32, from: int) -> Option<u32>
    decreases edges.len() - from,
{
    if from < 0 || from >= edges.len() {
        None
    } else if boundary_at(edges, from) && edges[from].0 == a {
        Some(edges[from].1)
    } else {
        next_on_boundary(edges, a, from + 1)
    }
}

/// `a` is the smallest source of a boundary edge.
pub open spec fn is_boundary_start(edges: Seq<(u32, u32)>, a: u32) -> bool {
    &&& exists|k: int| 0 <= k < edges.len() && boundary_at(edges, k) && edges[k].0 == a
    &&& forall|k: int| 0 <= k < edges.len() && boundary_at(edges, k) ==> a <= #[trigger] edges[k].0
}

/// Longest boundary cycle the walk accepts.
pub const MAX_BOUNDARY_LEN: usize = 1024;

/// Result of walking the boundary from `start`, having visited `cycle`.
pub open spec fn boundary_walk(edges: Seq<(u32, u32)>, start: u32, cycle: Seq<u32>) -> Result<
    Seq<u32>,
    Seq<char>,
>
    decreases 1025 - cycle.len(),
{
    if cycle.len() == 0 || cycle.len() > MAX_BOUNDARY_LEN {
        Err(unterminated_message())
    } else {
        match next_on_boundary(edges, cycle.last(), 0) {
            None => Err(missing_edge_message()),
            Some(n) => if n == start {
                Ok(cycle)
            } else if cycle.len() + 1 > MAX_BOUNDARY_LEN {
                Err(unterminated_message())
            } else {
                boundary_walk(edges, start, cycle.push(n))
            },
        }
    }
}

/// Error text when the member triangles have no boundary edge.
pub open spec fn no_boundary_message() -> Seq<char> {
    "coplanar group has no boundary edges"@
}

/// Error text when the boundary walk reaches a vertex with no boundary edge out.
pub open spec fn missing_edge_message() -> Seq<char> {
    "boundary walk encountered missing next edge"@
}

/// Error text when the boundary walk gets too long.
pub open spec fn unterminated_message() -> Seq<char> {
    "boundary walk did not terminate"@
}

/// The boundary of the union of the member triangles, as a vertex cycle:
/// starting at the smallest source of a boundary edge (an edge whose reverse
/// is not an edge of the members) and following, from each vertex, the
/// first boundary edge that leaves it.
pub open spec fn spec_face_boundary(members: Seq<usize>, tris: Seq<[u32; 3]>) -> Result<
    Seq<u32>,
    Seq<char>,
> {
    let edges = member_edges(members, tris);
    if !(exists|k: int| 0 <= k < edges.len() && boundary_at(edges, k)) {
        Err(no_boundary_message())
    } else {
        let start = choose|a: u32| is_boundary_start(edges, a);
        boundary_walk(edges, start, seq![start])
    }
}

fn has_edge(edges: &Vec<(u32, u32)>, e: (u32, u32)) -> (found: bool)
    ensures
        found == edges@.contains(e),
{
    let mut k: usize = 0;
    while k < edges.len()
        invariant
            k <= edges.len(),
            forall|j: int| 0 <= j < k ==> edges@[j] != e,
        decreases edges.len() - k,
    {
        if edges[k].0 == e.0 && edges[k].1 == e.1 {
            assert(edges@[k as int] == e);
            return true;
        }
        k = k + 1;
    }
    false
}

fn next_boundary(edges: &Vec<(u32, u32)>, a: u32) -> (next: Option<u32>)
    ensures
        next == next_on_boundary(edges@, a, 0),
{
    let mut k: usize = 0;
    while k < edges.len()
        invariant
            k <= edges.len(),
            next_on_boundary(edges@, a, 0) == next_on_boundary(edges@, a, k as int),
        decreases edges.len() - k,
    {
        let (x, y) = edges[k];
        if x == a && !has_edge(edges, (y, x)) {
            return Some(y);
        }
        k = k + 1;
    }
    None
}

/// Extract the boundary of a group of triangles (coplanar members of a
/// convex hull) as a vertex cycle: see [`spec_face_boundary`].
pub fn extract_face_boundary(members: &[usize], tris: &[[u32; 3]]) -> (r: Result<Vec<u32>, String>)
    requires
        forall|i: int| 0 <= i < members@.len() ==> #[trigger] members@[i] < tris@.len(),
    ensures
        match spec_face_boundary(members@, tris@) {
            Ok(cycle) => r is Ok && r->Ok_0@ == cycle,
            Err(message) => r is Err && r->Err_0@ == message,
        },
{
    let mut edges: Vec<(u32, u32)> = Vec::new();
    let mut i: usize = 0;
    while i < members.len()
        invariant
            i <= members@.len(),
            forall|q: int| 0 <= q < members@.len() ==> #[trigger] members@[q] < tris@.len(),
            edges@ == member_edges(members@.take(i as int), tris@),
        decreases members.len() - i,
    {
        let t = tris[members[i]];
        assert(members@.take(i + 1).drop_last() == members@.take(i as int));
        edges.push((t[0], t[1]));
        edges.push((t[1], t[2]));
        edges.push((t[2], t[0]));
        assert(edges@ =~= member_edges(members@.take(i + 1), tris@));
        i = i + 1;
    }
    assert(members@.take(members.len() as int) == members@);
    let ghost es = edges@;
    let mut start: Option<u32> = None;
    let mut k: usize = 0;
    while k < edges.len()
        invariant
            k <= edges.len(),
            es == edges@,
            match start {
                None => forall|j: int| 0 <= j < k ==> !boundary_at(es, j),
                Some(a) => (exists|j: int| 0 <= j < k && boundary_at(es, j) && es[j].0 == a) && (forall|
                    j: int,
                | 0 <= j < k && boundary_at(es, j) ==> a <= #[trigger] es[j].0),
            },
        decreases edges.len() - k,
    {
        let (x, y) = edges[k];
        if !has_edge(&edges, (y, x)) {
            assert(boundary_at(es, k as int));
            match start {
                None => {
                    start = Some(x);
                },
                Some(a) => {
                    if x < a {
                        start = Some(x);
                    }
                },
            }
        }
        k = k + 1;
    }
    let start = match start {
        None => {
            return Err(String::from_str("coplanar group has no boundary edges"));
        },
        Some(a) => a,
    };
    assert(is_boundary_start(es, start));
    assert forall|b: u32| is_boundary_start(es, b) implies b == start by {
        let j1 = choose|j: int| 0 <= j < es.len() && boundary_at(es, j) && es[j].0 == b;
        let j2 = choose|j: int| 0 <= j < es.len() && boundary_at(es, j) && es[j].0 == start;
        assert(start <= es[j1].0);
        assert(b <= es[j2].0);
    }
    assert((choose|a: u32| is_boundary_start(es, a)) == start);
    let mut cycle: Vec<u32> = Vec::new();
    cycle.push(start);
    assert(cycle@ == seq![start]);
    assert(spec_face_boundary(members@, tris@) == boundary_walk(es, start, cycle@));
    let mut current = start;
    loop
        invariant
            es == edges@,
            1 <= cycle.len() <= MAX_BOUNDARY_LEN,
            current == cycle@.last(),
            spec_face_boundary(members@, tris@) == boundary_walk(es, start, cycle@),
        decreases 1025 - cycle.len(),
    {
        match next_boundary(&edges, current) {
            None => {
                return Err(String::from_str("boundary walk encountered missing next edge"));
            },
            Some(n) => {
                if n == start {
                    return Ok(cycle);
                }
                cycle.push(n);
                current = n;
                if cycle.len() > MAX_BOUNDARY_LEN {
                    return Err(String::from_str("boundary walk did not terminate"));
                }
            },
        }
    }
}

/// A vertex found by [`next_on_boundary`] is the target of a boundary edge
/// leaving `a`.
proof fn lemma_next_is_boundary_edge(edges: Seq<(u32, u32)>, a: u32, from: int)
    requires
        next_on_boundary(edges, a, from) is Some,
    ensures
        exists|k: int|
            0 <= k < edges.len() && boundary_at(edges, k) && edges[k] == (a, next_on_boundary(
                edges,
                a,
                from,
            )->0),
    decreases edges.len() - from,
{
    if !(boundary_at(edges, from) && edges[from].0 == a) {
        lemma_next_is_boundary_edge(edges, a, from + 1);
    }
}

/// What a successful walk from `cycle` produces: an extension of it in
/// which every vertex leads to the next, the last leads back to `start`,
/// and `start` appears only first.
proof fn lemma_walk_result(edges: Seq<(u32, u32)>, start: u32, cycle: Seq<u32>)
    requires
        cycle.len() >= 1,
        cycle[0] == start,
        forall|k: int| 1 <= k < cycle.len() ==> cycle[k] != start,
        forall|k: int|
            0 <= k < cycle.len() - 1 ==> next_on_boundary(edges, #[trigger] cycle[k], 0) == Some(
                cycle[k + 1],
            ),
        boundary_walk(edges, start, cycle) is Ok,
    ensures
        ({
            let c = boundary_walk(edges, start, cycle)->Ok_0;
            &&& c.len() >= 1
            &&& c[0] == start
            &&& forall|k: int| 1 <= k < c.len() ==> c[k] != start
            &&& forall|k: int|
                0 <= k < c.len() - 1 ==> next_on_boundary(edges, #[trigger] c[k], 0) == Some(c[k + 1])
            &&& next_on_boundary(edges, c.last(), 0) == Some(start)
        }),
    decreases 1025 - cycle.len(),
{
    match next_on_boundary(edges, cycle.last(), 0) {
        None => {},
        Some(n) => {
            if n != start && cycle.len() + 1 <= MAX_BOUNDARY_LEN {
                let longer = cycle.push(n);
                assert forall|k: int| 0 <= k < longer.len() - 1 implies next_on_boundary(
                    edges,
                    #[trigger] longer[k],
                    0,
                ) == Some(longer[k + 1]) by {
                    if k < cycle.len() - 1 {
                        assert(longer[k] == cycle[k] && longer[k + 1] == cycle[k + 1]);
                    } else {
                        assert(longer[k] == cycle.last());
                    }
                }
                lemma_walk_result(edges, start, longer);
            }
        },
    }
}

/// In a cycle of the successor map through `start` (which appears only
/// first), equal vertices at `i < j` give equal vertices `t` steps later.
proof fn lemma_walk_shift(edges: Seq<(u32, u32)>, c: Seq<u32>, i: int, j: int, t: int)
    requires
        0 <= i < j < c.len(),
        0 <= t <= c.len() - 1 - j,
        c[i] == c[j],
        forall|k: int|
            0 <= k < c.len() - 1 ==> next_on_boundary(edges, #[trigger] c[k], 0) == Some(c[k + 1]),
    ensures
        c[i + t] == c[j + t],
    decreases t,
{
    if t > 0 {
        lemma_walk_shift(edges, c, i, j, t - 1);
        assert(next_on_boundary(edges, c[i + t - 1], 0) == Some(c[i + t]));
        assert(next_on_boundary(edges, c[j + t - 1], 0) == Some(c[j + t]));
    }
}

/// A cycle of the successor map through `start`, where `start` appears
/// only first, repeats no vertex.
proof fn lemma_walk_distinct(edges: Seq<(u32, u32)>, c: Seq<u32>, start: u32)
    requires
        c.len() >= 1,
        c[0] == start,
        forall|k: int| 1 <= k < c.len() ==> c[k] != start,
        forall|k: int|
            0 <= k < c.len() - 1 ==> next_on_boundary(edges, #[trigger] c[k], 0) == Some(c[k + 1]),
        next_on_boundary(edges, c.last(), 0) == Some(start),
    ensures
        c.no_duplicates(),
{
    assert forall|i: int, j: int| 0 <= i < c.len() && 0 <= j < c.len() && i != j implies c[i] != c[j] by {
        if c[i] == c[j] {
            let (a, b) = if i < j { (i, j) } else { (j, i) };
            let t = c.len() - 1 - b;
            lemma_walk_shift(edges, c, a, b, t);
            assert(c[a + t] == c.last());
            assert(next_on_boundary(edges, c[a + t], 0) == Some(c[a + t + 1]));
            assert(c[a + t + 1] == start);
        }
    }
}

/// An extracted face boundary is a simple closed walk along boundary edges:
/// it starts at the smallest source of a boundary edge, each vertex is
/// followed by the target of the first boundary edge leaving it (the last
/// one by the first vertex), and no vertex repeats.
#[verifier::rlimit(60)]
pub proof fn face_boundary_is_simple_cycle(members: Seq<usize>, tris: Seq<[u32; 3]>)
    requires
        spec_face_boundary(members, tris) is Ok,
    ensures
        ({
            let c = spec_face_boundary(members, tris)->Ok_0;
            let edges = member_edges(members, tris);
            &&& c.len() >= 1
            &&& is_boundary_start(edges, c[0])
            &&& c.no_duplicates()
            &&& forall|k: int|
                0 <= k < c.len() - 1 ==> next_on_boundary(edges, #[trigger] c[k], 0) == Some(c[k + 1])
            &&& next_on_boundary(edges, c.last(), 0) == Some(c[0])
            &&& forall|k: int|
                0 <= k < c.len() - 1 ==> exists|e: int|
                    0 <= e < edges.len() && boundary_at(edges, e) && edges[e] == (#[trigger] c[k], c[k
                        + 1])
            &&& exists|e: int|
                0 <= e < edges.len() && boundary_at(edges, e) && edges[e] == (c.last(), c[0])
        }),
{
    let edges = member_edges(members, tris);
    assert(exists|k: int| 0 <= k < edges.len() && boundary_at(edges, k));
    let start = choose|a: u32| is_boundary_start(edges, a);
    let k0 = choose|k: int| 0 <= k < edges.len() && boundary_at(edges, k);
    lemma_smallest_source(edges, edges[k0].0 as int, k0);
    let walk = boundary_walk(edges, start, seq![start]);
    assert(spec_face_boundary(members, tris) == walk);
    lemma_walk_result(edges, start, seq![start]);
    let c = walk->Ok_0;
    lemma_walk_distinct(edges, c, start);
    assert forall|k: int| 0 <= k < c.len() - 1 implies exists|e: int|
        0 <= e < edges.len() && boundary_at(edges, e) && edges[e] == (#[trigger] c[k], c[k + 1]) by {
        lemma_next_is_boundary_edge(edges, c[k], 0);
    }
    lemma_next_is_boundary_edge(edges, c.last(), 0);
}

/// Among boundary edges with a source at most `bound` (one of which is
/// `k0`), there is one with the smallest source of all boundary edges.
proof fn lemma_smallest_source(edges: Seq<(u32, u32)>, bound: int, k0: int)
    requires
        0 <= k0 < edges.len(),
        boundary_at(edges, k0),
        edges[k0].0 <= bound,
    ensures
        exists|a: u32| is_boundary_start(edges, a),
    decreases bound,
{
    let a = edges[k0].0;
    if exists|k: int| 0 <= k < edges.len() && boundary_at(edges, k) && edges[k].0 < a {
        let k1 = choose|k: int| 0 <= k < edges.len() && boundary_at(edges, k) && edges[k].0 < a;
        lemma_smallest_source(edges, edges[k1].0 as int, k1);
    } else {
        assert(is_boundary_start(edges, a));
    }
}

/// An undirected edge key: the endpoints in increasing order.
pub open spec fn edge_key(a: u32, b: u32) -> (u32, u32) {
    if a < b { (a, b) } else { (b, a) }
}

/// The edges of face `f` (vertex list `face`), each as (undirected key,
/// (face index, edge index within the face)), in face order.
pub open spec fn face_edge_entries(f: int, face: Seq<u32>) -> Seq<((u32, u32), (u32, u32))> {
    Seq::new(
        face.len(),
        |k: int| (edge_key(face[k], face[(k + 1) % (face.len() as int)]), (f as u32, k as u32)),
    )
}

/// The edges of all faces, face by face.
pub open spec fn all_edge_entries(faces: Seq<Seq<u32>>) -> Seq<((u32, u32), (u32, u32))>
    decreases faces.len(),
{
    if faces.len() == 0 {
        seq![]
    } else {
        all_edge_entries(faces.drop_last()) + face_edge_entries(faces.len() - 1, faces.last())
    }
}

/// The (face, edge) entries listed for `key`, in order.
pub open spec fn entries_for(list: Seq<((u32, u32), (u32, u32))>, key: (u32, u32)) -> Seq<(u32, u32)>
    decreases list.len(),
{
    if list.len() == 0 {
        seq![]
    } else {
        entries_for(list.drop_last(), key) + if list.last().0 == key {
            seq![list.last().1]
        } else {
            seq![]
        }
    }
}

/// `m` maps each edge key of `list` to its entries, and nothing else.
pub open spec fn edge_map_matches(
    m: Map<(u32, u32), Vec<(u32, u32)>>,
    list: Seq<((u32, u32), (u32, u32))>,
) -> bool {
    forall|key: (u32, u32)|
        (#[trigger] m.contains_key(key) <==> entries_for(list, key).len() > 0) && (m.contains_key(key)
            ==> m[key]@ == entries_for(list, key))
}

/// Map each undirected edge `(a, b)` (with `a < b`) of the faces to the
/// (face index, edge index within the face) pairs that share it, in face
/// order. Indices are taken modulo `2^32`.
pub fn build_edge_to_faces(faces: &Vec<Vec<u32>>) -> (map: BTreeMap<(u32, u32), Vec<(u32, u32)>>)
    ensures
        edge_map_matches(map@, all_edge_entries(faces.deep_view())),
{
    let mut map: BTreeMap<(u32, u32), Vec<(u32, u32)>> = BTreeMap::new();
    let ghost all = faces.deep_view();
    let mut f: usize = 0;
    while f < faces.len()
        invariant
            f <= faces.len(),
            all == faces.deep_view(),
            edge_map_matches(map@, all_edge_entries(all.take(f as int))),
        decreases faces.len() - f,
    {
        let face = &faces[f];
        assert(face@ == all[f as int]);
        let n = face.len();
        let ghost done = all_edge_entries(all.take(f as int));
        let mut k: usize = 0;
        while k < n
            invariant
                k <= n,
                n == face@.len(),
                edge_map_matches(map@, done + face_edge_entries(f as int, face@).take(k as int)),
            decreases n - k,
        {
            let a = face[k];
            let b = face[(k + 1) % n];
            let key = if a < b { (a, b) } else { (b, a) };
            let entry = (f as u32, k as u32);
            let ghost list = done + face_edge_entries(f as int, face@).take(k as int);
            let ghost longer = done + face_edge_entries(f as int, face@).take(k + 1);
            assert(longer == list.push((key, entry)));
            assert(longer.drop_last() == list);
            let mut listed: Vec<(u32, u32)> = match map.remove(&key) {
                Some(v) => v,
                None => Vec::new(),
            };
            listed.push(entry);
            map.insert(key, listed);
            assert forall|q: (u32, u32)|
                (#[trigger] map@.contains_key(q) <==> entries_for(longer, q).len() > 0) && (map@.contains_key(q)
                    ==> map@[q]@ == entries_for(longer, q)) by {
                if q != key {
                    assert(entries_for(longer, q) == entries_for(list, q) + Seq::<(u32, u32)>::empty());
                } else {
                    assert(entries_for(longer, q) == entries_for(list, q) + seq![entry]);
                }
            }
            k = k + 1;
        }
        assert(face_edge_entries(f as int, face@).take(n as int) == face_edge_entries(f as int, face@));
        assert(all.take(f + 1).drop_last() == all.take(f as int));
        assert(all_edge_entries(all.take(f + 1)) == done + face_edge_entries(f as int, face@));
        f = f + 1;
    }
    assert(all.take(faces.len() as int) == all);
    map
}


/// Faces `x` and `y` are the only two (in this order) listed for some edge.
pub open spec fn edge_pair(faces: Seq<Seq<u32>>, x: usize, y: usize) -> bool {
    exists|key: (u32, u32)|
        {
            let l = #[trigger] entries_for(all_edge_entries(faces), key);
            l.len() == 2 && l[0].0 == x && l[1].0 == y
        }
}

/// The pairs of faces that share an edge used by exactly those two faces
/// (each pair once per such edge, in no particular order).
pub fn shared_edge_pairs(faces: &Vec<Vec<u32>>) -> (pairs: Vec<(usize, usize)>)
    ensures
        forall|x: usize, y: usize| #[trigger] pairs@.contains((x, y)) <==> edge_pair(faces.deep_view(), x, y),
{
    let map = build_edge_to_faces(faces);
    let ghost all = all_edge_entries(faces.deep_view());
    let values = map.values();
    let ghost vs = values.remaining();
    proof {
        axiom_spec_values_iter(&map);
    }
    let mut pairs: Vec<(usize, usize)> = Vec::new();
    for v in it: values
        invariant
            it.seq() == vs,
            vs.unref().to_set() == map@.values(),
            edge_map_matches(map@, all),
            forall|x: usize, y: usize|
                #[trigger] pairs@.contains((x, y)) <==> exists|k: int|
                    0 <= k < it.index() && vs[k]@.len() == 2 && vs[k]@[0].0 == x && vs[k]@[1].0 == y,
    {
        let ghost k = it.index();
        if v.len() == 2 {
            let pair = (v[0].0 as usize, v[1].0 as usize);
            let ghost before = pairs@;
            pairs.push(pair);
            proof {
                assert(*v == *vs[k]);
                assert forall|x: usize, y: usize| #[trigger] pairs@.contains((x, y)) <==> exists|q: int|
                    0 <= q < k + 1 && vs[q]@.len() == 2 && vs[q]@[0].0 == x && vs[q]@[1].0 == y by {
                    if pairs@.contains((x, y)) {
                        let w = choose|w: int| 0 <= w < pairs@.len() && pairs@[w] == (x, y);
                        if w < before.len() {
                            assert(before[w] == (x, y));
                            assert(before.contains((x, y)));
                        } else {
                            assert(vs[k]@[0].0 == x && vs[k]@[1].0 == y);
                        }
                    }
                    if exists|q: int|
                        0 <= q < k + 1 && vs[q]@.len() == 2 && vs[q]@[0].0 == x && vs[q]@[1].0 == y {
                        let q = choose|q: int|
                            0 <= q < k + 1 && vs[q]@.len() == 2 && vs[q]@[0].0 == x && vs[q]@[1].0 == y;
                        if q < k {
                            assert(before.contains((x, y)));
                            let w = choose|w: int| 0 <= w < before.len() && before[w] == (x, y);
                            assert(pairs@[w] == (x, y));
                        } else {
                            assert(pairs@[before.len() as int] == (x, y));
                        }
                    }
                }
            }
        } else {
            proof {
                assert(*v == *vs[k]);
            }
        }
    }
    proof {
        assert forall|x: usize, y: usize| #[trigger] pairs@.contains((x, y)) <==> edge_pair(
            faces.deep_view(),
            x,
            y,
        ) by {
            if pairs@.contains((x, y)) {
                let k = choose|k: int|
                    0 <= k < vs.len() && vs[k]@.len() == 2 && vs[k]@[0].0 == x && vs[k]@[1].0 == y;
                assert(vs.unref()[k] == *vs[k]);
                assert(vs.unref().to_set().contains(*vs[k]));
                assert(map@.values().contains(*vs[k]));
                let key = choose|key: (u32, u32)| map@.contains_key(key) && map@[key] == *vs[k];
                assert(entries_for(all, key) == vs[k]@);
            }
            if edge_pair(faces.deep_view(), x, y) {
                let key = choose|key: (u32, u32)|
                    {
                        let l = #[trigger] entries_for(all, key);
                        l.len() == 2 && l[0].0 == x && l[1].0 == y
                    };
                assert(map@.contains_key(key));
                let v = map@[key];
                assert(map@.values().contains(v));
                assert(vs.unref().to_set().contains(v));
                let k = choose|k: int| 0 <= k < vs.unref().len() && vs.unref()[k] == v;
                assert(*vs[k] == v);
            }
        }
    }
    pairs
}

/// The edges of the triangles, three per face in winding order, each by its
/// undirected key.
pub open spec fn subdivision_edges(faces: Seq<Seq<u32>>) -> Seq<(u32, u32)> {
    Seq::new(
        3 * faces.len(),
        |c: int|
            {
                let f = faces[c / 3];
                let k = c % 3;
                edge_key(f[k], f[(k + 1) % 3])
            },
    )
}

/// The distinct keys of `s`, in order of first appearance.
pub open spec fn first_appearances(s: Seq<(u32, u32)>) -> Seq<(u32, u32)>
    decreases s.len(),
{
    if s.len() == 0 {
        seq![]
    } else {
        let pre = first_appearances(s.drop_last());
        if pre.contains(s.last()) {
            pre
        } else {
            pre.push(s.last())
        }
    }
}

/// `m` is the index of the midpoint of edge `key`, given the midpoints in
/// creation order and the number of vertices before them.
pub open spec fn is_midpoint(mids: Seq<(u32, u32)>, base: int, key: (u32, u32), m: u32) -> bool {
    base <= m < base + mids.len() && mids[m - base] == key
}

/// The midpoint index of edge `a b`, creating the midpoint if the edge has
/// none yet. `es[c]` is this edge; the midpoints so far are those of the
/// edges before it.
fn midpoint_slot(
    cache: &mut BTreeMap<(u32, u32), u32>,
    mids: &mut Vec<(u32, u32)>,
    base: usize,
    a: u32,
    b: u32,
    Ghost(es): Ghost<Seq<(u32, u32)>>,
    Ghost(c): Ghost<int>,
) -> (m: u32)
    requires
        0 <= c < es.len(),
        es[c] == edge_key(a, b),
        base + es.len() <= u32::MAX,
        old(mids)@ == first_appearances(es.take(c)),
        old(mids)@.no_duplicates(),
        old(mids)@.len() <= c,
        forall|k: (u32, u32)| #[trigger] old(cache)@.contains_key(k) <==> old(mids)@.contains(k),
        forall|p: int| 0 <= p < old(mids)@.len() ==> #[trigger] old(cache)@[old(mids)@[p]] == base + p,
    ensures
        final(mids)@ == first_appearances(es.take(c + 1)),
        final(mids)@.no_duplicates(),
        final(mids)@.len() <= c + 1,
        final(mids)@.len() >= old(mids)@.len(),
        forall|p: int| 0 <= p < old(mids)@.len() ==> #[trigger] final(mids)@[p] == old(mids)@[p],
        forall|k: (u32, u32)| #[trigger] final(cache)@.contains_key(k) <==> final(mids)@.contains(k),
        forall|p: int|
            0 <= p < final(mids)@.len() ==> #[trigger] final(cache)@[final(mids)@[p]] == base + p,
        is_midpoint(final(mids)@, base as int, edge_key(a, b), m),
{
    let key = if a < b { (a, b) } else { (b, a) };
    assert(es.take(c + 1).drop_last() == es.take(c));
    assert(es.take(c + 1).last() == key);
    match cache.get(&key) {
        Some(m) => {
            let m = *m;
            proof {
                let p = choose|p: int| 0 <= p < mids@.len() && mids@[p] == key;
                assert(cache@[mids@[p]] == base + p);
            }
            m
        },
        None => {
            let m = (base + mids.len()) as u32;
            let ghost before = mids@;
            mids.push(key);
            cache.insert(key, m);
            assert(!before.contains(key));
            assert forall|k: (u32, u32)| #[trigger] cache@.contains_key(k) <==> mids@.contains(k) by {
                if mids@.contains(k) && k != key {
                    let p = choose|p: int| 0 <= p < mids@.len() && mids@[p] == k;
                    assert(before[p] == k);
                }
                if k == key {
                    assert(mids@[before.len() as int] == key);
                }
                if before.contains(k) {
                    let p = choose|p: int| 0 <= p < before.len() && before[p] == k;
                    assert(mids@[p] == k);
                }
            }
            assert forall|p: int| 0 <= p < mids@.len() implies #[trigger] cache@[mids@[p]] == base + p by {
                if p < before.len() {
                    assert(mids@[p] == before[p]);
                    assert(before[p] != key);
                }
            }
            assert(mids@[before.len() as int] == key);
            m
        },
    }
}

/// One midpoint per edge: in a list of created midpoints without
/// repetition, two faces that split the same edge use the same midpoint
/// vertex, and different edges get different midpoints.
pub proof fn midpoints_are_shared(
    mids: Seq<(u32, u32)>,
    base: int,
    key1: (u32, u32),
    m1: u32,
    key2: (u32, u32),
    m2: u32,
)
    requires
        mids.no_duplicates(),
        is_midpoint(mids, base, key1, m1),
        is_midpoint(mids, base, key2, m2),
    ensures
        (m1 == m2) <==> (key1 == key2),
{
}

/// Faces `4 f .. 4 f + 4` of `out` split triangle `v` at the midpoints
/// listed in `mids` (created after the `base` existing vertices).
pub open spec fn split_ok(mids: Seq<(u32, u32)>, base: int, v: Seq<u32>, out: Seq<Vec<u32>>, f: int) -> bool {
    let a = out[4 * f]@;
    let b = out[4 * f + 1]@;
    let c = out[4 * f + 2]@;
    let d = out[4 * f + 3]@;
    &&& a.len() == 3 && b.len() == 3 && c.len() == 3
    &&& a[0] == v[0] && b[0] == v[1] && c[0] == v[2]
    &&& is_midpoint(mids, base, edge_key(v[0], v[1]), a[1])
    &&& is_midpoint(mids, base, edge_key(v[1], v[2]), b[1])
    &&& is_midpoint(mids, base, edge_key(v[2], v[0]), c[1])
    &&& a[2] == c[1] && b[2] == a[1] && c[2] == b[1]
    &&& d == seq![a[1], b[1], c[1]]
}

/// A split stays described when midpoints are appended and faces are
/// appended after it.
proof fn lemma_split_ok_grow(
    mids1: Seq<(u32, u32)>,
    mids2: Seq<(u32, u32)>,
    base: int,
    v: Seq<u32>,
    out1: Seq<Vec<u32>>,
    out2: Seq<Vec<u32>>,
    f: int,
)
    requires
        split_ok(mids1, base, v, out1, f),
        0 <= f,
        4 * f + 4 <= out1.len() <= out2.len(),
        forall|q: int| 0 <= q < out1.len() ==> out2[q] == out1[q],
        mids1.len() <= mids2.len(),
        forall|p: int| 0 <= p < mids1.len() ==> mids2[p] == mids1[p],
    ensures
        split_ok(mids2, base, v, out2, f),
{
    assert(out2[4 * f] == out1[4 * f]);
    assert(out2[4 * f + 1] == out1[4 * f + 1]);
    assert(out2[4 * f + 2] == out1[4 * f + 2]);
    assert(out2[4 * f + 3] == out1[4 * f + 3]);
    let a = out1[4 * f]@;
    let b = out1[4 * f + 1]@;
    let c = out1[4 * f + 2]@;
    assert(mids2[a[1] - base] == mids1[a[1] - base]);
    assert(mids2[b[1] - base] == mids1[b[1] - base]);
    assert(mids2[c[1] - base] == mids1[c[1] - base]);
}

/// Geodesic subdivision of triangle faces: every face `[v0, v1, v2]` becomes
/// `[v0, m01, m20]`, `[v1, m12, m01]`, `[v2, m20, m12]`, `[m01, m12, m20]`,
/// where `mab` is the midpoint vertex of edge `a b`. Midpoints are shared
/// between faces; the first edge to need one creates it, with the next free
/// index after the `vertex_count` existing vertices. Returns the new faces
/// and the edges (as undirected keys) whose midpoints were created, in
/// creation order.
pub fn subdivide_faces(vertex_count: usize, faces: &Vec<Vec<u32>>) -> (r: (Vec<Vec<u32>>, Vec<(u32, u32)>))
    requires
        forall|f: int| 0 <= f < faces.len() ==> #[trigger] faces@[f]@.len() == 3,
        vertex_count + 3 * faces.len() <= u32::MAX,
    ensures
        r.1@ == first_appearances(subdivision_edges(faces.deep_view())),
        r.1@.no_duplicates(),
        r.0.len() == 4 * faces.len(),
        forall|f: int|
            0 <= f < faces.len() ==> split_ok(r.1@, vertex_count as int, #[trigger] faces@[f]@, r.0@, f),
{
    let ghost all = faces.deep_view();
    let ghost es = subdivision_edges(all);
    let base = vertex_count;
    let mut cache: BTreeMap<(u32, u32), u32> = BTreeMap::new();
    let mut mids: Vec<(u32, u32)> = Vec::new();
    let mut out: Vec<Vec<u32>> = Vec::new();
    let mut f: usize = 0;
    while f < faces.len()
        invariant
            f <= faces.len(),
            all == faces.deep_view(),
            es == subdivision_edges(all),
            base == vertex_count,
            base + 3 * faces.len() <= u32::MAX,
            forall|g: int| 0 <= g < faces.len() ==> #[trigger] faces@[g]@.len() == 3,
            mids@ == first_appearances(es.take(3 * f)),
            mids@.no_duplicates(),
            mids@.len() <= 3 * f,
            forall|k: (u32, u32)| #[trigger] cache@.contains_key(k) <==> mids@.contains(k),
            forall|p: int| 0 <= p < mids@.len() ==> #[trigger] cache@[mids@[p]] == base + p,
            out.len() == 4 * f,
            forall|g: int| 0 <= g < f ==> split_ok(mids@, base as int, #[trigger] faces@[g]@, out@, g),
        decreases faces.len() - f,
    {
        let face = &faces[f];
        assert(face@ == all[f as int]);
        let v0 = face[0];
        let v1 = face[1];
        let v2 = face[2];
        proof {
            let c = 3 * f as int;
            assert(c / 3 == f && c % 3 == 0) by (nonlinear_arith)
                requires
                    c == 3 * f,
            ;
            assert((c + 1) / 3 == f && (c + 1) % 3 == 1) by (nonlinear_arith)
                requires
                    c == 3 * f,
            ;
            assert((c + 2) / 3 == f && (c + 2) % 3 == 2) by (nonlinear_arith)
                requires
                    c == 3 * f,
            ;
            assert(es[c] == edge_key(v0, v1));
            assert(es[c + 1] == edge_key(v1, v2));
            assert(es[c + 2] == edge_key(v2, v0));
        }
        let ghost mids0 = mids@;
        let ghost out0 = out@;
        let m01 = midpoint_slot(&mut cache, &mut mids, base, v0, v1, Ghost(es), Ghost(3 * f as int));
        let ghost mids1 = mids@;
        let m12 = midpoint_slot(&mut cache, &mut mids, base, v1, v2, Ghost(es), Ghost(3 * f + 1));
        let ghost mids2 = mids@;
        let m20 = midpoint_slot(&mut cache, &mut mids, base, v2, v0, Ghost(es), Ghost(3 * f + 2));
        assert(is_midpoint(mids@, base as int, edge_key(v0, v1), m01)) by {
            assert(mids@[m01 - base] == mids1[m01 - base]);
        }
        assert(is_midpoint(mids@, base as int, edge_key(v1, v2), m12)) by {
            assert(mids@[m12 - base] == mids2[m12 - base]);
        }
        out.push(vec![v0, m01, m20]);
        out.push(vec![v1, m12, m01]);
        out.push(vec![v2, m20, m12]);
        out.push(vec![m01, m12, m20]);
        assert forall|p: int| 0 <= p < mids0.len() implies mids@[p] == mids0[p] by {
            assert(mids1[p] == mids0[p]);
            assert(mids2[p] == mids1[p]);
        }
        assert forall|g: int| 0 <= g < f + 1 implies split_ok(
            mids@,
            base as int,
            #[trigger] faces@[g]@,
            out@,
            g,
        ) by {
            if g < f {
                lemma_split_ok_grow(mids0, mids@, base as int, faces@[g]@, out0, out@, g);
            } else {
                assert(out@[4 * g]@ == seq![v0, m01, m20]);
                assert(out@[4 * g + 1]@ == seq![v1, m12, m01]);
                assert(out@[4 * g + 2]@ == seq![v2, m20, m12]);
                assert(out@[4 * g + 3]@ == seq![m01, m12, m20]);
            }
        }
        f = f + 1;
    }
    assert(es.take(3 * faces.len() as int) == es);
    (out, mids)
}

} // verus!
