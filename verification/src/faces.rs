//! Faces of a convex polyhedron from its hull triangles: triangles joined
//! by links (shared edges between coplanar triangles) form groups, and the
//! outline of each group is one face.
use vstd::prelude::*;

use crate::mesh::{extract_face_boundary, spec_face_boundary};

verus! {

/// `a` and `b` are joined by a link, in either direction.
pub open spec fn linked(links: Seq<(usize, usize)>, a: int, b: int) -> bool {
    exists|e: int|
        0 <= e < links.len() && ((links[e].0 == a && links[e].1 == b) || (links[e].0 == b
            && links[e].1 == a))
}

/// `p` is a walk along links.
pub open spec fn is_walk(links: Seq<(usize, usize)>, p: Seq<int>) -> bool {
    p.len() >= 1 && forall|k: int| 0 <= k < p.len() - 1 ==> #[trigger] linked(links, p[k], p[k + 1])
}

/// `a` reaches `b` along links.
pub open spec fn connected(links: Seq<(usize, usize)>, a: int, b: int) -> bool {
    exists|p: Seq<int>| #[trigger] is_walk(links, p) && p[0] == a && p.last() == b
}

/// `m` is the smallest triangle that `i` reaches.
pub open spec fn is_component_min(links: Seq<(usize, usize)>, i: int, m: int) -> bool {
    connected(links, i, m) && forall|j: int| #[trigger] connected(links, i, j) ==> m <= j
}

/// The smallest triangle that `i` reaches.
pub open spec fn component_min(links: Seq<(usize, usize)>, i: int) -> int {
    choose|m: int| is_component_min(links, i, m)
}

/// Sum of a sequence.
pub open spec fn total(s: Seq<usize>) -> int
    decreases s.len(),
{
    if s.len() == 0 {
        0
    } else {
        total(s.drop_last()) + s.last()
    }
}

proof fn lemma_total_update(s: Seq<usize>, i: int, v: usize)
    requires
        0 <= i < s.len(),
    ensures
        total(s.update(i, v)) == total(s) - s[i] + v,
        total(s) >= 0,
    decreases s.len(),
{
    let t = s.update(i, v);
    if i == s.len() - 1 {
        assert(t.drop_last() == s.drop_last());
        lemma_total_nonneg(s.drop_last());
    } else {
        assert(t.drop_last() == s.drop_last().update(i, v));
        lemma_total_update(s.drop_last(), i, v);
    }
}

proof fn lemma_total_nonneg(s: Seq<usize>)
    ensures
        total(s) >= 0,
    decreases s.len(),
{
    if s.len() > 0 {
        lemma_total_nonneg(s.drop_last());
    }
}

proof fn lemma_walk_link(links: Seq<(usize, usize)>, p: Seq<int>, k: int)
    requires
        is_walk(links, p),
        0 <= k < p.len() - 1,
    ensures
        linked(links, p[k], p[k + 1]),
{
}

/// A link followed by a walk is a walk.
proof fn lemma_connected_step(links: Seq<(usize, usize)>, a: int, b: int, c: int)
    requires
        linked(links, a, b),
        connected(links, b, c),
    ensures
        connected(links, a, c),
{
    let p = choose|p: Seq<int>| #[trigger] is_walk(links, p) && p[0] == b && p.last() == c;
    let q = seq![a] + p;
    assert forall|k: int| 0 <= k < q.len() - 1 implies #[trigger] linked(links, q[k], q[k + 1]) by {
        if k == 0 {
            assert(q[0] == a && q[1] == b);
        } else {
            assert(q[k] == p[k - 1] && q[k + 1] == p[k]);
            lemma_walk_link(links, p, k - 1);
        }
    }
    assert(is_walk(links, q));
    assert(q.last() == c);
}

/// Every triangle reaches itself.
proof fn lemma_connected_self(links: Seq<(usize, usize)>, a: int)
    ensures
        connected(links, a, a),
{
    let p = seq![a];
    assert(is_walk(links, p));
}

/// Labels equal across every link are equal along every walk.
proof fn lemma_walk_keeps_label(links: Seq<(usize, usize)>, labels: Seq<usize>, p: Seq<int>)
    requires
        is_walk(links, p),
        0 <= p[0] < labels.len(),
        forall|e: int| 0 <= e < links.len() ==> #[trigger] links[e].0 < labels.len() && links[e].1 < labels.len(),
        forall|e: int| 0 <= e < links.len() ==> labels[#[trigger] links[e].0 as int] == labels[links[e].1 as int],
    ensures
        0 <= p.last() < labels.len(),
        labels[p.last()] == labels[p[0]],
    decreases p.len(),
{
    if p.len() > 1 {
        let q = p.drop_first();
        assert forall|k: int| 0 <= k < q.len() - 1 implies #[trigger] linked(links, q[k], q[k + 1]) by {
            lemma_walk_link(links, p, k + 1);
        }
        lemma_walk_link(links, p, 0);
        let e = choose|e: int|
            0 <= e < links.len() && ((links[e].0 == p[0] && links[e].1 == p[1]) || (links[e].0 == p[1]
                && links[e].1 == p[0]));
        assert(links[e].0 < labels.len());
        lemma_walk_keeps_label(links, labels, q);
        assert(q.last() == p.last());
    }
}

/// Label every triangle with the smallest triangle it reaches along links.
pub fn component_labels(n: usize, links: &Vec<(usize, usize)>) -> (labels: Vec<usize>)
    requires
        forall|e: int| 0 <= e < links.len() ==> #[trigger] links@[e].0 < n && links@[e].1 < n,
    ensures
        labels.len() == n,
        forall|i: int| 0 <= i < n ==> #[trigger] labels@[i] == component_min(links@, i),
{
    let mut labels: Vec<usize> = Vec::new();
    let mut i: usize = 0;
    while i < n
        invariant
            i <= n,
            labels.len() == i,
            forall|q: int| 0 <= q < i ==> #[trigger] labels@[q] == q,
        decreases n - i,
    {
        labels.push(i);
        i = i + 1;
    }
    proof {
        assert forall|q: int| 0 <= q < n implies connected(links@, q, #[trigger] labels@[q] as int) by {
            lemma_connected_self(links@, q);
        }
        lemma_total_nonneg(labels@);
    }
    loop
        invariant
            labels.len() == n,
            forall|e: int| 0 <= e < links.len() ==> #[trigger] links@[e].0 < n && links@[e].1 < n,
            forall|q: int| 0 <= q < n ==> #[trigger] labels@[q] <= q,
            forall|q: int| 0 <= q < n ==> connected(links@, q, #[trigger] labels@[q] as int),
            total(labels@) >= 0,
        decreases total(labels@),
    {
        let ghost start = total(labels@);
        let mut changed = false;
        let mut e: usize = 0;
        while e < links.len()
            invariant
                e <= links.len(),
                labels.len() == n,
                forall|f: int| 0 <= f < links.len() ==> #[trigger] links@[f].0 < n && links@[f].1 < n,
                forall|q: int| 0 <= q < n ==> #[trigger] labels@[q] <= q,
                forall|q: int| 0 <= q < n ==> connected(links@, q, #[trigger] labels@[q] as int),
                total(labels@) >= 0,
                changed ==> total(labels@) < start,
                !changed ==> total(labels@) == start,
                !changed ==> forall|f: int|
                    0 <= f < e ==> labels@[#[trigger] links@[f].0 as int] == labels@[links@[f].1 as int],
            decreases links.len() - e,
        {
            let (x, y) = links[e];
            let lx = labels[x];
            let ly = labels[y];
            if lx < ly {
                proof {
                    assert(linked(links@, y as int, x as int));
                    lemma_connected_step(links@, y as int, x as int, lx as int);
                    lemma_total_update(labels@, y as int, lx);
                }
                labels.set(y, lx);
                changed = true;
                proof {
                    lemma_total_nonneg(labels@);
                }
            } else if ly < lx {
                proof {
                    assert(linked(links@, x as int, y as int));
                    lemma_connected_step(links@, x as int, y as int, ly as int);
                    lemma_total_update(labels@, x as int, ly);
                }
                labels.set(x, ly);
                changed = true;
                proof {
                    lemma_total_nonneg(labels@);
                }
            }
            e = e + 1;
        }
        if !changed {
            proof {
                assert forall|i: int| 0 <= i < n implies #[trigger] labels@[i] == component_min(
                    links@,
                    i,
                ) by {
                    let m = labels@[i] as int;
                    assert forall|j: int| #[trigger] connected(links@, i, j) implies m <= j by {
                        let p = choose|p: Seq<int>| #[trigger] is_walk(links@, p) && p[0] == i && p.last() == j;
                        lemma_walk_keeps_label(links@, labels@, p);
                    }
                    assert(is_component_min(links@, i, m));
                    let c = component_min(links@, i);
                    assert(is_component_min(links@, i, c));
                    assert(c <= m && m <= c);
                }
            }
            return labels;
        }
    }
}


broadcast use vstd::seq_lib::group_to_multiset_ensures;

/// Members of the group whose smallest triangle is `root`, among the first
/// `k` triangles, in increasing order.
pub open spec fn members_below(links: Seq<(usize, usize)>, k: int, root: int) -> Seq<usize>
    decreases k,
{
    if k <= 0 {
        seq![]
    } else {
        let m = members_below(links, k - 1, root);
        if component_min(links, k - 1) == root {
            m.push((k - 1) as usize)
        } else {
            m
        }
    }
}

/// Outlines of the groups whose smallest triangle is below `k`, in order
/// of that triangle; the first failing outline's error if one fails.
pub open spec fn outlines_below(links: Seq<(usize, usize)>, tris: Seq<[u32; 3]>, k: int) -> Result<
    Seq<Seq<u32>>,
    Seq<char>,
>
    decreases k,
{
    if k <= 0 {
        Ok(seq![])
    } else {
        match outlines_below(links, tris, k - 1) {
            Err(m) => Err(m),
            Ok(fs) => if component_min(links, k - 1) == k - 1 {
                match spec_face_boundary(members_below(links, tris.len() as int, k - 1), tris) {
                    Ok(c) => Ok(fs.push(c)),
                    Err(m) => Err(m),
                }
            } else {
                Ok(fs)
            },
        }
    }
}

/// Lexicographic order on vertex lists (a prefix comes first).
pub open spec fn lex_le(a: Seq<u32>, b: Seq<u32>) -> bool
    decreases a.len(),
{
    if a.len() == 0 {
        true
    } else if b.len() == 0 {
        false
    } else if a[0] != b[0] {
        a[0] < b[0]
    } else {
        lex_le(a.drop_first(), b.drop_first())
    }
}

/// Sorted in lexicographic order.
pub open spec fn faces_sorted(fs: Seq<Seq<u32>>) -> bool {
    forall|a: int, b: int| 0 <= a < b < fs.len() ==> lex_le(fs[a], fs[b])
}

proof fn lemma_lex_total(a: Seq<u32>, b: Seq<u32>)
    ensures
        lex_le(a, b) || lex_le(b, a),
    decreases a.len(),
{
    if a.len() > 0 && b.len() > 0 && a[0] == b[0] {
        lemma_lex_total(a.drop_first(), b.drop_first());
    }
}

proof fn lemma_lex_trans(a: Seq<u32>, b: Seq<u32>, c: Seq<u32>)
    requires
        lex_le(a, b),
        lex_le(b, c),
    ensures
        lex_le(a, c),
    decreases a.len(),
{
    if a.len() > 0 && b.len() > 0 && c.len() > 0 && a[0] == b[0] && b[0] == c[0] {
        lemma_lex_trans(a.drop_first(), b.drop_first(), c.drop_first());
    }
}

fn vec_le(a: &Vec<u32>, b: &Vec<u32>) -> (r: bool)
    ensures
        r == lex_le(a@, b@),
{
    let mut k: usize = 0;
    assert(a@.skip(0) == a@ && b@.skip(0) == b@);
    while k < a.len() && k < b.len() && a[k] == b[k]
        invariant
            k <= a@.len(),
            k <= b@.len(),
            lex_le(a@, b@) == lex_le(a@.skip(k as int), b@.skip(k as int)),
        decreases a.len() - k,
    {
        assert(a@.skip(k as int).drop_first() == a@.skip(k + 1));
        assert(b@.skip(k as int).drop_first() == b@.skip(k + 1));
        k = k + 1;
    }
    if k == a.len() {
        true
    } else if k == b.len() {
        false
    } else {
        assert(a@.skip(k as int)[0] == a@[k as int]);
        assert(b@.skip(k as int)[0] == b@[k as int]);
        a[k] < b[k]
    }
}

/// Insert `face` into a lexicographically sorted list, keeping it sorted.
fn insert_face(out: &mut Vec<Vec<u32>>, face: Vec<u32>)
    requires
        faces_sorted(old(out).deep_view()),
    ensures
        faces_sorted(final(out).deep_view()),
        final(out).deep_view().to_multiset() == old(out).deep_view().to_multiset().insert(face@),
{
    let ghost before = out.deep_view();
    let mut p: usize = 0;
    let mut stop = false;
    while !stop && p < out.len()
        invariant
            p <= out.len(),
            out.deep_view() == before,
            forall|q: int| 0 <= q < p ==> lex_le(#[trigger] before[q], face@),
            stop ==> p < out.len() && !lex_le(before[p as int], face@),
        decreases out.len() - p + (if stop { 0int } else { 1int }),
    {
        assert(before[p as int] == out@[p as int]@);
        if vec_le(&out[p], &face) {
            p = p + 1;
        } else {
            stop = true;
        }
    }
    let ghost f = face@;
    out.insert(p, face);
    let ghost after = out.deep_view();
    assert(after =~= before.insert(p as int, f)) by {
        assert forall|q: int| 0 <= q < after.len() implies after[q] == before.insert(p as int, f)[q] by {
            if q < p {
                assert(after[q] == out@[q]@);
            } else if q > p {
                assert(after[q] == out@[q]@);
            }
        }
    }
    proof {
        if p < before.len() {
            assert(!lex_le(before[p as int], f));
            lemma_lex_total(before[p as int], f);
        }
        assert forall|a: int, b: int| 0 <= a < b < after.len() implies lex_le(after[a], after[b]) by {
            if b < p {
                assert(lex_le(before[a], before[b]));
            } else if b == p {
                assert(lex_le(before[a], f));
            } else if a < p {
                assert(lex_le(before[a], f));
                if b - 1 > p {
                    assert(lex_le(before[p as int], before[b - 1]));
                    lemma_lex_trans(f, before[p as int], before[b - 1]);
                }
                lemma_lex_trans(before[a], f, before[b - 1]);
            } else if a == p {
                if b - 1 > p {
                    assert(lex_le(before[p as int], before[b - 1]));
                    lemma_lex_trans(f, before[p as int], before[b - 1]);
                }
            } else {
                assert(lex_le(before[a - 1], before[b - 1]));
            }
        }
        assert(after.remove(p as int) =~= before);
        let m1 = after.to_multiset();
        assert(before.to_multiset() =~= m1.remove(f));
        assert(m1.count(f) > 0);
        assert(m1 =~= before.to_multiset().insert(f));
    }
}

proof fn lemma_outlines_err_stays(links: Seq<(usize, usize)>, tris: Seq<[u32; 3]>, k: int, k2: int)
    requires
        0 <= k <= k2,
        outlines_below(links, tris, k) is Err,
    ensures
        outlines_below(links, tris, k2) == outlines_below(links, tris, k),
    decreases k2 - k,
{
    if k2 > k {
        lemma_outlines_err_stays(links, tris, k, k2 - 1);
    }
}

/// The faces of a polyhedron from its (outward oriented) hull triangles
/// and the links joining coplanar triangles: triangles that reach each
/// other along links form a group, each group (in order of its smallest
/// triangle, members in increasing order) gives its outline by
/// [`extract_face_boundary`], and the outlines are returned sorted. The
/// first group whose outline fails gives the error.
pub fn coplanar_faces(tris: &Vec<[u32; 3]>, links: &Vec<(usize, usize)>) -> (r: Result<
    Vec<Vec<u32>>,
    String,
>)
    requires
        forall|e: int| 0 <= e < links.len() ==> #[trigger] links@[e].0 < tris.len() && links@[e].1 < tris.len(),
    ensures
        match outlines_below(links@, tris@, tris.len() as int) {
            Err(m) => r is Err && r->Err_0@ == m,
            Ok(fs) => r is Ok && faces_sorted(r->Ok_0.deep_view()) && r->Ok_0.deep_view().to_multiset()
                == fs.to_multiset(),
        },
{
    let n = tris.len();
    let labels = component_labels(n, links);
    let mut out: Vec<Vec<u32>> = Vec::new();
    let ghost mut found: Seq<Seq<u32>> = seq![];
    let mut r: usize = 0;
    while r < n
        invariant
            r <= n,
            n == tris.len(),
            labels.len() == n,
            forall|i: int| 0 <= i < n ==> #[trigger] labels@[i] == component_min(links@, i),
            outlines_below(links@, tris@, r as int) == Ok::<Seq<Seq<u32>>, Seq<char>>(found),
            faces_sorted(out.deep_view()),
            out.deep_view().to_multiset() == found.to_multiset(),
        decreases n - r,
    {
        if labels[r] == r {
            let mut members: Vec<usize> = Vec::new();
            let mut i: usize = 0;
            while i < n
                invariant
                    i <= n,
                    r < n,
                    labels.len() == n,
                    forall|q: int| 0 <= q < n ==> #[trigger] labels@[q] == component_min(links@, q),
                    members@ == members_below(links@, i as int, r as int),
                    forall|q: int| 0 <= q < members@.len() ==> #[trigger] members@[q] < i,
                decreases n - i,
            {
                if labels[i] == r {
                    members.push(i);
                }
                i = i + 1;
            }
            match extract_face_boundary(members.as_slice(), tris.as_slice()) {
                Err(e) => {
                    proof {
                        lemma_outlines_err_stays(links@, tris@, r + 1, n as int);
                    }
                    return Err(e);
                },
                Ok(c) => {
                    proof {
                        found = found.push(c@);
                    }
                    insert_face(&mut out, c);
                },
            }
        }
        r = r + 1;
    }
    Ok(out)
}

} // verus!
