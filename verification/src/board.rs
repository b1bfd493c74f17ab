//! Logical board: per-cell metadata and the flood reveal.
use vstd::prelude::*;

use crate::score::ScoreState;

verus! {

/// Logical metadata of one cell.
#[derive(Clone, Copy, Debug, PartialEq, Eq, Structural)]
pub struct CellMetadataEntry {
    /// The cell has been explored.
    pub is_explored: bool,
    /// The cell is a void (a hazard).
    pub is_void: bool,
    /// Number of void neighbors (0 for void cells), capped at 255.
    pub void_neighbor_count: u8,
    /// A reveal animation is running over the cell (display only).
    pub is_revealing: bool,
}

impl CellMetadataEntry {
    /// A cell that no reveal animation is running over.
    pub fn new(is_explored: bool, is_void: bool, void_neighbor_count: u8) -> (e: Self)
        ensures
            e == (CellMetadataEntry { is_explored, is_void, void_neighbor_count, is_revealing: false }),
    {
        CellMetadataEntry { is_explored, is_void, void_neighbor_count, is_revealing: false }
    }

    /// Mark the cell explored.
    pub fn mark_explored(&mut self)
        ensures
            *final(self) == (CellMetadataEntry { is_explored: true, ..*old(self) }),
    {
        self.is_explored = true;
    }

    /// Set the display-only reveal flag.
    pub fn set_revealing(&mut self, revealing: bool)
        ensures
            *final(self) == (CellMetadataEntry { is_revealing: revealing, ..*old(self) }),
    {
        self.is_revealing = revealing;
    }
}

/// A cell that a reveal may still uncover: neither explored nor being revealed.
pub open spec fn revealable(e: CellMetadataEntry) -> bool {
    !e.is_explored && !e.is_revealing
}

/// A revealed cell from which the flood continues: safe and with no void neighbor.
pub open spec fn expands(e: CellMetadataEntry) -> bool {
    revealable(e) && !e.is_void && e.void_neighbor_count == 0
}

/// `queue` after appending, in list order, every neighbor below `len`
/// that is not queued yet.
pub open spec fn enqueue_all(queue: Seq<usize>, nbrs: Seq<u32>, len: usize) -> Seq<usize>
    decreases nbrs.len(),
{
    if nbrs.len() == 0 {
        queue
    } else {
        let q = enqueue_all(queue, nbrs.drop_last(), len);
        let n = nbrs.last() as usize;
        if (nbrs.last() as int) < len && !q.contains(n) {
            q.push(n)
        } else {
            q
        }
    }
}

/// The cells revealed by a breadth-first flood, in reveal order, once the
/// queue has been processed up to (excluding) position `head`. Every cell
/// ever queued stays in `queue`, so `queue` is also the visited set.
pub open spec fn bfs_order(
    meta: Seq<CellMetadataEntry>,
    nbrs: Seq<Seq<u32>>,
    len: usize,
    queue: Seq<usize>,
    head: nat,
) -> Seq<usize>
    decreases len - head,
{
    if head >= queue.len() || head >= len {
        seq![]
    } else {
        let i = queue[head as int];
        let e = meta[i as int];
        let next_queue = if expands(e) {
            enqueue_all(queue, nbrs[i as int], len)
        } else {
            queue
        };
        let rest = bfs_order(meta, nbrs, len, next_queue, head + 1);
        if revealable(e) {
            seq![i].add(rest)
        } else {
            rest
        }
    }
}

/// The cells that exploring `seed` reveals, in reveal order: nothing for an
/// out-of-range seed, otherwise the breadth-first flood from `seed`.
pub open spec fn spec_reveal_set(
    meta: Seq<CellMetadataEntry>,
    nbrs: Seq<Seq<u32>>,
    len: usize,
    seed: usize,
) -> Seq<usize> {
    if seed >= len {
        seq![]
    } else {
        bfs_order(meta, nbrs, len, seq![seed], 0)
    }
}

proof fn lemma_distinct_below(s: Seq<usize>, n: nat)
    requires
        s.no_duplicates(),
        forall|i: int| 0 <= i < s.len() ==> s[i] < n,
    ensures
        s.len() <= n,
    decreases n,
{
    if n == 0 {
        if s.len() > 0 {
            assert(s[0] < 0);
        }
    } else {
        let top = (n - 1) as usize;
        if exists|k: int| 0 <= k < s.len() && s[k] == top {
            let k = choose|k: int| 0 <= k < s.len() && s[k] == top;
            let t = s.remove(k);
            assert forall|i: int, j: int| 0 <= i < t.len() && 0 <= j < t.len() && i != j implies t[i]
                != t[j] by {
                let si = if i < k { i } else { i + 1 };
                let sj = if j < k { j } else { j + 1 };
                assert(t[i] == s[si]);
                assert(t[j] == s[sj]);
            }
            assert forall|i: int| 0 <= i < t.len() implies t[i] < n - 1 by {
                let si = if i < k { i } else { i + 1 };
                assert(t[i] == s[si]);
                assert(si != k);
            }
            lemma_distinct_below(t, (n - 1) as nat);
        } else {
            assert forall|i: int| 0 <= i < s.len() implies s[i] < n - 1 by {
                assert(s[i] != top);
            }
            lemma_distinct_below(s, (n - 1) as nat);
        }
    }
}

proof fn lemma_enqueue_all(queue: Seq<usize>, nbrs: Seq<u32>, len: usize)
    requires
        queue.no_duplicates(),
        forall|i: int| 0 <= i < queue.len() ==> queue[i] < len,
    ensures
        ({
            let r = enqueue_all(queue, nbrs, len);
            &&& r.len() >= queue.len()
            &&& r.subrange(0, queue.len() as int) == queue
            &&& r.no_duplicates()
            &&& forall|i: int| 0 <= i < r.len() ==> r[i] < len
        }),
    decreases nbrs.len(),
{
    if nbrs.len() > 0 {
        lemma_enqueue_all(queue, nbrs.drop_last(), len);
        let q = enqueue_all(queue, nbrs.drop_last(), len);
        let n = nbrs.last() as usize;
        if (nbrs.last() as int) < len && !q.contains(n) {
            let r = q.push(n);
            assert(r.subrange(0, queue.len() as int) == q.subrange(0, queue.len() as int));
            assert forall|i: int, j: int| 0 <= i < r.len() && 0 <= j < r.len() && i != j implies r[i]
                != r[j] by {
                if i == q.len() {
                    assert(q[j] != n);
                } else if j == q.len() {
                    assert(q[i] != n);
                }
            }
        }
    }
}

/// Every cell of a flood is revealable, below `len`, revealed once, and not
/// among the queue positions already processed.
proof fn lemma_bfs_order(
    meta: Seq<CellMetadataEntry>,
    nbrs: Seq<Seq<u32>>,
    len: usize,
    queue: Seq<usize>,
    head: nat,
)
    requires
        queue.no_duplicates(),
        forall|i: int| 0 <= i < queue.len() ==> queue[i] < len,
        head <= queue.len(),
        meta.len() >= len,
        nbrs.len() >= len,
    ensures
        ({
            let r = bfs_order(meta, nbrs, len, queue, head);
            &&& r.no_duplicates()
            &&& forall|k: int|
                0 <= k < r.len() ==> r[k] < len && revealable(meta[r[k] as int]) && !queue.take(
                    head as int,
                ).contains(#[trigger] r[k])
        }),
    decreases len - head,
{
    if head < queue.len() && head < len {
        let i = queue[head as int];
        let e = meta[i as int];
        let q2 = if expands(e) {
            enqueue_all(queue, nbrs[i as int], len)
        } else {
            queue
        };
        if expands(e) {
            lemma_enqueue_all(queue, nbrs[i as int], len);
        }
        assert(q2.subrange(0, queue.len() as int) == queue);
        lemma_bfs_order(meta, nbrs, len, q2, head + 1);
        let rest = bfs_order(meta, nbrs, len, q2, head + 1);
        assert(q2.take(head + 1int) == queue.take(head as int).push(i)) by {
            assert(q2.take(head + 1int) =~= queue.take(head as int).push(i));
        }
        assert forall|k: int| 0 <= k < rest.len() implies !queue.take(head as int).contains(
            #[trigger] rest[k],
        ) && rest[k] != i by {
            if queue.take(head as int).contains(rest[k]) {
                let w = choose|w: int| 0 <= w < head && queue.take(head as int)[w] == rest[k];
                assert(q2.take(head + 1int)[w] == rest[k]);
            }
            assert(q2.take(head + 1int)[head as int] == i);
        }
        assert forall|k: int| 0 <= k < queue.take(head as int).len() implies queue.take(
            head as int,
        )[k] != i by {
            assert(queue[k] != queue[head as int]);
        }
        if revealable(e) {
            let r = seq![i].add(rest);
            assert forall|a: int, b: int| 0 <= a < r.len() && 0 <= b < r.len() && a != b implies r[a]
                != r[b] by {
                if a == 0 {
                    assert(r[b] == rest[b - 1]);
                } else if b == 0 {
                    assert(r[a] == rest[a - 1]);
                } else {
                    assert(r[a] == rest[a - 1] && r[b] == rest[b - 1]);
                }
            }
            assert forall|k: int| 0 <= k < r.len() implies r[k] < len && revealable(
                meta[r[k] as int],
            ) && !queue.take(head as int).contains(#[trigger] r[k]) by {
                if k > 0 {
                    assert(r[k] == rest[k - 1]);
                }
            }
        }
    }
}

/// Every revealed cell is below `len`, revealable and revealed once.
pub proof fn lemma_reveal_set(
    meta: Seq<CellMetadataEntry>,
    nbrs: Seq<Seq<u32>>,
    len: usize,
    seed: usize,
)
    requires
        meta.len() >= len,
        nbrs.len() >= len,
    ensures
        ({
            let r = spec_reveal_set(meta, nbrs, len, seed);
            &&& r.no_duplicates()
            &&& forall|k: int| 0 <= k < r.len() ==> r[k] < len && revealable(meta[#[trigger] r[k] as int])
        }),
{
    if seed < len {
        lemma_bfs_order(meta, nbrs, len, seq![seed], 0);
    }
}

/// The neighbor list `list` names cell `c`.
pub open spec fn lists_cell(list: Seq<u32>, c: usize) -> bool {
    exists|t: int| 0 <= t < list.len() && list[t] as int == c as int
}

proof fn lemma_enqueued_are_listed(queue: Seq<usize>, nbrs: Seq<u32>, len: usize)
    ensures
        forall|m: int|
            queue.len() <= m < enqueue_all(queue, nbrs, len).len() ==> lists_cell(
                nbrs,
                #[trigger] enqueue_all(queue, nbrs, len)[m],
            ),
        enqueue_all(queue, nbrs, len).len() >= queue.len(),
        enqueue_all(queue, nbrs, len).subrange(0, queue.len() as int) == queue,
    decreases nbrs.len(),
{
    if nbrs.len() > 0 {
        let rest = nbrs.drop_last();
        lemma_enqueued_are_listed(queue, rest, len);
        let q = enqueue_all(queue, rest, len);
        let r = enqueue_all(queue, nbrs, len);
        assert(r.subrange(0, queue.len() as int) == q.subrange(0, queue.len() as int));
        assert forall|m: int| queue.len() <= m < r.len() implies lists_cell(nbrs, #[trigger] r[m]) by {
            if m < q.len() {
                assert(r[m] == q[m]);
                let t = choose|t: int| 0 <= t < rest.len() && rest[t] as int == q[m] as int;
                assert(nbrs[t] == rest[t]);
            } else {
                assert(r[m] == nbrs.last() as usize);
                assert(nbrs[nbrs.len() - 1] as int == r[m] as int);
            }
        }
    }
}

/// Some cell of `before` is a blank (expanding) cell whose neighbor list
/// names `c`.
spec fn has_blank_parent(
    meta: Seq<CellMetadataEntry>,
    nbrs: Seq<Seq<u32>>,
    before: Seq<usize>,
    c: usize,
) -> bool {
    exists|w: int|
        0 <= w < before.len() && expands(meta[before[w] as int]) && lists_cell(
            nbrs[before[w] as int],
            c,
        )
}

/// Within a flood, every revealed cell but the first queued one was queued
/// by a blank cell processed before `head` or revealed before it.
proof fn lemma_flood_parents(
    meta: Seq<CellMetadataEntry>,
    nbrs: Seq<Seq<u32>>,
    len: usize,
    queue: Seq<usize>,
    head: nat,
)
    requires
        queue.no_duplicates(),
        forall|i: int| 0 <= i < queue.len() ==> queue[i] < len,
        head <= queue.len(),
        meta.len() >= len,
        nbrs.len() >= len,
        forall|m: int|
            1 <= m < queue.len() ==> has_blank_parent(
                meta,
                nbrs,
                queue.take(head as int),
                #[trigger] queue[m],
            ),
    ensures
        forall|k: int|
            0 <= k < bfs_order(meta, nbrs, len, queue, head).len() && bfs_order(
                meta,
                nbrs,
                len,
                queue,
                head,
            )[k] != queue[0] ==> has_blank_parent(
                meta,
                nbrs,
                queue.take(head as int) + bfs_order(meta, nbrs, len, queue, head).take(k),
                #[trigger] bfs_order(meta, nbrs, len, queue, head)[k],
            ),
    decreases len - head,
{
    if head < queue.len() && head < len {
        let i = queue[head as int];
        let e = meta[i as int];
        let h1 = (head + 1) as nat;
        let q2 = if expands(e) {
            enqueue_all(queue, nbrs[i as int], len)
        } else {
            queue
        };
        if expands(e) {
            lemma_enqueue_all(queue, nbrs[i as int], len);
            lemma_enqueued_are_listed(queue, nbrs[i as int], len);
        }
        assert(q2.subrange(0, queue.len() as int) == queue);
        let done = queue.take(head as int);
        let done2 = q2.take(h1 as int);
        assert(done2 =~= done.push(i));
        assert forall|m: int| 1 <= m < q2.len() implies has_blank_parent(
            meta,
            nbrs,
            done2,
            #[trigger] q2[m],
        ) by {
            if m < queue.len() {
                assert(q2[m] == queue[m]);
                assert(has_blank_parent(meta, nbrs, done, queue[m]));
                let w = choose|w: int|
                    0 <= w < done.len() && expands(meta[done[w] as int]) && lists_cell(
                        nbrs[done[w] as int],
                        queue[m],
                    );
                assert(done2[w] == done[w]);
            } else {
                assert(done2[head as int] == i);
                assert(lists_cell(nbrs[i as int], q2[m]));
            }
        }
        lemma_flood_parents(meta, nbrs, len, q2, h1);
        let rest = bfs_order(meta, nbrs, len, q2, h1);
        assert(q2[0] == queue[0]);
        let r = bfs_order(meta, nbrs, len, queue, head);
        assert forall|k: int| 0 <= k < r.len() && r[k] != queue[0] implies has_blank_parent(
            meta,
            nbrs,
            done + r.take(k),
            #[trigger] r[k],
        ) by {
            if revealable(e) && k == 0 {
                assert(r[0] == i);
                assert(head != 0);
                assert(has_blank_parent(meta, nbrs, done, queue[head as int]));
                let w = choose|w: int|
                    0 <= w < done.len() && expands(meta[done[w] as int]) && lists_cell(
                        nbrs[done[w] as int],
                        queue[head as int],
                    );
                assert((done + r.take(k))[w] == done[w]);
            } else {
                let kr = if revealable(e) { k - 1 } else { k };
                assert(r[k] == rest[kr]);
                assert(has_blank_parent(meta, nbrs, done2 + rest.take(kr), rest[kr]));
                let both = done2 + rest.take(kr);
                let w = choose|w: int|
                    0 <= w < both.len() && expands(meta[both[w] as int]) && lists_cell(
                        nbrs[both[w] as int],
                        rest[kr],
                    );
                let target = done + r.take(k);
                if w < head {
                    assert(both[w] == done[w]);
                    assert(target[w] == done[w]);
                } else if w == head {
                    assert(both[w] == i);
                    assert(expands(e));
                    assert(r[0] == i);
                    assert(target[head as int] == r[0]);
                } else {
                    let v = w - h1;
                    assert(both[w] == rest[v]);
                    let vr = if revealable(e) { v + 1 } else { v };
                    assert(r[vr] == rest[v]);
                    assert(target[head + vr] == r[vr]);
                }
            }
        }
    }
}

/// The flood spreads only through blank cells: the first revealed cell is
/// the explored one, and every later revealed cell is listed as a neighbor
/// by a safe cell with no void neighbor that was revealed before it.
pub proof fn flood_spreads_from_blank_cells(
    meta: Seq<CellMetadataEntry>,
    nbrs: Seq<Seq<u32>>,
    len: usize,
    seed: usize,
)
    requires
        meta.len() >= len,
        nbrs.len() >= len,
    ensures
        ({
            let r = spec_reveal_set(meta, nbrs, len, seed);
            &&& r.len() > 0 ==> r[0] == seed
            &&& forall|k: int|
                0 < k < r.len() ==> exists|j: int|
                    0 <= j < k && !meta[r[j] as int].is_void && meta[r[j] as int].void_neighbor_count
                        == 0 && lists_cell(nbrs[r[j] as int], #[trigger] r[k])
        }),
{
    if seed < len {
        let q = seq![seed];
        lemma_reveal_set(meta, nbrs, len, seed);
        lemma_flood_parents(meta, nbrs, len, q, 0);
        let r = bfs_order(meta, nbrs, len, q, 0);
        reveal_with_fuel(bfs_order, 2);
        if r.len() > 0 {
            assert(r[0] == seed);
        }
        assert(q.take(0) =~= Seq::<usize>::empty());
        assert forall|k: int| 0 < k < r.len() implies exists|j: int|
            0 <= j < k && !meta[r[j] as int].is_void && meta[r[j] as int].void_neighbor_count == 0
                && lists_cell(nbrs[r[j] as int], #[trigger] r[k]) by {
            assert(r[k] != r[0]);
            assert(q.take(0) + r.take(k) =~= r.take(k));
            assert(has_blank_parent(meta, nbrs, r.take(k), r[k]));
            let w = choose|w: int|
                0 <= w < r.take(k).len() && expands(meta[r.take(k)[w] as int]) && lists_cell(
                    nbrs[r.take(k)[w] as int],
                    r[k],
                );
            assert(r[w] == r.take(k)[w]);
        }
    }
}

/// Breadth-first flood reveal from `seed` over the first `len` cells.
///
/// Cells already explored or being revealed are skipped; the flood continues
/// only through safe cells with no void neighbor; neighbor indices at or
/// above `len` are ignored. Returns the revealed cells in reveal order.
pub fn reveal_set(
    len: usize,
    seed: usize,
    metadata: &Vec<CellMetadataEntry>,
    neighbors: &Vec<Vec<u32>>,
) -> (order: Vec<usize>)
    requires
        metadata.len() >= len,
        neighbors.len() >= len,
    ensures
        order@ == spec_reveal_set(metadata@, neighbors.deep_view(), len, seed),
{
    let ghost meta = metadata@;
    let ghost nbrs = neighbors.deep_view();
    if seed >= len {
        return Vec::new();
    }
    let seed_entry = metadata[seed];
    if seed_entry.is_explored || seed_entry.is_revealing {
        proof {
            reveal_with_fuel(bfs_order, 2);
        }
        return Vec::new();
    }
    let mut visited: Vec<bool> = Vec::new();
    let mut k: usize = 0;
    while k < len
        invariant
            k <= len,
            visited.len() == k,
            forall|j: int| 0 <= j < k ==> !visited[j],
        decreases len - k,
    {
        visited.push(false);
        k = k + 1;
    }
    let mut order: Vec<usize> = Vec::new();
    let mut queue: Vec<usize> = Vec::new();
    let mut head: usize = 0;
    queue.push(seed);
    visited.set(seed, true);
    assert(order@ + bfs_order(meta, nbrs, len, queue@, 0) == bfs_order(meta, nbrs, len, seq![seed], 0));
    while head < queue.len()
        invariant
            meta == metadata@,
            nbrs == neighbors.deep_view(),
            metadata.len() >= len,
            neighbors.len() >= len,
            visited.len() == len,
            head <= queue.len(),
            queue@.no_duplicates(),
            forall|i: int| 0 <= i < queue.len() ==> queue[i] < len,
            forall|j: int| 0 <= j < len ==> (visited[j] <==> queue@.contains(j as usize)),
            order@ + bfs_order(meta, nbrs, len, queue@, head as nat) == bfs_order(
                meta,
                nbrs,
                len,
                seq![seed],
                0,
            ),
        decreases len - head,
    {
        proof {
            lemma_distinct_below(queue@, len as nat);
        }
        let ghost old_queue = queue@;
        let ghost old_order = order@;
        let i = queue[head];
        let entry = metadata[i];
        head = head + 1;
        if entry.is_explored || entry.is_revealing {
            continue;
        }
        order.push(i);
        if entry.is_void || entry.void_neighbor_count != 0 {
            assert(old_order + bfs_order(meta, nbrs, len, old_queue, (head - 1) as nat) == order@
                + bfs_order(meta, nbrs, len, queue@, head as nat));
            continue;
        }
        let list = &neighbors[i];
        assert(list@ == nbrs[i as int]);
        let mut m: usize = 0;
        while m < list.len()
            invariant
                meta == metadata@,
                nbrs == neighbors.deep_view(),
                0 <= i < len,
                list@ == nbrs[i as int],
                visited.len() == len,
                m <= list.len(),
                head <= queue.len(),
                queue@ == enqueue_all(old_queue, list@.take(m as int), len),
                queue@.no_duplicates(),
                forall|q: int| 0 <= q < queue.len() ==> queue[q] < len,
                forall|j: int| 0 <= j < len ==> (visited[j] <==> queue@.contains(j as usize)),
            decreases list.len() - m,
        {
            let n = list[m] as usize;
            assert(list@.take(m as int + 1).drop_last() == list@.take(m as int));
            if n < len && !visited[n] {
                let ghost before = queue@;
                queue.push(n);
                visited.set(n, true);
                proof {
                    assert forall|j: int| 0 <= j < len implies (visited[j] <==> queue@.contains(
                        j as usize,
                    )) by {
                        if j != n {
                            assert(queue@ == before.push(n));
                            if before.contains(j as usize) {
                                let w = choose|w: int| 0 <= w < before.len() && before[w] == j as usize;
                                assert(queue@[w] == j as usize);
                            }
                            if queue@.contains(j as usize) {
                                let w = choose|w: int| 0 <= w < queue.len() && queue[w] == j as usize;
                                assert(w < before.len());
                                assert(before[w] == j as usize);
                            }
                        } else {
                            assert(queue[queue.len() - 1] == n);
                        }
                    }
                }
            }
            m = m + 1;
        }
        assert(list@.take(list.len() as int) == list@);
    }
    assert(bfs_order(meta, nbrs, len, queue@, head as nat) == Seq::<usize>::empty());
    assert(order@ + Seq::<usize>::empty() == order@);
    order
}

/// Number of explored cells whose void flag is `void`.
pub open spec fn explored_count(meta: Seq<CellMetadataEntry>, void: bool) -> nat
    decreases meta.len(),
{
    if meta.len() == 0 {
        0
    } else {
        explored_count(meta.drop_last(), void) + if meta.last().is_explored && meta.last().is_void
            == void {
            1nat
        } else {
            0nat
        }
    }
}

/// The score counters agree with the board: one safe (void) explore per
/// explored safe (void) cell.
pub open spec fn counters_match(meta: Seq<CellMetadataEntry>, score: ScoreState) -> bool {
    &&& score.safe_explored == explored_count(meta, false)
    &&& score.void_explored == explored_count(meta, true)
}

/// Board and score after exploring the cells of `revealed` in order: each is
/// marked explored and scored by its void status.
pub open spec fn apply_reveals(
    meta: Seq<CellMetadataEntry>,
    score: ScoreState,
    revealed: Seq<usize>,
) -> (Seq<CellMetadataEntry>, ScoreState)
    decreases revealed.len(),
{
    if revealed.len() == 0 {
        (meta, score)
    } else {
        let (m, s) = apply_reveals(meta, score, revealed.drop_last());
        let j = revealed.last() as int;
        (m.update(j, CellMetadataEntry { is_explored: true, ..m[j] }), s.explored(m[j].is_void))
    }
}

proof fn lemma_count_bound(meta: Seq<CellMetadataEntry>, void: bool)
    ensures
        explored_count(meta, void) <= meta.len(),
    decreases meta.len(),
{
    if meta.len() > 0 {
        lemma_count_bound(meta.drop_last(), void);
    }
}

proof fn lemma_count_update(meta: Seq<CellMetadataEntry>, j: int, e: CellMetadataEntry, void: bool)
    requires
        0 <= j < meta.len(),
    ensures
        explored_count(meta.update(j, e), void) + (if meta[j].is_explored && meta[j].is_void == void {
            1int
        } else {
            0int
        }) == explored_count(meta, void) + (if e.is_explored && e.is_void == void {
            1int
        } else {
            0int
        }),
    decreases meta.len(),
{
    let u = meta.update(j, e);
    if j == meta.len() - 1 {
        assert(u.drop_last() == meta.drop_last());
    } else {
        assert(u.drop_last() == meta.drop_last().update(j, e));
        lemma_count_update(meta.drop_last(), j, e, void);
    }
}

/// Exploring distinct unexplored cells keeps the score counters equal to
/// the counts of explored cells, and marks exactly those cells explored.
pub proof fn lemma_reveals_scored_once(
    meta: Seq<CellMetadataEntry>,
    score: ScoreState,
    revealed: Seq<usize>,
)
    requires
        revealed.no_duplicates(),
        forall|k: int|
            0 <= k < revealed.len() ==> revealed[k] < meta.len() && !meta[#[trigger] revealed[k] as int].is_explored,
        meta.len() <= u32::MAX,
        counters_match(meta, score),
    ensures
        ({
            let (m, s) = apply_reveals(meta, score, revealed);
            &&& counters_match(m, s)
            &&& m.len() == meta.len()
            &&& forall|j: int|
                0 <= j < meta.len() ==> #[trigger] m[j] == (CellMetadataEntry {
                    is_explored: meta[j].is_explored || revealed.contains(j as usize),
                    ..meta[j]
                })
        }),
    decreases revealed.len(),
{
    if revealed.len() > 0 {
        let prefix = revealed.drop_last();
        assert forall|k: int| 0 <= k < prefix.len() implies prefix[k] < meta.len()
            && !meta[#[trigger] prefix[k] as int].is_explored by {
            assert(prefix[k] == revealed[k]);
        }
        lemma_reveals_scored_once(meta, score, prefix);
        let (m1, s1) = apply_reveals(meta, score, prefix);
        let j = revealed.last() as int;
        assert(revealed[revealed.len() - 1] == revealed.last());
        assert(!prefix.contains(j as usize)) by {
            if prefix.contains(j as usize) {
                let w = choose|w: int| 0 <= w < prefix.len() && prefix[w] == j as usize;
                assert(revealed[w] == revealed[revealed.len() - 1]);
            }
        }
        assert(m1[j] == (CellMetadataEntry { is_explored: meta[j].is_explored, ..meta[j] }));
        let e = CellMetadataEntry { is_explored: true, ..m1[j] };
        let m2 = m1.update(j, e);
        lemma_count_update(m1, j, e, false);
        lemma_count_update(m1, j, e, true);
        lemma_count_bound(m2, false);
        lemma_count_bound(m2, true);
        assert forall|i: int| 0 <= i < meta.len() implies #[trigger] m2[i] == (CellMetadataEntry {
            is_explored: meta[i].is_explored || revealed.contains(i as usize),
            ..meta[i]
        }) by {
            if i != j {
                assert(revealed.contains(i as usize) <==> prefix.contains(i as usize)) by {
                    if revealed.contains(i as usize) {
                        let w = choose|w: int| 0 <= w < revealed.len() && revealed[w] == i as usize;
                        assert(w != revealed.len() - 1);
                        assert(prefix[w] == i as usize);
                    }
                    if prefix.contains(i as usize) {
                        let w = choose|w: int| 0 <= w < prefix.len() && prefix[w] == i as usize;
                        assert(revealed[w] == i as usize);
                    }
                }
            } else {
                assert(revealed[revealed.len() - 1] == j as usize);
            }
        }
    }
}

} // verus!
