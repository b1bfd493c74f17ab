//! Placement of void cells and the logical board derived from it.
use rand::seq::SliceRandom;
use rand::SeedableRng;
use rand_xoshiro::Xoshiro256PlusPlus;
use vstd::prelude::*;

use crate::board::CellMetadataEntry;

verus! {

/// Mixed into the game seed for void placement.
pub const VOID_SEED_SALT: u64 = 0xA110_CA7E_BEEF_5EED;

/// Order that `SliceRandom::shuffle`, driven by a `Xoshiro256PlusPlus`
/// seeded by `seed_from_u64(seed)`, gives to `items`.
pub uninterp spec fn xoshiro_shuffle(items: Seq<usize>, seed: u64) -> Seq<usize>;

/// Shuffles `items` in place with `rand`'s `SliceRandom::shuffle`, using a
/// `rand_xoshiro::Xoshiro256PlusPlus` generator seeded with
/// `SeedableRng::seed_from_u64(seed)`. Claimed: the order is
/// [`xoshiro_shuffle`] of the input and seed (the generator is seeded by
/// its argument alone), and the result is a permutation of the input (the
/// shuffle only swaps elements). Which permutation it is, is not stated.
#[verifier::external_body]
fn shuffle_seeded(items: &mut Vec<usize>, seed: u64)
    ensures
        final(items)@ == xoshiro_shuffle(old(items)@, seed),
        final(items)@.to_multiset() == old(items)@.to_multiset(),
{
    let mut rng = Xoshiro256PlusPlus::seed_from_u64(seed);
    items.shuffle(&mut rng);
}

/// Cell indices `0..cell_count` except `safe`, in increasing order.
pub open spec fn void_candidates(cell_count: usize, safe: usize) -> Seq<usize> {
    let n = if safe < cell_count { cell_count - 1 } else { cell_count as int };
    Seq::new(n as nat, |k: int| if safe < cell_count && k >= safe { (k + 1) as usize } else { k as usize })
}

/// The cells chosen as voids: the first `void_count` candidates in shuffled order.
pub open spec fn chosen_voids(cell_count: usize, rng_seed: u64, void_count: usize, safe: usize) -> Seq<
    usize,
> {
    let shuffled = xoshiro_shuffle(void_candidates(cell_count, safe), rng_seed ^ VOID_SEED_SALT);
    shuffled.take(if void_count < shuffled.len() { void_count as int } else { shuffled.len() as int })
}

/// Void flag of every cell.
pub open spec fn spec_void_mask(cell_count: usize, rng_seed: u64, void_count: usize, safe: usize) -> Seq<
    bool,
> {
    if cell_count == 0 || void_count == 0 {
        Seq::new(cell_count as nat, |i: int| false)
    } else {
        Seq::new(
            cell_count as nat,
            |i: int| chosen_voids(cell_count, rng_seed, void_count, safe).contains(i as usize),
        )
    }
}

/// Flags of `cell_count` cells where the first `count` entries of `order`
/// (all of them if there are fewer) are set.
pub open spec fn first_marked(cell_count: nat, order: Seq<usize>, count: usize) -> Seq<bool> {
    let m = if count < order.len() { count as int } else { order.len() as int };
    Seq::new(cell_count, |j: int| order.take(m).contains(j as usize))
}

/// Mark the first `count` cells of `order` (the shuffled candidates) as
/// voids among `cell_count` cells.
pub fn mask_from_order(cell_count: usize, order: &Vec<usize>, count: usize) -> (mask: Vec<bool>)
    requires
        forall|q: int| 0 <= q < order.len() ==> #[trigger] order@[q] < cell_count,
    ensures
        mask@ == first_marked(cell_count as nat, order@, count),
{
    let mut mask: Vec<bool> = Vec::new();
    let mut i: usize = 0;
    while i < cell_count
        invariant
            i <= cell_count,
            mask@ == Seq::new(i as nat, |j: int| false),
        decreases cell_count - i,
    {
        mask.push(false);
        i = i + 1;
    }
    let take = if count < order.len() { count } else { order.len() };
    let mut t: usize = 0;
    while t < take
        invariant
            t <= take <= order.len(),
            mask.len() == cell_count,
            forall|q: int| 0 <= q < order.len() ==> #[trigger] order@[q] < cell_count,
            forall|j: int| 0 <= j < cell_count ==> mask@[j] == order@.take(t as int).contains(j as usize),
        decreases take - t,
    {
        let index = order[t];
        mask.set(index, true);
        proof {
            assert forall|j: int| 0 <= j < cell_count implies mask@[j] == order@.take(t + 1).contains(
                j as usize,
            ) by {
                let prefix = order@.take(t as int);
                let longer = order@.take(t + 1);
                assert(longer == prefix.push(index));
                if j != index {
                    if longer.contains(j as usize) {
                        let w = choose|w: int| 0 <= w < longer.len() && longer[w] == j as usize;
                        assert(prefix[w] == j as usize);
                    }
                    if prefix.contains(j as usize) {
                        let w = choose|w: int| 0 <= w < prefix.len() && prefix[w] == j as usize;
                        assert(longer[w] == j as usize);
                    }
                } else {
                    assert(longer[t as int] == index);
                }
            }
        }
        t = t + 1;
    }
    assert(mask@ =~= first_marked(cell_count as nat, order@, count));
    mask
}

/// Deterministically choose which of `cell_count` cells are void: a
/// seeded shuffle of every cell but `safe`, of which the first `void_count`
/// become void.
pub fn compute_void_mask(cell_count: usize, rng_seed: u64, void_count: usize, safe: usize) -> (mask: Vec<
    bool,
>)
    ensures
        mask@ == spec_void_mask(cell_count, rng_seed, void_count, safe),
        safe < cell_count ==> {
            &&& !mask@[safe as int]
            &&& void_cells(mask@).finite()
            &&& void_cells(mask@).len() == if void_count < cell_count - 1 {
                void_count as int
            } else {
                cell_count - 1
            }
        },
{
    if cell_count == 0 || void_count == 0 {
        let none: Vec<usize> = Vec::new();
        let mask = mask_from_order(cell_count, &none, 0);
        assert(mask@ =~= spec_void_mask(cell_count, rng_seed, void_count, safe));
        assert(void_cells(mask@) =~= Set::<usize>::empty());
        return mask;
    }
    let mut indices: Vec<usize> = Vec::new();
    let mut k: usize = 0;
    while k < cell_count
        invariant
            k <= cell_count,
            indices@ == void_candidates(cell_count, safe).take(
                if safe < k { k - 1 } else { k as int },
            ),
        decreases cell_count - k,
    {
        if k != safe {
            indices.push(k);
        }
        k = k + 1;
    }
    assert(indices@ == void_candidates(cell_count, safe));
    let ghost cands = indices@;
    shuffle_seeded(&mut indices, rng_seed ^ VOID_SEED_SALT);
    let take = if void_count < indices.len() { void_count } else { indices.len() };
    let ghost chosen = chosen_voids(cell_count, rng_seed, void_count, safe);
    assert(chosen == indices@.take(take as int));
    proof {
        assert forall|q: int| 0 <= q < indices.len() implies indices@[q] < cell_count by {
            let x = indices@[q];
            indices@.to_multiset_ensures();
            cands.to_multiset_ensures();
            assert(indices@.contains(x));
            assert(indices@.to_multiset().count(x) > 0);
            assert(cands.contains(x));
        }
    }
    let mask = mask_from_order(cell_count, &indices, void_count);
    assert(mask@ =~= spec_void_mask(cell_count, rng_seed, void_count, safe));
    proof {
        lemma_candidates(cell_count, safe);
        lemma_shuffled_choice(cands, indices@, take as int, cell_count, safe);
        if safe < cell_count {
            assert(!chosen.contains(safe));
            assert(void_cells(mask@) =~= chosen.to_set());
            chosen.unique_seq_to_set();
        }
    }
    mask
}

/// The void cells of a mask.
pub open spec fn void_cells(mask: Seq<bool>) -> Set<usize> {
    Set::new(|i: usize| (i as int) < mask.len() && mask[i as int])
}

proof fn lemma_candidates(cell_count: usize, safe: usize)
    ensures
        void_candidates(cell_count, safe).no_duplicates(),
        forall|k: int|
            0 <= k < void_candidates(cell_count, safe).len() ==> #[trigger] void_candidates(
                cell_count,
                safe,
            )[k] < cell_count && void_candidates(cell_count, safe)[k] != safe,
{
}

proof fn lemma_shuffled_choice(
    cands: Seq<usize>,
    shuffled: Seq<usize>,
    m: int,
    cell_count: usize,
    safe: usize,
)
    requires
        shuffled.to_multiset() == cands.to_multiset(),
        cands.no_duplicates(),
        forall|k: int| 0 <= k < cands.len() ==> #[trigger] cands[k] < cell_count && cands[k] != safe,
        0 <= m <= shuffled.len(),
    ensures
        shuffled.len() == cands.len(),
        shuffled.take(m).no_duplicates(),
        forall|k: int|
            0 <= k < m ==> #[trigger] shuffled.take(m)[k] < cell_count && shuffled.take(m)[k] != safe,
{
    shuffled.to_multiset_ensures();
    cands.to_multiset_ensures();
    cands.lemma_multiset_has_no_duplicates();
    shuffled.lemma_multiset_has_no_duplicates_conv();
    assert forall|k: int| 0 <= k < m implies #[trigger] shuffled.take(m)[k] < cell_count
        && shuffled.take(m)[k] != safe by {
        let x = shuffled[k];
        assert(shuffled.take(m)[k] == x);
        assert(shuffled.contains(x));
        assert(shuffled.to_multiset().count(x) > 0);
        assert(cands.to_multiset().count(x) > 0);
        assert(cands.contains(x));
        let w = choose|w: int| 0 <= w < cands.len() && cands[w] == x;
        assert(cands[w] < cell_count && cands[w] != safe);
    }
}

/// Number of flags of `nbrs` that name a void cell of `mask`.
pub open spec fn void_neighbor_total(nbrs: Seq<u32>, mask: Seq<bool>) -> nat
    decreases nbrs.len(),
{
    if nbrs.len() == 0 {
        0
    } else {
        void_neighbor_total(nbrs.drop_last(), mask) + if (nbrs.last() as int) < mask.len()
            && mask[nbrs.last() as int] {
            1nat
        } else {
            0nat
        }
    }
}

/// Initial metadata of cell `i` with neighbor list `nbrs`: unexplored, void
/// as the mask says, and for a safe cell the number of void neighbors
/// capped at 255 (0 for a void cell).
pub open spec fn spec_cell_entry(nbrs: Seq<u32>, mask: Seq<bool>, i: int) -> CellMetadataEntry {
    CellMetadataEntry {
        is_explored: false,
        is_void: mask[i],
        void_neighbor_count: if mask[i] {
            0
        } else if void_neighbor_total(nbrs, mask) < 255 {
            void_neighbor_total(nbrs, mask) as u8
        } else {
            255
        },
        is_revealing: false,
    }
}

/// Number of set flags.
pub open spec fn true_count(mask: Seq<bool>) -> nat
    decreases mask.len(),
{
    if mask.len() == 0 {
        0
    } else {
        true_count(mask.drop_last()) + if mask.last() {
            1nat
        } else {
            0nat
        }
    }
}

/// Initial logical metadata of every cell, given its neighbor lists and
/// the void mask.
pub fn board_metadata(neighbors: &Vec<Vec<u32>>, mask: &Vec<bool>) -> (meta: Vec<CellMetadataEntry>)
    requires
        mask.len() >= neighbors.len(),
    ensures
        meta@ == Seq::new(
            neighbors.len() as nat,
            |i: int| spec_cell_entry(neighbors.deep_view()[i], mask@, i),
        ),
{
    let mut meta: Vec<CellMetadataEntry> = Vec::new();
    let mut i: usize = 0;
    while i < neighbors.len()
        invariant
            i <= neighbors.len(),
            mask.len() >= neighbors.len(),
            meta@ == Seq::new(i as nat, |q: int| spec_cell_entry(neighbors.deep_view()[q], mask@, q)),
        decreases neighbors.len() - i,
    {
        let list = &neighbors[i];
        assert(list@ == neighbors.deep_view()[i as int]);
        let mut count: usize = 0;
        let mut k: usize = 0;
        while k < list.len()
            invariant
                k <= list.len(),
                count == void_neighbor_total(list@.take(k as int), mask@),
                count <= k,
            decreases list.len() - k,
        {
            let n = list[k] as usize;
            assert(list@.take(k + 1).drop_last() == list@.take(k as int));
            if n < mask.len() && mask[n] {
                count = count + 1;
            }
            k = k + 1;
        }
        assert(list@.take(list.len() as int) == list@);
        let is_void = mask[i];
        let capped: u8 = if is_void {
            0
        } else if count < 255 {
            count as u8
        } else {
            255
        };
        meta.push(CellMetadataEntry::new(false, is_void, capped));
        assert(meta@ =~= Seq::new(
            (i + 1) as nat,
            |q: int| spec_cell_entry(neighbors.deep_view()[q], mask@, q),
        ));
        i = i + 1;
    }
    meta
}

proof fn lemma_true_count(mask: Seq<bool>)
    requires
        mask.len() <= usize::MAX,
    ensures
        void_cells(mask).finite(),
        true_count(mask) == void_cells(mask).len(),
    decreases mask.len(),
{
    if mask.len() == 0 {
        assert(void_cells(mask) =~= Set::<usize>::empty());
    } else {
        let rest = mask.drop_last();
        lemma_true_count(rest);
        let last = (mask.len() - 1) as usize;
        assert(!void_cells(rest).contains(last));
        if mask.last() {
            assert(void_cells(mask) =~= void_cells(rest).insert(last));
        } else {
            assert(void_cells(mask) =~= void_cells(rest));
        }
    }
}

/// Number of void cells of a mask.
pub fn count_voids(mask: &Vec<bool>) -> (n: usize)
    ensures
        n == true_count(mask@),
        n == void_cells(mask@).len(),
{
    let mut n: usize = 0;
    let mut i: usize = 0;
    while i < mask.len()
        invariant
            i <= mask.len(),
            n == true_count(mask@.take(i as int)),
            n <= i,
        decreases mask.len() - i,
    {
        assert(mask@.take(i + 1).drop_last() == mask@.take(i as int));
        if mask[i] {
            n = n + 1;
        }
        i = i + 1;
    }
    assert(mask@.take(mask.len() as int) == mask@);
    proof {
        lemma_true_count(mask@);
    }
    n
}

} // verus!
