//! The reveal pulses on screen, by id: ids are handed out in turn
//! (wrapping around), and a pulse stays listed until it is removed.
use vstd::prelude::*;

verus! {

/// Ids of the pulses on screen, oldest first, and the next id to hand out.
pub struct PulseIds {
    pub active: Vec<u32>,
    pub next_id: u32,
}

/// `id + 1`, wrapping to 0 after `u32::MAX`.
pub open spec fn next_after(id: u32) -> u32 {
    if id == u32::MAX { 0 } else { (id + 1) as u32 }
}

impl PulseIds {
    /// No pulse; the first id is 0.
    pub fn new() -> (p: Self)
        ensures
            p.active@ == Seq::<u32>::empty(),
            p.next_id == 0,
    {
        PulseIds { active: Vec::new(), next_id: 0 }
    }

    /// Add a pulse: it gets the next id, which is returned.
    pub fn add(&mut self) -> (id: u32)
        ensures
            id == old(self).next_id,
            final(self).next_id == next_after(old(self).next_id),
            final(self).active@ == old(self).active@.push(id),
    {
        let id = self.next_id;
        self.next_id = self.next_id.wrapping_add(1);
        self.active.push(id);
        id
    }

    /// Remove every pulse with id `id`; the others keep their order.
    pub fn remove(&mut self, id: u32)
        ensures
            final(self).next_id == old(self).next_id,
            final(self).active@ == old(self).active@.filter(|x: u32| x != id),
    {
        let ghost keep = |x: u32| x != id;
        let mut kept: Vec<u32> = Vec::new();
        let mut i: usize = 0;
        while i < self.active.len()
            invariant
                i <= self.active@.len(),
                keep == (|x: u32| x != id),
                kept@ == self.active@.take(i as int).filter(keep),
            decreases self.active.len() - i,
        {
            let ghost pre = self.active@.take(i as int);
            assert(self.active@.take(i + 1) == pre.push(self.active@[i as int]));
            proof {
                pre.lemma_filter_push(self.active@[i as int], keep);
            }
            if self.active[i] != id {
                kept.push(self.active[i]);
            }
            i = i + 1;
        }
        assert(self.active@.take(self.active@.len() as int) == self.active@);
        self.active = kept;
    }
}

} // verus!
