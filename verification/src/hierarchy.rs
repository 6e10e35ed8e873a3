//! Parent / child relationship components.

use vstd::prelude::*;

use crate::entity::Entity;

verus! {

/// A component pointing at an entity's parent.
#[derive(Clone, Copy, PartialEq, Eq, Structural, Debug)]
pub struct Parent(pub Entity);

/// A component listing an entity's children.
#[derive(Clone, PartialEq, Eq, Debug)]
pub struct Children(pub Vec<Entity>);

impl Children {
    pub fn new() -> (r: Self)
        ensures
            r.0@ == Seq::<Entity>::empty(),
    {
        Self(Vec::new())
    }

    /// Appends one child.
    pub fn add(&mut self, entity: Entity)
        ensures
            final(self).0@ == old(self).0@.push(entity),
    {
        self.0.push(entity);
    }

    /// Removes every occurrence of `entity`, keeping the others in order.
    pub fn remove(&mut self, entity: Entity)
        ensures
            final(self).0@ == old(self).0@.filter(|e: Entity| e != entity),
    {
        let ghost s0 = self.0@;
        let mut kept: Vec<Entity> = Vec::new();
        let mut i: usize = 0;
        while i < self.0.len()
            invariant
                self.0@ == s0,
                i <= s0.len(),
                kept@ == s0.subrange(0, i as int).filter(|e: Entity| e != entity),
            decreases s0.len() - i,
        {
            proof {
                reveal_with_fuel(Seq::filter, 2);
                assert(s0.subrange(0, i + 1).drop_last() =~= s0.subrange(0, i as int));
                assert(s0.subrange(0, i + 1).last() == s0[i as int]);
            }
            if self.0[i] != entity {
                kept.push(self.0[i]);
            }
            i = i + 1;
        }
        proof {
            assert(s0.subrange(0, s0.len() as int) =~= s0);
        }
        self.0 = kept;
    }
}

} // verus!
