use vstd::prelude::*;
use rand::rngs::StdRng;
use crate::draw::index_below;
use crate::id::Id;
use crate::registry::{Member, Registry};
use crate::role::same_role;

verus! {

/// What the population does between settlement and the auction of a tick.
#[derive(Copy, Clone, Debug, PartialEq, Eq, Structural)]
pub enum Dynamics {
    /// A newcomer enters; its tokens are scaled from those of the member at
    /// `base`, or from a fixed amount when the registry is empty.
    Enter { base: Option<usize> },
    /// The member at `index` splits in two.
    Split { index: usize },
    /// The member at `index` merges with `partner`, the first other member
    /// holding the very same role; with no such member nothing happens.
    Merge { index: usize, partner: Option<usize> },
}

/// The position of the first member other than `i` whose role is identical
/// to that of member `i`, if any.
pub open spec fn first_partner<A>(s: Seq<Member<A>>, i: int) -> Option<usize> {
    if exists|j: int| 0 <= j < s.len() && j != i && s[j].role == s[i].role {
        Some(
            (choose|j: int|
                0 <= j < s.len() && j != i && s[j].role == s[i].role && forall|k: int|
                    0 <= k < j && k != i ==> s[k].role != s[i].role) as usize,
        )
    } else {
        None
    }
}

/// The step for draw `choice` (0 entry, 1 split, 2 merge) on the member at
/// position `index`.
pub open spec fn dynamics_outcome<A>(s: Seq<Member<A>>, choice: int, index: usize) -> Dynamics {
    if choice == 0 {
        Dynamics::Enter { base: Some(index) }
    } else if choice == 1 {
        Dynamics::Split { index }
    } else {
        Dynamics::Merge { index, partner: first_partner(s, index as int) }
    }
}

/// `s` without the members at two distinct positions.
pub open spec fn without_pair<A>(s: Seq<Member<A>>, i: int, j: int) -> Seq<Member<A>> {
    if i < j {
        s.remove(j).remove(i)
    } else {
        s.remove(i).remove(j)
    }
}

impl<A> Registry<A> {
    /// The first member other than the one at `index` whose role is
    /// identical (same variant, same target for a delegator).
    pub fn merge_partner(&self, index: usize) -> (r: Option<usize>)
        requires
            index < self@.len(),
        ensures
            r == first_partner(self@, index as int),
            match r {
                Some(j) => j < self@.len() && j != index && self@[j as int].role
                    == self@[index as int].role,
                None => forall|j: int|
                    0 <= j < self@.len() && j != index ==> self@[j].role
                        != self@[index as int].role,
            },
    {
        let n = self.len();
        let role = self.member(index).role;
        let mut j: usize = 0;
        while j < n
            invariant
                n == self@.len(),
                index < n,
                role == self@[index as int].role,
                j <= n,
                forall|k: int| 0 <= k < j && k != index ==> self@[k].role != role,
            decreases n - j,
        {
            if j != index && same_role(self.member(j).role, role) {
                proof {
                    let w = choose|w: int|
                        0 <= w < self@.len() && w != index && self@[w].role == role
                            && forall|k: int|
                            0 <= k < w && k != index ==> self@[k].role != role;
                    if w < j {
                    } else if w > j {
                        assert(self@[j as int].role == role);
                    }
                }
                return Some(j);
            }
            j = j + 1;
        }
        None
    }

    /// The step that a draw gives: `choice` 0 is an entry based on the member
    /// at `index`, 1 a split of it, 2 a merge of it with its first partner.
    pub fn dynamics_for(&self, choice: usize, index: usize) -> (r: Dynamics)
        requires
            choice < 3,
            index < self@.len(),
        ensures
            r == dynamics_outcome(self@, choice as int, index),
    {
        if choice == 0 {
            Dynamics::Enter { base: Some(index) }
        } else if choice == 1 {
            Dynamics::Split { index }
        } else {
            Dynamics::Merge { index, partner: self.merge_partner(index) }
        }
    }

    /// Draws what the population does this tick: an empty registry always
    /// takes an entry; otherwise it draws one of the three steps, equally
    /// likely, and a member uniformly, and `dynamics_for` gives the step.
    pub fn plan_dynamics(&self, rng: &mut StdRng) -> (r: Dynamics)
        ensures
            self@.len() == 0 ==> r == (Dynamics::Enter { base: None }),
            self@.len() > 0 ==> exists|choice: int, index: usize|
                0 <= choice < 3 && index < self@.len() && r == dynamics_outcome(
                    self@,
                    choice,
                    index,
                ),
    {
        let n = self.len();
        if n == 0 {
            return Dynamics::Enter { base: None };
        }
        let choice = index_below(rng, 3);
        let index = index_below(rng, n);
        self.dynamics_for(choice, index)
    }

    /// Replaces the member at `index` by two successors with fresh
    /// identifiers and the same role, carrying `first` and `second`.
    pub fn split(&mut self, index: usize, first: A, second: A) -> (r: (Id, Id))
        requires
            old(self).wf(),
            index < old(self)@.len(),
            old(self).next_id() + 2 <= usize::MAX,
        ensures
            final(self).wf(),
            r.0@ == old(self).next_id(),
            r.1@ == old(self).next_id() + 1,
            final(self).next_id() == old(self).next_id() + 2,
            final(self)@ == old(self)@.remove(index as int).push(
                (Member { id: r.0, role: old(self)@[index as int].role, data: first }),
            ).push((Member { id: r.1, role: old(self)@[index as int].role, data: second })),
    {
        let m = self.remove_at(index);
        let a = self.push_fresh(m.role, first);
        let b = self.push_fresh(m.role, second);
        (a, b)
    }

    /// Replaces the members at `index` and `partner`, which hold the same
    /// role, by one successor with a fresh identifier and that role, carrying
    /// `data`.
    pub fn merge(&mut self, index: usize, partner: usize, data: A) -> (r: Id)
        requires
            old(self).wf(),
            index < old(self)@.len(),
            partner < old(self)@.len(),
            index != partner,
            old(self)@[index as int].role == old(self)@[partner as int].role,
            old(self).next_id() < usize::MAX,
        ensures
            final(self).wf(),
            r@ == old(self).next_id(),
            final(self).next_id() == old(self).next_id() + 1,
            final(self)@ == without_pair(old(self)@, index as int, partner as int).push(
                (Member { id: r, role: old(self)@[index as int].role, data }),
            ),
    {
        let role = self.member(index).role;
        if index < partner {
            self.remove_at(partner);
            self.remove_at(index);
        } else {
            self.remove_at(index);
            self.remove_at(partner);
        }
        self.push_fresh(role, data)
    }
}

} // verus!
