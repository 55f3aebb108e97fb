use vstd::prelude::*;
use crate::registry::{
    Member, Registry, ascending, has_id, role_of, targets_registered, target_role, lemma_role_of_at,
};
use crate::role::{Pool, Role, active_pool, active_pool_of};

verus! {

/// How a member's tokens take part in a tick's settlement.
#[derive(Copy, Clone, Debug, PartialEq, Eq, Structural)]
pub enum Support {
    /// No role, or a delegation whose target holds no active role: the member
    /// contributes no stake and its tokens do not change.
    Idle,
    /// A validator of the pool, staking its own tokens.
    Own(Pool),
    /// A delegator whose tokens count towards the member at position `target`,
    /// a validator of `pool`.
    Delegated { target: usize, pool: Pool },
}

/// `sup` is how member `i` of `s` takes part in settlement.
pub open spec fn is_support_of<A>(s: Seq<Member<A>>, i: int, sup: Support) -> bool {
    match s[i].role {
        None => sup == Support::Idle,
        Some(Role::BlockProducer) => sup == Support::Own(Pool::BlockProducer),
        Some(Role::ChunkOnlyProducer) => sup == Support::Own(Pool::ChunkOnlyProducer),
        Some(Role::Delegator(t)) => match active_pool(role_of(s, t)) {
            Some(p) => match sup {
                Support::Delegated { target, pool } => pool == p && target < s.len()
                    && s[target as int].id == t,
                _ => false,
            },
            None => sup == Support::Idle,
        },
    }
}

impl<A> Registry<A> {
    /// How each member takes part in this tick's settlement, in member order.
    /// Every delegation must point at a registered participant, as it does
    /// after each auction.
    pub fn supports(&self) -> (r: Vec<Support>)
        requires
            self.wf(),
            targets_registered(self@),
        ensures
            r@.len() == self@.len(),
            forall|i: int| 0 <= i < self@.len() ==> is_support_of(self@, i, #[trigger] r@[i]),
    {
        let mut r: Vec<Support> = Vec::new();
        let n = self.len();
        let mut i: usize = 0;
        while i < n
            invariant
                self.wf(),
                targets_registered(self@),
                n == self@.len(),
                i <= n,
                r@.len() == i,
                forall|j: int| 0 <= j < i ==> is_support_of(self@, j, #[trigger] r@[j]),
            decreases n - i,
        {
            let sup = match self.member(i).role {
                None => Support::Idle,
                Some(Role::BlockProducer) => Support::Own(Pool::BlockProducer),
                Some(Role::ChunkOnlyProducer) => Support::Own(Pool::ChunkOnlyProducer),
                Some(Role::Delegator(t)) => {
                    proof {
                        assert(has_id(self@, t));
                    }
                    let k = self.position(t);
                    proof {
                        lemma_role_of_at(self@, k as int);
                    }
                    match active_pool_of(self.member(k).role) {
                        Some(p) => Support::Delegated { target: k, pool: p },
                        None => Support::Idle,
                    }
                },
            };
            r.push(sup);
            i = i + 1;
        }
        r
    }
}

/// Delegation validity: a delegator whose target holds no active role (or is
/// not registered) takes no part in settlement; one whose target does counts
/// towards that target and its pool.
pub proof fn lemma_inert_delegation<A>(s: Seq<Member<A>>, i: int, sup: Support)
    requires
        ascending(s),
        0 <= i < s.len(),
        s[i].role matches Some(Role::Delegator(_)),
        is_support_of(s, i, sup),
    ensures
        active_pool(target_role(s, s[i])) is None <==> sup == Support::Idle,
        sup matches Support::Delegated { target, pool } ==> Some(pool) == active_pool(
            target_role(s, s[i]),
        ) && s[target as int].role == target_role(s, s[i]),
{
    if let Support::Delegated { target, pool } = sup {
        lemma_role_of_at(s, target as int);
    }
}

} // verus!
