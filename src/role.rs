use vstd::prelude::*;
use crate::id::{Id, lemma_id_view_injective};

verus! {

/// What a participant does during a tick.
#[derive(Copy, Clone, Debug, PartialEq, Eq, Structural)]
pub enum Role {
    /// Primary validator.
    BlockProducer,
    /// Secondary validator.
    ChunkOnlyProducer,
    /// Stakes through the participant with the given identifier.
    Delegator(Id),
}

/// One of the two active roles, which own a share of the reward pool and a
/// candidate pool in the role auction.
#[derive(Copy, Clone, Debug, PartialEq, Eq, Structural)]
pub enum Pool {
    BlockProducer,
    ChunkOnlyProducer,
}

/// The role held by the winners of a pool.
pub open spec fn pool_role(p: Pool) -> Role {
    match p {
        Pool::BlockProducer => Role::BlockProducer,
        Pool::ChunkOnlyProducer => Role::ChunkOnlyProducer,
    }
}

/// The pool that is not `p`.
pub open spec fn other_pool(p: Pool) -> Pool {
    match p {
        Pool::BlockProducer => Pool::ChunkOnlyProducer,
        Pool::ChunkOnlyProducer => Pool::BlockProducer,
    }
}

/// The pool of an active role; `None` for a delegator or for no role at all.
pub open spec fn active_pool(r: Option<Role>) -> Option<Pool> {
    match r {
        Some(Role::BlockProducer) => Some(Pool::BlockProducer),
        Some(Role::ChunkOnlyProducer) => Some(Pool::ChunkOnlyProducer),
        _ => None,
    }
}

impl Pool {
    /// The other pool.
    pub fn other(&self) -> (r: Pool)
        ensures
            r == other_pool(*self),
    {
        match self {
            Pool::BlockProducer => Pool::ChunkOnlyProducer,
            Pool::ChunkOnlyProducer => Pool::BlockProducer,
        }
    }
}

/// The pool of a role if it is active.
pub fn active_pool_of(r: Option<Role>) -> (p: Option<Pool>)
    ensures
        p == active_pool(r),
{
    match r {
        Some(Role::BlockProducer) => Some(Pool::BlockProducer),
        Some(Role::ChunkOnlyProducer) => Some(Pool::ChunkOnlyProducer),
        _ => None,
    }
}

/// Whether two optional roles are the same (for a delegator: the same
/// target).
pub fn same_role(a: Option<Role>, b: Option<Role>) -> (r: bool)
    ensures
        r == (a == b),
{
    match (a, b) {
        (None, None) => true,
        (Some(Role::BlockProducer), Some(Role::BlockProducer)) => true,
        (Some(Role::ChunkOnlyProducer), Some(Role::ChunkOnlyProducer)) => true,
        (Some(Role::Delegator(x)), Some(Role::Delegator(y))) => {
            proof {
                lemma_id_view_injective(x, y);
            }
            x.value() == y.value()
        },
        _ => false,
    }
}

} // verus!
