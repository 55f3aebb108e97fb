use vstd::prelude::*;
use std::collections::HashMap;
use crate::id::Id;
use crate::role::{Pool, Role, active_pool, active_pool_of, same_role};

verus! {

broadcast use vstd::std_specs::hash::group_hash_axioms;

/// What an event says happened to whom, without the token amounts.
#[derive(Copy, Clone, Debug)]
pub enum Change {
    Created { id: Id },
    StakeChanged { id: Id },
    RoleChanged { id: Id, new_role: Option<Role> },
    Merged { ids: (Id, Id), new_id: Id },
    Split { id: Id, new_ids: (Id, Id) },
    Bankrupt { id: Id },
}

/// The roles map after one change: a role change sets or clears the entry; a
/// merge drops both entries and gives the successor their role when both had
/// the same one, and none otherwise; a split hands the role, if any, to both successors; a
/// bankruptcy clears the entry.
pub open spec fn apply_change(m: Map<usize, Role>, c: Change) -> Map<usize, Role> {
    match c {
        Change::Created { .. } => m,
        Change::StakeChanged { .. } => m,
        Change::RoleChanged { id, new_role } => match new_role {
            Some(r) => m.insert(id@, r),
            None => m.remove(id@),
        },
        Change::Merged { ids, new_id } => {
            let rest = m.remove(ids.0@).remove(ids.1@);
            if m.contains_key(ids.0@) && recorded(m, ids.0@) == recorded(m, ids.1@) {
                rest.insert(new_id@, m[ids.0@])
            } else {
                rest
            }
        },
        Change::Split { id, new_ids } => if m.contains_key(id@) {
            m.remove(id@).insert(new_ids.0@, m[id@]).insert(new_ids.1@, m[id@])
        } else {
            m
        },
        Change::Bankrupt { id } => m.remove(id@),
    }
}

/// Whether a change is consistent with the map it applies to: merged
/// participants always share their role.
pub open spec fn change_consistent(m: Map<usize, Role>, c: Change) -> bool {
    match c {
        Change::Merged { ids, .. } => recorded(m, ids.0@) == recorded(m, ids.1@),
        _ => true,
    }
}

/// The role recorded for an identifier.
pub open spec fn recorded(m: Map<usize, Role>, k: usize) -> Option<Role> {
    if m.contains_key(k) {
        Some(m[k])
    } else {
        None
    }
}

/// Where the stake of identifier `k` counts in the per-tick totals: the pool
/// it supports and whether it is delegated there. A delegator counts only
/// when its target's recorded role is active.
pub open spec fn stake_class(m: Map<usize, Role>, k: usize) -> Option<(Pool, bool)> {
    match recorded(m, k) {
        Some(Role::Delegator(t)) => match active_pool(recorded(m, t@)) {
            Some(p) => Some((p, true)),
            None => None,
        },
        r => match active_pool(r) {
            Some(p) => Some((p, false)),
            None => None,
        },
    }
}

/// The roles of participants as an event stream tells them, rebuilt one event
/// at a time. It needs no other source.
pub struct RoleLedger {
    roles: HashMap<usize, Role>,
}

impl View for RoleLedger {
    type V = Map<usize, Role>;

    closed spec fn view(&self) -> Map<usize, Role> {
        self.roles@
    }
}

impl RoleLedger {
    /// A ledger that has seen no event.
    pub fn new() -> (r: Self)
        ensures
            r@ == Map::<usize, Role>::empty(),
    {
        RoleLedger { roles: HashMap::new() }
    }

    /// The recorded role of a participant.
    pub fn role(&self, id: Id) -> (r: Option<Role>)
        ensures
            r == recorded(self@, id@),
    {
        match self.roles.get(&id.value()) {
            Some(r) => Some(*r),
            None => None,
        }
    }

    /// Where a participant's stake counts in the totals (see `stake_class`).
    pub fn stake_class(&self, id: Id) -> (r: Option<(Pool, bool)>)
        ensures
            r == stake_class(self@, id@),
    {
        match self.role(id) {
            Some(Role::Delegator(t)) => match active_pool_of(self.role(t)) {
                Some(p) => Some((p, true)),
                None => None,
            },
            r => match active_pool_of(r) {
                Some(p) => Some((p, false)),
                None => None,
            },
        }
    }

    /// Records one change. Returns whether it was consistent with what was
    /// recorded: merged participants must share their role.
    pub fn apply(&mut self, c: Change) -> (ok: bool)
        ensures
            final(self)@ == apply_change(old(self)@, c),
            ok == change_consistent(old(self)@, c),
    {
        match c {
            Change::Created { .. } => true,
            Change::StakeChanged { .. } => true,
            Change::RoleChanged { id, new_role } => {
                match new_role {
                    Some(r) => {
                        self.roles.insert(id.value(), r);
                    },
                    None => {
                        self.roles.remove(&id.value());
                    },
                }
                true
            },
            Change::Merged { ids, new_id } => {
                let ok = same_role(self.role(ids.0), self.role(ids.1));
                let r0 = self.roles.remove(&ids.0.value());
                self.roles.remove(&ids.1.value());
                if ok {
                    if let Some(r) = r0 {
                        self.roles.insert(new_id.value(), r);
                    }
                }
                proof {
                    assert(self.roles@ =~= apply_change(old(self)@, c));
                }
                ok
            },
            Change::Split { id, new_ids } => {
                if let Some(r) = self.roles.remove(&id.value()) {
                    self.roles.insert(new_ids.0.value(), r);
                    self.roles.insert(new_ids.1.value(), r);
                }
                true
            },
            Change::Bankrupt { id } => {
                self.roles.remove(&id.value());
                true
            },
        }
    }
}

impl Default for RoleLedger {
    fn default() -> (r: Self)
        ensures
            r@ == Map::<usize, Role>::empty(),
    {
        RoleLedger::new()
    }
}

} // verus!
