use vstd::prelude::*;
use crate::id::{Id, IdGenerator};
use crate::role::Role;

verus! {

/// A participant as the registry sees it: its identity, its role for the
/// current tick, and the caller's data for it (token amounts and the like),
/// which the registry only carries.
pub struct Member<A> {
    pub id: Id,
    pub role: Option<Role>,
    pub data: A,
}

/// Identifiers strictly increase along the sequence (so none repeats).
pub open spec fn ascending<A>(s: Seq<Member<A>>) -> bool {
    forall|i: int, j: int| 0 <= i < j < s.len() ==> s[i].id@ < s[j].id@
}

/// Whether some member carries the identifier.
pub open spec fn has_id<A>(s: Seq<Member<A>>, id: Id) -> bool {
    exists|i: int| 0 <= i < s.len() && s[i].id == id
}

/// The role of the member with the identifier; `None` when it has no role or
/// when no member carries the identifier.
pub open spec fn role_of<A>(s: Seq<Member<A>>, id: Id) -> Option<Role> {
    if has_id(s, id) {
        s[choose|i: int| 0 <= i < s.len() && s[i].id == id].role
    } else {
        None
    }
}

/// The role of the participant that a member delegates to, if it delegates.
pub open spec fn target_role<A>(s: Seq<Member<A>>, m: Member<A>) -> Option<Role> {
    match m.role {
        Some(Role::Delegator(t)) => role_of(s, t),
        _ => None,
    }
}

/// Every delegator's target is registered.
pub open spec fn targets_registered<A>(s: Seq<Member<A>>) -> bool {
    forall|i: int|
        0 <= i < s.len() ==> match #[trigger] s[i].role {
            Some(Role::Delegator(t)) => has_id(s, t),
            _ => true,
        }
}

/// The two sequences hold the same participants with the same data, in the
/// same order; only roles may differ.
pub open spec fn same_members<A>(a: Seq<Member<A>>, b: Seq<Member<A>>) -> bool {
    &&& a.len() == b.len()
    &&& forall|i: int| 0 <= i < a.len() ==> #[trigger] a[i].id == b[i].id && a[i].data == b[i].data
}

/// In a sequence of ascending identifiers, `role_of` finds each member's role.
pub proof fn lemma_role_of_at<A>(s: Seq<Member<A>>, i: int)
    requires
        ascending(s),
        0 <= i < s.len(),
    ensures
        has_id(s, s[i].id),
        role_of(s, s[i].id) == s[i].role,
{
    let j = choose|j: int| 0 <= j < s.len() && s[j].id == s[i].id;
    if j != i {
        if j < i {
            assert(s[j].id@ < s[i].id@);
        } else {
            assert(s[i].id@ < s[j].id@);
        }
    }
}

/// Changing the role of one member changes what `role_of` says of its
/// identifier and of no other.
pub proof fn lemma_role_of_update<A>(s: Seq<Member<A>>, i: int, m: Member<A>, id: Id)
    requires
        ascending(s),
        0 <= i < s.len(),
        m.id == s[i].id,
    ensures
        ascending(s.update(i, m)),
        has_id(s.update(i, m), id) == has_id(s, id),
        role_of(s.update(i, m), id) == if id == s[i].id {
            m.role
        } else {
            role_of(s, id)
        },
{
    let t = s.update(i, m);
    assert forall|a: int, b: int| 0 <= a < b < t.len() implies t[a].id@ < t[b].id@ by {
        assert(s[a].id@ < s[b].id@);
    }
    if has_id(s, id) {
        let j = choose|j: int| 0 <= j < s.len() && s[j].id == id;
        assert(t[j].id == id);
        lemma_role_of_at(s, j);
        lemma_role_of_at(t, j);
    }
    if has_id(t, id) {
        let j = choose|j: int| 0 <= j < t.len() && t[j].id == id;
        assert(s[j].id == id);
    }
}

/// The participants of the current tick, in order of their identifiers, with
/// the allocator of fresh identifiers.
pub struct Registry<A> {
    members: Vec<Member<A>>,
    ids: IdGenerator,
}

impl<A> View for Registry<A> {
    type V = Seq<Member<A>>;

    closed spec fn view(&self) -> Seq<Member<A>> {
        self.members@
    }
}

impl<A> Registry<A> {
    /// The number that the next fresh identifier will carry.
    pub closed spec fn next_id(&self) -> usize {
        self.ids@
    }

    /// Identifiers ascend and were all handed out before the next fresh one.
    pub open spec fn wf(&self) -> bool {
        &&& ascending(self@)
        &&& forall|i: int| 0 <= i < self@.len() ==> #[trigger] self@[i].id@ < self.next_id()
    }

    /// An empty registry whose first identifier will be 0.
    pub fn new() -> (r: Self)
        ensures
            r.wf(),
            r@.len() == 0,
            r.next_id() == 0,
    {
        Registry { members: Vec::new(), ids: IdGenerator::new() }
    }

    pub fn len(&self) -> (r: usize)
        ensures
            r == self@.len(),
    {
        self.members.len()
    }

    pub fn is_empty(&self) -> (r: bool)
        ensures
            r == (self@.len() == 0),
    {
        self.members.len() == 0
    }

    /// How many fresh identifiers remain to be handed out.
    pub fn fresh_ids_left(&self) -> (r: usize)
        ensures
            r == usize::MAX - self.next_id(),
    {
        usize::MAX - self.ids.peek()
    }

    /// The member at a position.
    pub fn member(&self, i: usize) -> (r: &Member<A>)
        requires
            i < self@.len(),
        ensures
            *r == self@[i as int],
    {
        &self.members[i]
    }

    /// The position of the member with the identifier, if there is one.
    pub fn find(&self, id: Id) -> (r: Option<usize>)
        requires
            self.wf(),
        ensures
            match r {
                Some(i) => i < self@.len() && self@[i as int].id == id,
                None => !has_id(self@, id),
            },
    {
        let target = id.value();
        let mut lo: usize = 0;
        let mut hi: usize = self.members.len();
        while lo < hi
            invariant
                self.wf(),
                target == id@,
                lo <= hi <= self@.len(),
                forall|i: int| 0 <= i < lo ==> #[trigger] self@[i].id@ < target,
                forall|i: int| hi <= i < self@.len() ==> #[trigger] self@[i].id@ > target,
            decreases hi - lo,
        {
            let mid = lo + (hi - lo) / 2;
            let v = self.members[mid].id.value();
            if v == target {
                proof {
                    crate::id::lemma_id_view_injective(self@[mid as int].id, id);
                }
                return Some(mid);
            } else if v < target {
                lo = mid + 1;
            } else {
                hi = mid;
            }
        }
        proof {
            assert forall|i: int| 0 <= i < self@.len() implies self@[i].id != id by {
                if self@[i].id == id {
                    assert(self@[i].id@ == target);
                }
            }
        }
        None
    }

    /// The position of a registered participant.
    pub fn position(&self, id: Id) -> (r: usize)
        requires
            self.wf(),
            has_id(self@, id),
        ensures
            r < self@.len(),
            self@[r as int].id == id,
    {
        match self.find(id) {
            Some(i) => i,
            None => {
                proof {
                    assert(false);
                }
                0
            },
        }
    }

    /// The role of the participant with the identifier; `None` when it has no
    /// role or is not registered.
    pub fn role_of(&self, id: Id) -> (r: Option<Role>)
        requires
            self.wf(),
        ensures
            r == role_of(self@, id),
    {
        match self.find(id) {
            Some(i) => {
                proof {
                    lemma_role_of_at(self@, i as int);
                }
                self.members[i].role
            },
            None => None,
        }
    }

    /// Whether every delegator's target is registered.
    pub fn targets_registered(&self) -> (r: bool)
        requires
            self.wf(),
        ensures
            r == targets_registered(self@),
    {
        let n = self.len();
        let mut i: usize = 0;
        while i < n
            invariant
                self.wf(),
                n == self@.len(),
                i <= n,
                forall|j: int|
                    0 <= j < i ==> match #[trigger] self@[j].role {
                        Some(Role::Delegator(t)) => has_id(self@, t),
                        _ => true,
                    },
            decreases n - i,
        {
            if let Some(Role::Delegator(t)) = self.member(i).role {
                if self.find(t).is_none() {
                    return false;
                }
            }
            i = i + 1;
        }
        true
    }

    /// Gives the member at a position a new role.
    pub(crate) fn set_role(&mut self, i: usize, role: Option<Role>)
        requires
            old(self).wf(),
            i < old(self)@.len(),
        ensures
            final(self).wf(),
            final(self).next_id() == old(self).next_id(),
            final(self)@ == old(self)@.update(
                i as int,
                (Member { id: old(self)@[i as int].id, role, data: old(self)@[i as int].data }),
            ),
    {
        self.members[i].role = role;
        assert(self.members@ =~= old(self)@.update(
            i as int,
            (Member { id: old(self)@[i as int].id, role, data: old(self)@[i as int].data }),
        ));
    }

    /// Replaces the data carried for the member at a position.
    pub fn set_data(&mut self, i: usize, data: A)
        requires
            old(self).wf(),
            i < old(self)@.len(),
        ensures
            final(self).wf(),
            final(self).next_id() == old(self).next_id(),
            final(self)@ == old(self)@.update(
                i as int,
                (Member { id: old(self)@[i as int].id, role: old(self)@[i as int].role, data }),
            ),
    {
        self.members[i].data = data;
        assert(self.members@ =~= old(self)@.update(
            i as int,
            (Member { id: old(self)@[i as int].id, role: old(self)@[i as int].role, data }),
        ));
    }

    /// Registers a participant under a fresh identifier, after all others.
    pub(crate) fn push_fresh(&mut self, role: Option<Role>, data: A) -> (r: Id)
        requires
            old(self).wf(),
            old(self).next_id() < usize::MAX,
        ensures
            final(self).wf(),
            r@ == old(self).next_id(),
            final(self).next_id() == old(self).next_id() + 1,
            final(self)@ == old(self)@.push(Member { id: r, role, data }),
    {
        let id = self.ids.next();
        self.members.push(Member { id, role, data });
        id
    }

    /// Takes the member at a position out of the registry.
    pub(crate) fn remove_at(&mut self, i: usize) -> (r: Member<A>)
        requires
            old(self).wf(),
            i < old(self)@.len(),
        ensures
            final(self).wf(),
            final(self).next_id() == old(self).next_id(),
            r == old(self)@[i as int],
            final(self)@ == old(self)@.remove(i as int),
    {
        self.members.remove(i)
    }

    /// Registers a new participant without a role; its identifier is fresh.
    pub fn enter(&mut self, data: A) -> (r: Id)
        requires
            old(self).wf(),
            old(self).next_id() < usize::MAX,
        ensures
            final(self).wf(),
            r@ == old(self).next_id(),
            final(self).next_id() == old(self).next_id() + 1,
            final(self)@ == old(self)@.push(Member { id: r, role: None, data }),
    {
        self.push_fresh(None, data)
    }

    /// Takes the participant with the identifier out of the registry, if it
    /// is there.
    pub fn remove(&mut self, id: Id) -> (r: Option<Member<A>>)
        requires
            old(self).wf(),
        ensures
            final(self).wf(),
            final(self).next_id() == old(self).next_id(),
            match r {
                Some(m) => exists|i: int|
                    0 <= i < old(self)@.len() && m == old(self)@[i] && m.id == id
                        && final(self)@ == old(self)@.remove(i),
                None => !has_id(old(self)@, id) && final(self)@ == old(self)@,
            },
    {
        match self.find(id) {
            Some(i) => Some(self.remove_at(i)),
            None => None,
        }
    }
}

} // verus!
