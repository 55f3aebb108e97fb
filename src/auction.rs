use vstd::prelude::*;
use rand::rngs::StdRng;
use crate::draw::{chance, coin};
use crate::id::{Id, lemma_id_view_injective};
use crate::auction_laws::{
    delegations_effective, holders, lemma_changes_are_real, lemma_changes_cover,
    lemma_changes_distinct, lemma_delegates_to_winners, lemma_slot_bound,
};
use crate::registry::{
    Member, Registry, ascending, has_id, role_of, same_members, target_role, targets_registered,
    lemma_role_of_at,
    lemma_role_of_update,
};
use crate::role::{Pool, Role, active_pool, active_pool_of, other_pool, same_role};

verus! {

/// A bid for a role: the stake behind it and who makes it. `stake` is any
/// integer encoding that orders stakes as their amounts are ordered.
#[derive(Copy, Clone, Debug, PartialEq, Eq, Structural)]
pub struct Proposal {
    pub stake: u64,
    pub id: Id,
}

/// `a` ranks before `b`: more stake, or equal stake and a smaller identifier.
pub open spec fn outranks(a: Proposal, b: Proposal) -> bool {
    a.stake > b.stake || (a.stake == b.stake && a.id@ < b.id@)
}

/// Each proposal ranks strictly before every later one.
pub open spec fn is_ranked(r: Seq<Proposal>) -> bool {
    forall|i: int, j: int| 0 <= i < j < r.len() ==> outranks(#[trigger] r[i], #[trigger] r[j])
}

/// No identifier proposes twice.
pub open spec fn distinct_ids(s: Seq<Proposal>) -> bool {
    forall|i: int, j: int| 0 <= i < s.len() && 0 <= j < s.len() && i != j ==> s[i].id != s[j].id
}

/// `r` holds the proposals of `p`, each once, in rank order.
pub open spec fn is_ranking_of(r: Seq<Proposal>, p: Seq<Proposal>) -> bool {
    &&& is_ranked(r)
    &&& r.len() == p.len()
    &&& forall|x: Proposal| r.contains(x) <==> p.contains(x)
}

fn outranks_exec(a: &Proposal, b: &Proposal) -> (r: bool)
    ensures
        r == outranks(*a, *b),
{
    a.stake > b.stake || (a.stake == b.stake && a.id.value() < b.id.value())
}

/// Merges two rankings whose proposals have distinct identifiers into one.
fn merge_ranked(a: &Vec<Proposal>, b: &Vec<Proposal>) -> (r: Vec<Proposal>)
    requires
        is_ranked(a@),
        is_ranked(b@),
        distinct_ids(a@ + b@),
    ensures
        is_ranked(r@),
        r@.len() == a@.len() + b@.len(),
        forall|x: Proposal| r@.contains(x) <==> (a@.contains(x) || b@.contains(x)),
{
    let mut r: Vec<Proposal> = Vec::new();
    let mut i: usize = 0;
    let mut j: usize = 0;
    while i < a.len() || j < b.len()
        invariant
            i <= a@.len(),
            j <= b@.len(),
            r@.len() == i + j,
            is_ranked(a@),
            is_ranked(b@),
            distinct_ids(a@ + b@),
            is_ranked(r@),
            forall|x: Proposal|
                r@.contains(x) <==> (a@.take(i as int).contains(x) || b@.take(j as int).contains(
                    x,
                )),
            r@.len() > 0 && i < a@.len() ==> outranks(r@.last(), a@[i as int]),
            r@.len() > 0 && j < b@.len() ==> outranks(r@.last(), b@[j as int]),
        decreases a@.len() + b@.len() - i - j,
    {
        let take_a = if i >= a.len() {
            false
        } else if j >= b.len() {
            true
        } else {
            outranks_exec(&a[i], &b[j])
        };
        let x = if take_a {
            a[i]
        } else {
            b[j]
        };
        proof {
            if !take_a && i < a@.len() {
                let s = a@ + b@;
                assert(s[i as int] == a@[i as int]);
                assert(s[a@.len() + j] == b@[j as int]);
                lemma_id_view_injective(a@[i as int].id, b@[j as int].id);
                assert(outranks(b@[j as int], a@[i as int]));
            }
        }
        let ghost r0 = r@;
        r.push(x);
        proof {
            assert forall|p: int, q: int| 0 <= p < q < r@.len() implies outranks(
                #[trigger] r@[p],
                #[trigger] r@[q],
            ) by {
                if q == r0.len() {
                    assert(r@[p] == r0[p]);
                    if p < r0.len() - 1 {
                        assert(outranks(r0[p], r0.last()));
                    }
                } else {
                    assert(r@[p] == r0[p] && r@[q] == r0[q]);
                }
            }
            let ta0 = a@.take(i as int);
            let tb0 = b@.take(j as int);
            let (ta1, tb1) = if take_a {
                (a@.take(i + 1), tb0)
            } else {
                (ta0, b@.take(j + 1))
            };
            if take_a {
                assert(ta1 =~= ta0.push(x));
            } else {
                assert(tb1 =~= tb0.push(x));
            }
            assert forall|y: Proposal| r@.contains(y) <==> (ta1.contains(y) || tb1.contains(y)) by {
                if r@.contains(y) && y != x {
                    let p = choose|p: int| 0 <= p < r@.len() && r@[p] == y;
                    assert(r0[p] == y);
                }
                if r0.contains(y) {
                    let p = choose|p: int| 0 <= p < r0.len() && r0[p] == y;
                    assert(r@[p] == y);
                }
                assert(r@[r0.len() as int] == x);
                if take_a {
                    if ta1.contains(y) && y != x {
                        let p = choose|p: int| 0 <= p < ta1.len() && ta1[p] == y;
                        assert(ta0[p] == y);
                    }
                    if ta0.contains(y) {
                        let p = choose|p: int| 0 <= p < ta0.len() && ta0[p] == y;
                        assert(ta1[p] == y);
                    }
                    assert(ta1[i as int] == x);
                } else {
                    if tb1.contains(y) && y != x {
                        let p = choose|p: int| 0 <= p < tb1.len() && tb1[p] == y;
                        assert(tb0[p] == y);
                    }
                    if tb0.contains(y) {
                        let p = choose|p: int| 0 <= p < tb0.len() && tb0[p] == y;
                        assert(tb1[p] == y);
                    }
                    assert(tb1[j as int] == x);
                }
            }
        }
        if take_a {
            i = i + 1;
        } else {
            j = j + 1;
        }
    }
    proof {
        assert(a@.take(a@.len() as int) =~= a@);
        assert(b@.take(b@.len() as int) =~= b@);
    }
    r
}

/// Ranks the proposals at positions `lo..hi`.
fn rank_range(p: &Vec<Proposal>, lo: usize, hi: usize) -> (r: Vec<Proposal>)
    requires
        lo <= hi <= p@.len(),
        distinct_ids(p@),
    ensures
        is_ranking_of(r@, p@.subrange(lo as int, hi as int)),
    decreases hi - lo,
{
    let ghost part = p@.subrange(lo as int, hi as int);
    if hi - lo <= 1 {
        let mut r: Vec<Proposal> = Vec::new();
        if hi - lo == 1 {
            r.push(p[lo]);
            assert(r@ =~= part);
        } else {
            assert(r@ =~= part);
        }
        return r;
    }
    let mid = lo + (hi - lo) / 2;
    let a = rank_range(p, lo, mid);
    let b = rank_range(p, mid, hi);
    proof {
        let pa = p@.subrange(lo as int, mid as int);
        let pb = p@.subrange(mid as int, hi as int);
        assert(distinct_ids(pa));
        assert(distinct_ids(pb));
        lemma_ranking_distinct(a@, pa);
        lemma_ranking_distinct(b@, pb);
        let s = a@ + b@;
        assert forall|u: int, v: int|
            0 <= u < s.len() && 0 <= v < s.len() && u != v implies s[u].id != s[v].id by {
            if u < a@.len() && v >= a@.len() {
                assert(a@.contains(s[u]) && pa.contains(s[u]));
                assert(b@.contains(b@[v - a@.len()]) && pb.contains(s[v]));
                let x = choose|x: int| 0 <= x < pa.len() && pa[x] == s[u];
                let y = choose|y: int| 0 <= y < pb.len() && pb[y] == s[v];
                assert(p@[lo + x] == s[u] && p@[mid + y] == s[v]);
            } else if v < a@.len() && u >= a@.len() {
                assert(a@.contains(s[v]) && pa.contains(s[v]));
                assert(b@.contains(b@[u - a@.len()]) && pb.contains(s[u]));
                let x = choose|x: int| 0 <= x < pa.len() && pa[x] == s[v];
                let y = choose|y: int| 0 <= y < pb.len() && pb[y] == s[u];
                assert(p@[lo + x] == s[v] && p@[mid + y] == s[u]);
            } else if u < a@.len() {
                assert(s[u] == a@[u] && s[v] == a@[v]);
            } else {
                assert(s[u] == b@[u - a@.len()] && s[v] == b@[v - a@.len()]);
            }
        }
    }
    let r = merge_ranked(&a, &b);
    proof {
        let pa = p@.subrange(lo as int, mid as int);
        let pb = p@.subrange(mid as int, hi as int);
        assert(part =~= pa + pb);
        assert forall|x: Proposal| part.contains(x) <==> (pa.contains(x) || pb.contains(x)) by {
            if part.contains(x) {
                let k = choose|k: int| 0 <= k < part.len() && part[k] == x;
                if k < pa.len() {
                    assert(pa[k] == x);
                } else {
                    assert(pb[k - pa.len()] == x);
                }
            }
            if pa.contains(x) {
                let k = choose|k: int| 0 <= k < pa.len() && pa[k] == x;
                assert(part[k] == x);
            }
            if pb.contains(x) {
                let k = choose|k: int| 0 <= k < pb.len() && pb[k] == x;
                assert(part[pa.len() + k] == x);
            }
        }
    }
    r
}

/// Sorts proposals by stake, highest first; equal stakes go by identifier,
/// smallest first, so the order never depends on how the input was laid out.
pub fn rank(proposals: &Vec<Proposal>) -> (r: Vec<Proposal>)
    requires
        distinct_ids(proposals@),
    ensures
        is_ranking_of(r@, proposals@),
{
    let r = rank_range(proposals, 0, proposals.len());
    assert(proposals@.subrange(0, proposals@.len() as int) =~= proposals@);
    r
}

/// A participant's role was set to a value other than the one it held.
#[derive(Copy, Clone, Debug, PartialEq, Eq, Structural)]
pub struct RoleChange {
    pub id: Id,
    pub new_role: Option<Role>,
}

/// The role that the auction gives the proposal at rank `k` of a pool with
/// `slots` winner slots: the first `slots` win `winner`; the others delegate to
/// the winners in turn (the first of them to winner 0, the next to winner 1,
/// and so on, wrapping). A pool without slots has no winner to delegate to, so
/// its proposals get no role.
pub open spec fn auction_role(r: Seq<Proposal>, slots: int, k: int, winner: Role) -> Option<Role> {
    if k < slots {
        Some(winner)
    } else if slots <= 0 {
        None
    } else {
        Some(Role::Delegator(r[(k - slots) % slots].id))
    }
}

/// The role changes of assigning the first `k` ranks of `r` over the members
/// `s`, in rank order; a rank whose new role equals the role held gives none.
pub open spec fn ranked_changes<A>(
    s: Seq<Member<A>>,
    r: Seq<Proposal>,
    slots: int,
    winner: Role,
    k: int,
) -> Seq<RoleChange>
    decreases k,
{
    if k <= 0 {
        Seq::empty()
    } else {
        let prev = ranked_changes(s, r, slots, winner, k - 1);
        let new_role = auction_role(r, slots, k - 1, winner);
        if role_of(s, r[k - 1].id) == new_role {
            prev
        } else {
            prev.push(RoleChange { id: r[k - 1].id, new_role })
        }
    }
}

impl<A> Registry<A> {
    /// Gives each ranked proposer its auction role (see `auction_role`),
    /// changing a role only where the new one differs, and reports each change.
    pub fn assign_ranked(&mut self, ranked: &Vec<Proposal>, slots: usize, winner: Role) -> (changes:
        Vec<RoleChange>)
        requires
            old(self).wf(),
            distinct_ids(ranked@),
            forall|k: int| 0 <= k < ranked@.len() ==> has_id(old(self)@, #[trigger] ranked@[k].id),
        ensures
            final(self).wf(),
            final(self).next_id() == old(self).next_id(),
            same_members(old(self)@, final(self)@),
            forall|k: int|
                0 <= k < ranked@.len() ==> role_of(final(self)@, #[trigger] ranked@[k].id)
                    == auction_role(ranked@, slots as int, k, winner),
            forall|i: int|
                0 <= i < final(self)@.len() && (forall|k: int|
                    0 <= k < ranked@.len() ==> ranked@[k].id != #[trigger] final(self)@[i].id)
                    ==> final(self)@[i].role == old(self)@[i].role,
            changes@ == ranked_changes(
                old(self)@,
                ranked@,
                slots as int,
                winner,
                ranked@.len() as int,
            ),
    {
        let mut changes: Vec<RoleChange> = Vec::new();
        let n = ranked.len();
        let mut k: usize = 0;
        while k < n
            invariant
                n == ranked@.len(),
                k <= n,
                distinct_ids(ranked@),
                forall|j: int|
                    0 <= j < ranked@.len() ==> has_id(old(self)@, #[trigger] ranked@[j].id),
                self.wf(),
                self.next_id() == old(self).next_id(),
                same_members(old(self)@, self@),
                forall|j: int|
                    0 <= j < k ==> role_of(self@, #[trigger] ranked@[j].id) == auction_role(
                        ranked@,
                        slots as int,
                        j,
                        winner,
                    ),
                forall|i: int|
                    0 <= i < self@.len() && (forall|j: int|
                        0 <= j < k ==> ranked@[j].id != #[trigger] self@[i].id) ==> self@[i].role
                        == old(self)@[i].role,
                changes@ == ranked_changes(old(self)@, ranked@, slots as int, winner, k as int),
            decreases n - k,
        {
            let id = ranked[k].id;
            let new_role = if k < slots {
                Some(winner)
            } else if slots == 0 {
                None
            } else {
                Some(Role::Delegator(ranked[(k - slots) % slots].id))
            };
            proof {
                assert(has_id(old(self)@, id));
                let i0 = choose|i: int| 0 <= i < old(self)@.len() && old(self)@[i].id == id;
                assert(self@[i0].id == id);
            }
            let i = self.position(id);
            proof {
                assert forall|j: int| 0 <= j < k implies ranked@[j].id
                    != #[trigger] self@[i as int].id by {
                    assert(j != k);
                }
                assert(self@[i as int].role == old(self)@[i as int].role);
                assert(old(self)@[i as int].id == id);
                lemma_role_of_at(old(self)@, i as int);
                lemma_role_of_at(self@, i as int);
            }
            let current = self.member(i).role;
            if !same_role(current, new_role) {
                let ghost s0 = self@;
                self.set_role(i, new_role);
                proof {
                    let m = Member { id: s0[i as int].id, role: new_role, data: s0[i as int].data };
                    assert forall|j: int|
                        0 <= j < k implies role_of(self@, #[trigger] ranked@[j].id)
                        == auction_role(ranked@, slots as int, j, winner) by {
                        lemma_role_of_update(s0, i as int, m, ranked@[j].id);
                    }
                    lemma_role_of_update(s0, i as int, m, id);
                }
                changes.push(RoleChange { id, new_role });
            }
            k = k + 1;
        }
        changes
    }
}

/// The pool a participant bids in. A validator, or a delegator whose target
/// holds an active role, stays with that role's pool unless `switch` (its
/// draw to change sides) came up; anyone else follows the coin.
pub open spec fn pool_for(
    role: Option<Role>,
    target: Option<Role>,
    switch: bool,
    coin: bool,
) -> Pool {
    let current = match role {
        Some(Role::Delegator(_)) => active_pool(target),
        _ => active_pool(role),
    };
    match current {
        Some(p) => if switch {
            other_pool(p)
        } else {
            p
        },
        None => if coin {
            Pool::BlockProducer
        } else {
            Pool::ChunkOnlyProducer
        },
    }
}

/// Decides the pool of a participant from its role, its target's role and
/// the two draws (see `pool_for`).
pub fn choose_pool(role: Option<Role>, target: Option<Role>, switch: bool, coin: bool) -> (p: Pool)
    ensures
        p == pool_for(role, target, switch, coin),
{
    let current = match role {
        Some(Role::Delegator(_)) => active_pool_of(target),
        _ => active_pool_of(role),
    };
    match current {
        Some(p) => if switch {
            p.other()
        } else {
            p
        },
        None => if coin {
            Pool::BlockProducer
        } else {
            Pool::ChunkOnlyProducer
        },
    }
}

/// `x` is the proposal of a member whose pool is `p`: its stake is the
/// member's entry in `stakes`.
pub open spec fn in_pool<A>(
    s: Seq<Member<A>>,
    stakes: Seq<u64>,
    pools: Seq<Pool>,
    p: Pool,
    x: Proposal,
) -> bool {
    exists|i: int|
        0 <= i < s.len() && pools[i] == p && x == (Proposal { stake: stakes[i], id: s[i].id })
}

/// `r` ranks exactly the proposals of pool `p`.
pub open spec fn ranks_pool<A>(
    r: Seq<Proposal>,
    s: Seq<Member<A>>,
    stakes: Seq<u64>,
    pools: Seq<Pool>,
    p: Pool,
) -> bool {
    &&& is_ranked(r)
    &&& forall|x: Proposal| r.contains(x) <==> in_pool(s, stakes, pools, p, x)
}

/// The outcome of an auction over members `s` whose proposals go to `pools`
/// with stakes `stakes`, under rankings `rb` and `rc` of the two pools: the
/// members `t` after it, and the role changes reported.
pub open spec fn auction_result<A>(
    s: Seq<Member<A>>,
    stakes: Seq<u64>,
    pools: Seq<Pool>,
    block_slots: int,
    chunk_slots: int,
    rb: Seq<Proposal>,
    rc: Seq<Proposal>,
    t: Seq<Member<A>>,
    changes: Seq<RoleChange>,
) -> bool {
    &&& ranks_pool(rb, s, stakes, pools, Pool::BlockProducer)
    &&& ranks_pool(rc, s, stakes, pools, Pool::ChunkOnlyProducer)
    &&& same_members(s, t)
    &&& forall|k: int|
        0 <= k < rb.len() ==> role_of(t, #[trigger] rb[k].id) == auction_role(
            rb,
            block_slots,
            k,
            Role::BlockProducer,
        )
    &&& forall|k: int|
        0 <= k < rc.len() ==> role_of(t, #[trigger] rc[k].id) == auction_role(
            rc,
            chunk_slots,
            k,
            Role::ChunkOnlyProducer,
        )
    &&& changes == ranked_changes(s, rb, block_slots, Role::BlockProducer, rb.len() as int)
        + ranked_changes(s, rc, chunk_slots, Role::ChunkOnlyProducer, rc.len() as int)
}

proof fn lemma_ranked_changes_same_roles<A>(
    s1: Seq<Member<A>>,
    s2: Seq<Member<A>>,
    r: Seq<Proposal>,
    slots: int,
    winner: Role,
    k: int,
)
    requires
        k <= r.len(),
        forall|j: int| 0 <= j < k ==> role_of(s1, #[trigger] r[j].id) == role_of(s2, r[j].id),
    ensures
        ranked_changes(s1, r, slots, winner, k) == ranked_changes(s2, r, slots, winner, k),
    decreases k,
{
    if k > 0 {
        lemma_ranked_changes_same_roles(s1, s2, r, slots, winner, k - 1);
    }
}

impl<A> Registry<A> {
    /// The proposals of the members whose pool is `p`, in member order.
    pub fn pool_proposals(&self, stakes: &Vec<u64>, pools: &Vec<Pool>, p: Pool) -> (r: Vec<
        Proposal,
    >)
        requires
            self.wf(),
            stakes@.len() == self@.len(),
            pools@.len() == self@.len(),
        ensures
            distinct_ids(r@),
            forall|x: Proposal| r@.contains(x) <==> in_pool(self@, stakes@, pools@, p, x),
    {
        let mut r: Vec<Proposal> = Vec::new();
        let n = self.len();
        let mut i: usize = 0;
        let ghost mut from: Seq<int> = Seq::empty();
        while i < n
            invariant
                self.wf(),
                n == self@.len(),
                stakes@.len() == n,
                pools@.len() == n,
                i <= n,
                from.len() == r@.len(),
                forall|a: int| 0 <= a < from.len() ==> 0 <= #[trigger] from[a] < i,
                forall|a: int, b: int|
                    0 <= a < b < from.len() ==> #[trigger] from[a] < #[trigger] from[b],
                forall|a: int|
                    0 <= a < r@.len() ==> #[trigger] r@[a] == (Proposal {
                        stake: stakes@[from[a]],
                        id: self@[from[a]].id,
                    }),
                forall|a: int| 0 <= a < r@.len() ==> pools@[#[trigger] from[a]] == p,
                forall|j: int|
                    0 <= j < i && pools@[j] == p ==> r@.contains(
                        (Proposal { stake: stakes@[j], id: self@[j].id }),
                    ),
            decreases n - i,
        {
            if pools[i] == p {
                let x = Proposal { stake: stakes[i], id: self.member(i).id };
                let ghost from0 = from;
                proof {
                    from = from.push(i as int);
                }
                let ghost r0 = r@;
                r.push(x);
                proof {
                    assert forall|a: int| 0 <= a < r@.len() implies #[trigger] r@[a] == (Proposal {
                        stake: stakes@[from[a]],
                        id: self@[from[a]].id,
                    }) && pools@[from[a]] == p by {
                        if a < r0.len() {
                            assert(r@[a] == r0[a]);
                            assert(from[a] == from0[a]);
                        } else {
                            assert(from[a] == i);
                            assert(r@[a] == x);
                        }
                    }
                    assert forall|j: int|
                        0 <= j <= i && pools@[j] == p implies r@.contains(
                        (Proposal { stake: stakes@[j], id: self@[j].id }),
                    ) by {
                        if j < i {
                            let a = choose|a: int|
                                0 <= a < r0.len() && r0[a] == (Proposal {
                                    stake: stakes@[j],
                                    id: self@[j].id,
                                });
                            assert(r@[a] == r0[a]);
                        } else {
                            assert(r@[r0.len() as int] == x);
                        }
                    }
                }
            }
            i = i + 1;
        }
        proof {
            assert forall|a: int, b: int|
                0 <= a < r@.len() && 0 <= b < r@.len() && a != b implies r@[a].id != r@[b].id by {
                if a < b {
                    assert(from[a] < from[b]);
                    assert(self@[from[a]].id@ < self@[from[b]].id@);
                } else {
                    assert(from[b] < from[a]);
                    assert(self@[from[b]].id@ < self@[from[a]].id@);
                }
            }
            assert forall|x: Proposal| r@.contains(x) implies in_pool(
                self@,
                stakes@,
                pools@,
                p,
                x,
            ) by {
                let a = choose|a: int| 0 <= a < r@.len() && r@[a] == x;
                assert(r@[a] == x);
                let j = from[a];
                assert(0 <= j < n);
            }
        }
        r
    }
}

/// A strict ranking of proposals with distinct identifiers has distinct
/// identifiers itself.
pub proof fn lemma_ranking_distinct(r: Seq<Proposal>, p: Seq<Proposal>)
    requires
        is_ranking_of(r, p),
        distinct_ids(p),
    ensures
        distinct_ids(r),
{
    assert forall|a: int, b: int|
        0 <= a < r.len() && 0 <= b < r.len() && a != b implies r[a].id != r[b].id by {
        if r[a].id == r[b].id {
            assert(r.contains(r[a]) && r.contains(r[b]));
            assert(p.contains(r[a]) && p.contains(r[b]));
            let i = choose|i: int| 0 <= i < p.len() && p[i] == r[a];
            let j = choose|j: int| 0 <= j < p.len() && p[j] == r[b];
            assert(i == j);
            if a < b {
                assert(outranks(r[a], r[b]));
            } else {
                assert(outranks(r[b], r[a]));
            }
        }
    }
}

/// A member whose role is the same before and after, at the same position,
/// gets the same answer from `role_of`.
proof fn lemma_role_of_kept<A>(s: Seq<Member<A>>, t: Seq<Member<A>>, i: int)
    requires
        ascending(s),
        same_members(s, t),
        0 <= i < s.len(),
        t[i].role == s[i].role,
    ensures
        role_of(t, s[i].id) == role_of(s, s[i].id),
{
    assert(ascending(t)) by {
        assert forall|a: int, b: int| 0 <= a < b < t.len() implies t[a].id@ < t[b].id@ by {
            assert(s[a].id == t[a].id);
            assert(s[b].id == t[b].id);
        }
    }
    assert(s[i].id == t[i].id);
    lemma_role_of_at(s, i);
    lemma_role_of_at(t, i);
}

impl<A> Registry<A> {
    /// Runs the auction for pools already chosen: each pool's proposals are
    /// ranked, its first slots win its role and the rest delegate to the
    /// winners in turn. Reports each role that actually changed.
    pub fn assign_roles(
        &mut self,
        stakes: &Vec<u64>,
        pools: &Vec<Pool>,
        block_slots: usize,
        chunk_slots: usize,
    ) -> (changes: Vec<RoleChange>)
        requires
            old(self).wf(),
            stakes@.len() == old(self)@.len(),
            pools@.len() == old(self)@.len(),
        ensures
            final(self).wf(),
            final(self).next_id() == old(self).next_id(),
            holders(final(self)@, Role::BlockProducer).len() <= block_slots,
            holders(final(self)@, Role::ChunkOnlyProducer).len() <= chunk_slots,
            delegations_effective(final(self)@),
            targets_registered(final(self)@),
            forall|j: int|
                0 <= j < changes@.len() ==> (#[trigger] changes@[j]).new_role != role_of(
                    old(self)@,
                    changes@[j].id,
                ) && changes@[j].new_role == role_of(final(self)@, changes@[j].id),
            forall|j1: int, j2: int|
                0 <= j1 < changes@.len() && 0 <= j2 < changes@.len() && j1 != j2 ==> (
                #[trigger] changes@[j1]).id != (#[trigger] changes@[j2]).id,
            forall|i: int|
                0 <= i < final(self)@.len() && (#[trigger] final(self)@[i].role)
                    != old(self)@[i].role ==> exists|j: int|
                    0 <= j < changes@.len() && changes@[j].id == final(self)@[i].id,
            exists|rb: Seq<Proposal>, rc: Seq<Proposal>|
                auction_result(
                    old(self)@,
                    stakes@,
                    pools@,
                    block_slots as int,
                    chunk_slots as int,
                    rb,
                    rc,
                    final(self)@,
                    changes@,
                ),
    {
        let ghost s = self@;
        let bp = self.pool_proposals(stakes, pools, Pool::BlockProducer);
        let cp = self.pool_proposals(stakes, pools, Pool::ChunkOnlyProducer);
        let rb = rank(&bp);
        let rc = rank(&cp);
        proof {
            lemma_ranking_distinct(rb@, bp@);
            lemma_ranking_distinct(rc@, cp@);
            assert forall|k: int| 0 <= k < rb@.len() implies has_id(s, #[trigger] rb@[k].id) by {
                assert(rb@.contains(rb@[k]));
                assert(bp@.contains(rb@[k]));
                assert(in_pool(s, stakes@, pools@, Pool::BlockProducer, rb@[k]));
            }
        }
        let mut changes = self.assign_ranked(&rb, block_slots, Role::BlockProducer);
        let ghost mid = self@;
        proof {
            assert forall|k: int| 0 <= k < rc@.len() implies has_id(mid, #[trigger] rc@[k].id) by {
                assert(rc@.contains(rc@[k]));
                assert(cp@.contains(rc@[k]));
                assert(in_pool(s, stakes@, pools@, Pool::ChunkOnlyProducer, rc@[k]));
                let i = choose|i: int|
                    0 <= i < s.len() && pools@[i] == Pool::ChunkOnlyProducer && rc@[k] == (
                    Proposal { stake: stakes@[i], id: s[i].id });
                assert(mid[i].id == s[i].id);
            }
        }
        let mut more = self.assign_ranked(&rc, chunk_slots, Role::ChunkOnlyProducer);
        let ghost t = self@;
        proof {
            // A member's proposal goes to one pool only, so the second
            // assignment leaves the first pool's roles alone and saw the
            // second pool's roles as they were at the start.
            assert forall|k: int| 0 <= k < rb@.len() implies role_of(t, #[trigger] rb@[k].id)
                == auction_role(rb@, block_slots as int, k, Role::BlockProducer) by {
                assert(rb@.contains(rb@[k]));
                assert(bp@.contains(rb@[k]));
                let i = choose|i: int|
                    0 <= i < s.len() && pools@[i] == Pool::BlockProducer && rb@[k] == (Proposal {
                        stake: stakes@[i],
                        id: s[i].id,
                    });
                assert(mid[i].id == s[i].id);
                assert forall|m: int|
                    0 <= m < rc@.len() implies rc@[m].id != #[trigger] t[i].id by {
                    assert(rc@.contains(rc@[m]));
                    assert(cp@.contains(rc@[m]));
                    let j = choose|j: int|
                        0 <= j < s.len() && pools@[j] == Pool::ChunkOnlyProducer && rc@[m] == (
                        Proposal { stake: stakes@[j], id: s[j].id });
                    if i < j {
                        assert(s[i].id@ < s[j].id@);
                    } else if j < i {
                        assert(s[j].id@ < s[i].id@);
                    }
                }
                lemma_role_of_kept(mid, t, i);
            }
            assert forall|m: int| 0 <= m < rc@.len() implies role_of(mid, #[trigger] rc@[m].id)
                == role_of(s, rc@[m].id) by {
                assert(rc@.contains(rc@[m]));
                assert(cp@.contains(rc@[m]));
                let j = choose|j: int|
                    0 <= j < s.len() && pools@[j] == Pool::ChunkOnlyProducer && rc@[m] == (
                    Proposal { stake: stakes@[j], id: s[j].id });
                assert forall|k: int|
                    0 <= k < rb@.len() implies rb@[k].id != #[trigger] mid[j].id by {
                    assert(rb@.contains(rb@[k]));
                    assert(bp@.contains(rb@[k]));
                    let i = choose|i: int|
                        0 <= i < s.len() && pools@[i] == Pool::BlockProducer && rb@[k] == (
                        Proposal { stake: stakes@[i], id: s[i].id });
                    if i < j {
                        assert(s[i].id@ < s[j].id@);
                    } else if j < i {
                        assert(s[j].id@ < s[i].id@);
                    }
                }
                lemma_role_of_kept(s, mid, j);
            }
            lemma_ranked_changes_same_roles(
                mid,
                s,
                rc@,
                chunk_slots as int,
                Role::ChunkOnlyProducer,
                rc@.len() as int,
            );
            assert(same_members(s, t));
        }
        changes.append(&mut more);
        proof {
            assert(auction_result(
                s,
                stakes@,
                pools@,
                block_slots as int,
                chunk_slots as int,
                rb@,
                rc@,
                t,
                changes@,
            ));
            lemma_slot_bound(
                s,
                stakes@,
                pools@,
                block_slots as int,
                chunk_slots as int,
                rb@,
                rc@,
                t,
                changes@,
            );
            lemma_delegates_to_winners(
                s,
                stakes@,
                pools@,
                block_slots as int,
                chunk_slots as int,
                rb@,
                rc@,
                t,
                changes@,
            );
            lemma_changes_are_real(
                s,
                stakes@,
                pools@,
                block_slots as int,
                chunk_slots as int,
                rb@,
                rc@,
                t,
                changes@,
            );
            lemma_changes_distinct(
                s,
                stakes@,
                pools@,
                block_slots as int,
                chunk_slots as int,
                rb@,
                rc@,
                t,
                changes@,
            );
            lemma_changes_cover(
                s,
                stakes@,
                pools@,
                block_slots as int,
                chunk_slots as int,
                rb@,
                rc@,
                t,
                changes@,
            );
            assert forall|i: int| 0 <= i < t.len() implies match #[trigger] t[i].role {
                Some(Role::Delegator(x)) => has_id(t, x),
                _ => true,
            } by {
                if let Some(Role::Delegator(x)) = t[i].role {
                    assert(active_pool(target_role(t, t[i])) is Some);
                }
            }
        }
        changes
    }
}

/// Odds, in hundredths, that a participant whose last change beat what the
/// other side would have paid it changes sides.
pub const CONTENT_SWITCH_PERCENT: u32 = 1;

/// Odds, in hundredths, that any other participant changes sides.
pub const RESTLESS_SWITCH_PERCENT: u32 = 5;

/// The odds, in hundredths, of a participant's switch draw: low for one
/// content with its last change, higher otherwise.
pub open spec fn switch_odds_for(content: bool) -> u32 {
    if content {
        CONTENT_SWITCH_PERCENT
    } else {
        RESTLESS_SWITCH_PERCENT
    }
}

/// The odds, in hundredths, of a participant's switch draw.
pub fn switch_odds(content: bool) -> (r: u32)
    ensures
        r == switch_odds_for(content),
        r <= 100,
{
    if content {
        CONTENT_SWITCH_PERCENT
    } else {
        RESTLESS_SWITCH_PERCENT
    }
}

impl<A> Registry<A> {
    /// Draws each member's pool, in member order: first its switch draw, at
    /// the odds `switch_odds` gives for its entry in `content`, then a coin
    /// where it has no current pool to follow; `choose_pool` decides from the
    /// draws. Any pool can come out of some draws, so the contract only fixes
    /// that there is one pool per member.
    pub fn choose_pools(&self, content: &Vec<bool>, rng: &mut StdRng) -> (pools: Vec<Pool>)
        requires
            self.wf(),
            content@.len() == self@.len(),
        ensures
            pools@.len() == self@.len(),
    {
        let mut pools: Vec<Pool> = Vec::new();
        let n = self.len();
        let mut i: usize = 0;
        while i < n
            invariant
                self.wf(),
                n == self@.len(),
                content@.len() == n,
                i <= n,
                pools@.len() == i,
            decreases n - i,
        {
            let m = self.member(i);
            let odds = switch_odds(content[i]);
            let switch = chance(rng, odds, 100);
            let target = match m.role {
                Some(Role::Delegator(t)) => self.role_of(t),
                _ => None,
            };
            let current = match m.role {
                Some(Role::Delegator(_)) => active_pool_of(target),
                _ => active_pool_of(m.role),
            };
            let flip = match current {
                Some(_) => false,
                None => coin(rng),
            };
            let p = choose_pool(m.role, target, switch, flip);
            pools.push(p);
            i = i + 1;
        }
        pools
    }

    /// The role auction of one tick: each member bids in a pool drawn by
    /// `choose_pools`, with `stakes` as its stake, and `assign_roles` settles
    /// both pools. Reports each role that actually changed. Whatever the
    /// draws, the outcome is that of `assign_roles` for some pools.
    pub fn update_roles(
        &mut self,
        stakes: &Vec<u64>,
        content: &Vec<bool>,
        block_slots: usize,
        chunk_slots: usize,
        rng: &mut StdRng,
    ) -> (changes: Vec<RoleChange>)
        requires
            old(self).wf(),
            stakes@.len() == old(self)@.len(),
            content@.len() == old(self)@.len(),
        ensures
            final(self).wf(),
            final(self).next_id() == old(self).next_id(),
            holders(final(self)@, Role::BlockProducer).len() <= block_slots,
            holders(final(self)@, Role::ChunkOnlyProducer).len() <= chunk_slots,
            delegations_effective(final(self)@),
            targets_registered(final(self)@),
            forall|j: int|
                0 <= j < changes@.len() ==> (#[trigger] changes@[j]).new_role != role_of(
                    old(self)@,
                    changes@[j].id,
                ) && changes@[j].new_role == role_of(final(self)@, changes@[j].id),
            forall|j1: int, j2: int|
                0 <= j1 < changes@.len() && 0 <= j2 < changes@.len() && j1 != j2 ==> (
                #[trigger] changes@[j1]).id != (#[trigger] changes@[j2]).id,
            forall|i: int|
                0 <= i < final(self)@.len() && (#[trigger] final(self)@[i].role)
                    != old(self)@[i].role ==> exists|j: int|
                    0 <= j < changes@.len() && changes@[j].id == final(self)@[i].id,
            exists|pools: Seq<Pool>, rb: Seq<Proposal>, rc: Seq<Proposal>|
                pools.len() == old(self)@.len() && auction_result(
                    old(self)@,
                    stakes@,
                    pools,
                    block_slots as int,
                    chunk_slots as int,
                    rb,
                    rc,
                    final(self)@,
                    changes@,
                ),
    {
        let pools = self.choose_pools(content, rng);
        self.assign_roles(stakes, &pools, block_slots, chunk_slots)
    }
}

} // verus!
