use vstd::prelude::*;
use crate::auction::{
    Proposal, RoleChange, auction_result, auction_role, in_pool, outranks, ranked_changes,
    ranks_pool,
};
use crate::id::Id;
use crate::registry::{Member, ascending, role_of, same_members, target_role, lemma_role_of_at};
use crate::role::{Pool, Role, active_pool, other_pool, pool_role};

verus! {

/// The identifiers of the members that hold `role`.
pub open spec fn holders<A>(t: Seq<Member<A>>, role: Role) -> Set<Id> {
    Set::new(|id: Id| exists|i: int| 0 <= i < t.len() && t[i].id == id && t[i].role == Some(role))
}

proof fn lemma_ascending_same_members<A>(s: Seq<Member<A>>, t: Seq<Member<A>>)
    requires
        ascending(s),
        same_members(s, t),
    ensures
        ascending(t),
{
    assert forall|a: int, b: int| 0 <= a < b < t.len() implies t[a].id@ < t[b].id@ by {
        assert(s[a].id == t[a].id);
        assert(s[b].id == t[b].id);
    }
}

/// The member at position `i` proposed in its pool, at some rank of that
/// pool's ranking.
proof fn lemma_member_ranked<A>(
    s: Seq<Member<A>>,
    stakes: Seq<u64>,
    pools: Seq<Pool>,
    r: Seq<Proposal>,
    i: int,
) -> (k: int)
    requires
        0 <= i < s.len(),
        pools.len() == s.len(),
        stakes.len() == s.len(),
        ranks_pool(r, s, stakes, pools, pools[i]),
    ensures
        0 <= k < r.len(),
        r[k].id == s[i].id,
{
    let x = Proposal { stake: stakes[i], id: s[i].id };
    assert(in_pool(s, stakes, pools, pools[i], x));
    assert(r.contains(x));
    choose|k: int| 0 <= k < r.len() && r[k] == x
}

/// The ranking of `p` and the ranking of the other pool, with the roles that
/// the auction gave along each.
spec fn pool_outcome<A>(
    s: Seq<Member<A>>,
    stakes: Seq<u64>,
    pools: Seq<Pool>,
    p: Pool,
    r: Seq<Proposal>,
    slots: int,
    q: Seq<Proposal>,
    q_slots: int,
    t: Seq<Member<A>>,
) -> bool {
    &&& ranks_pool(r, s, stakes, pools, p)
    &&& ranks_pool(q, s, stakes, pools, other_pool(p))
    &&& forall|k: int|
        0 <= k < r.len() ==> role_of(t, #[trigger] r[k].id) == auction_role(
            r,
            slots,
            k,
            pool_role(p),
        )
    &&& forall|k: int|
        0 <= k < q.len() ==> role_of(t, #[trigger] q[k].id) == auction_role(
            q,
            q_slots,
            k,
            pool_role(other_pool(p)),
        )
}

proof fn lemma_pool_slot_bound<A>(
    s: Seq<Member<A>>,
    stakes: Seq<u64>,
    pools: Seq<Pool>,
    p: Pool,
    r: Seq<Proposal>,
    slots: int,
    q: Seq<Proposal>,
    q_slots: int,
    t: Seq<Member<A>>,
)
    requires
        ascending(s),
        same_members(s, t),
        stakes.len() == s.len(),
        pools.len() == s.len(),
        0 <= slots,
        pool_outcome(s, stakes, pools, p, r, slots, q, q_slots, t),
    ensures
        holders(t, pool_role(p)).finite(),
        holders(t, pool_role(p)).len() <= slots,
{
    lemma_ascending_same_members(s, t);
    let m = if slots < r.len() {
        slots
    } else {
        r.len() as int
    };
    let w = r.take(m).map_values(|x: Proposal| x.id);
    assert forall|id: Id| holders(t, pool_role(p)).contains(id) implies w.to_set().contains(id) by {
        let i = choose|i: int|
            0 <= i < t.len() && t[i].id == id && t[i].role == Some(pool_role(p));
        lemma_role_of_at(t, i);
        assert(s[i].id == t[i].id);
        if pools[i] == p {
            let k = lemma_member_ranked(s, stakes, pools, r, i);
            assert(role_of(t, r[k].id) == auction_role(r, slots, k, pool_role(p)));
            assert(k < slots);
            assert(w[k] == id);
            assert(w.contains(id));
        } else {
            assert(pools[i] == other_pool(p));
            let k = lemma_member_ranked(s, stakes, pools, q, i);
            assert(role_of(t, q[k].id) == auction_role(q, q_slots, k, pool_role(other_pool(p))));
        }
    }
    w.lemma_cardinality_of_set();
    vstd::seq_lib::seq_to_set_is_finite(w);
    vstd::set_lib::lemma_len_subset(holders(t, pool_role(p)), w.to_set());
}

/// Slot bound: after an auction, at most `block_slots` participants are
/// block producers and at most `chunk_slots` are chunk-only producers.
pub proof fn lemma_slot_bound<A>(
    s: Seq<Member<A>>,
    stakes: Seq<u64>,
    pools: Seq<Pool>,
    block_slots: int,
    chunk_slots: int,
    rb: Seq<Proposal>,
    rc: Seq<Proposal>,
    t: Seq<Member<A>>,
    changes: Seq<RoleChange>,
)
    requires
        ascending(s),
        stakes.len() == s.len(),
        pools.len() == s.len(),
        0 <= block_slots,
        0 <= chunk_slots,
        auction_result(s, stakes, pools, block_slots, chunk_slots, rb, rc, t, changes),
    ensures
        holders(t, Role::BlockProducer).finite(),
        holders(t, Role::BlockProducer).len() <= block_slots,
        holders(t, Role::ChunkOnlyProducer).finite(),
        holders(t, Role::ChunkOnlyProducer).len() <= chunk_slots,
{
    let (b, c) = (Pool::BlockProducer, Pool::ChunkOnlyProducer);
    lemma_pool_slot_bound(s, stakes, pools, b, rb, block_slots, rc, chunk_slots, t);
    lemma_pool_slot_bound(s, stakes, pools, c, rc, chunk_slots, rb, block_slots, t);
}

proof fn lemma_ranked_changes_real<A>(
    s: Seq<Member<A>>,
    r: Seq<Proposal>,
    slots: int,
    winner: Role,
    k: int,
)
    requires
        0 <= k <= r.len(),
    ensures
        forall|j: int|
            0 <= j < ranked_changes(s, r, slots, winner, k).len() ==> {
                let c = #[trigger] ranked_changes(s, r, slots, winner, k)[j];
                &&& c.new_role != role_of(s, c.id)
                &&& exists|m: int|
                    0 <= m < k && r[m].id == c.id && c.new_role == auction_role(r, slots, m, winner)
            },
    decreases k,
{
    if k > 0 {
        lemma_ranked_changes_real(s, r, slots, winner, k - 1);
        let prev = ranked_changes(s, r, slots, winner, k - 1);
        let cur = ranked_changes(s, r, slots, winner, k);
        assert forall|j: int| 0 <= j < cur.len() implies {
            let c = #[trigger] cur[j];
            &&& c.new_role != role_of(s, c.id)
            &&& exists|m: int|
                0 <= m < k && r[m].id == c.id && c.new_role == auction_role(r, slots, m, winner)
        } by {
            if j < prev.len() {
                assert(cur[j] == prev[j]);
                let m = choose|m: int|
                    0 <= m < k - 1 && r[m].id == prev[j].id && prev[j].new_role == auction_role(
                        r,
                        slots,
                        m,
                        winner,
                    );
                assert(0 <= m < k);
            } else {
                assert(cur[j].id == r[k - 1].id);
            }
        }
    }
}

/// Event suppression: each role change an auction reports names a role that
/// differs from the one held before, and is the role held after.
pub proof fn lemma_changes_are_real<A>(
    s: Seq<Member<A>>,
    stakes: Seq<u64>,
    pools: Seq<Pool>,
    block_slots: int,
    chunk_slots: int,
    rb: Seq<Proposal>,
    rc: Seq<Proposal>,
    t: Seq<Member<A>>,
    changes: Seq<RoleChange>,
)
    requires
        auction_result(s, stakes, pools, block_slots, chunk_slots, rb, rc, t, changes),
    ensures
        forall|j: int|
            0 <= j < changes.len() ==> (#[trigger] changes[j]).new_role != role_of(s, changes[j].id)
                && changes[j].new_role == role_of(t, changes[j].id),
{
    let cb = ranked_changes(s, rb, block_slots, Role::BlockProducer, rb.len() as int);
    let cc = ranked_changes(s, rc, chunk_slots, Role::ChunkOnlyProducer, rc.len() as int);
    lemma_ranked_changes_real(s, rb, block_slots, Role::BlockProducer, rb.len() as int);
    lemma_ranked_changes_real(s, rc, chunk_slots, Role::ChunkOnlyProducer, rc.len() as int);
    assert forall|j: int| 0 <= j < changes.len() implies (#[trigger] changes[j]).new_role
        != role_of(s, changes[j].id) && changes[j].new_role == role_of(t, changes[j].id) by {
        if j < cb.len() {
            assert(changes[j] == cb[j]);
            let m = choose|m: int|
                0 <= m < rb.len() && rb[m].id == cb[j].id && cb[j].new_role == auction_role(
                    rb,
                    block_slots,
                    m,
                    Role::BlockProducer,
                );
            assert(role_of(t, rb[m].id) == auction_role(rb, block_slots, m, Role::BlockProducer));
        } else {
            let jj = j - cb.len();
            assert(changes[j] == cc[jj]);
            let m = choose|m: int|
                0 <= m < rc.len() && rc[m].id == cc[jj].id && cc[jj].new_role == auction_role(
                    rc,
                    chunk_slots,
                    m,
                    Role::ChunkOnlyProducer,
                );
            assert(role_of(t, rc[m].id) == auction_role(
                rc,
                chunk_slots,
                m,
                Role::ChunkOnlyProducer,
            ));
        }
    }
}

/// Every delegator's target is registered and holds an active role.
pub open spec fn delegations_effective<A>(t: Seq<Member<A>>) -> bool {
    forall|i: int|
        0 <= i < t.len() && (#[trigger] t[i].role matches Some(Role::Delegator(_)))
            ==> active_pool(target_role(t, t[i])) is Some
}

proof fn lemma_pool_delegations<A>(
    s: Seq<Member<A>>,
    stakes: Seq<u64>,
    pools: Seq<Pool>,
    p: Pool,
    r: Seq<Proposal>,
    slots: int,
    q: Seq<Proposal>,
    q_slots: int,
    t: Seq<Member<A>>,
    i: int,
)
    requires
        ascending(s),
        same_members(s, t),
        stakes.len() == s.len(),
        pools.len() == s.len(),
        0 <= i < s.len(),
        pools[i] == p,
        pool_outcome(s, stakes, pools, p, r, slots, q, q_slots, t),
    ensures
        t[i].role matches Some(Role::Delegator(_)) ==> active_pool(target_role(t, t[i])) is Some,
{
    lemma_ascending_same_members(s, t);
    lemma_role_of_at(t, i);
    assert(s[i].id == t[i].id);
    let k = lemma_member_ranked(s, stakes, pools, r, i);
    assert(role_of(t, r[k].id) == auction_role(r, slots, k, pool_role(p)));
    if k >= slots && slots > 0 {
        let w = (k - slots) % slots;
        assert(0 <= w < slots);
        assert(role_of(t, r[w].id) == auction_role(r, slots, w, pool_role(p)));
    }
}

/// After an auction every delegator delegates to a winner of its own pool, so
/// its target holds an active role: settlement then counts its stake.
pub proof fn lemma_delegates_to_winners<A>(
    s: Seq<Member<A>>,
    stakes: Seq<u64>,
    pools: Seq<Pool>,
    block_slots: int,
    chunk_slots: int,
    rb: Seq<Proposal>,
    rc: Seq<Proposal>,
    t: Seq<Member<A>>,
    changes: Seq<RoleChange>,
)
    requires
        ascending(s),
        stakes.len() == s.len(),
        pools.len() == s.len(),
        auction_result(s, stakes, pools, block_slots, chunk_slots, rb, rc, t, changes),
    ensures
        delegations_effective(t),
{
    assert forall|i: int|
        0 <= i < t.len() && (#[trigger] t[i].role matches Some(Role::Delegator(_)))
            implies active_pool(target_role(t, t[i])) is Some by {
        if pools[i] == Pool::BlockProducer {
            lemma_pool_delegations(
                s, stakes, pools, Pool::BlockProducer, rb, block_slots, rc, chunk_slots, t, i);
        } else {
            lemma_pool_delegations(
                s, stakes, pools, Pool::ChunkOnlyProducer, rc, chunk_slots, rb, block_slots, t, i);
        }
    }
}

/// With at least one slot in each pool, an auction leaves nobody without a
/// role: each participant wins its pool or delegates to a winner of it.
pub proof fn lemma_everyone_has_role<A>(
    s: Seq<Member<A>>,
    stakes: Seq<u64>,
    pools: Seq<Pool>,
    block_slots: int,
    chunk_slots: int,
    rb: Seq<Proposal>,
    rc: Seq<Proposal>,
    t: Seq<Member<A>>,
    changes: Seq<RoleChange>,
)
    requires
        ascending(s),
        stakes.len() == s.len(),
        pools.len() == s.len(),
        0 < block_slots,
        0 < chunk_slots,
        auction_result(s, stakes, pools, block_slots, chunk_slots, rb, rc, t, changes),
    ensures
        forall|i: int| 0 <= i < t.len() ==> (#[trigger] t[i].role) is Some,
{
    lemma_ascending_same_members(s, t);
    assert forall|i: int| 0 <= i < t.len() implies (#[trigger] t[i].role) is Some by {
        lemma_role_of_at(t, i);
        assert(s[i].id == t[i].id);
        if pools[i] == Pool::BlockProducer {
            let k = lemma_member_ranked(s, stakes, pools, rb, i);
            assert(role_of(t, rb[k].id) == auction_role(rb, block_slots, k, Role::BlockProducer));
        } else {
            let k = lemma_member_ranked(s, stakes, pools, rc, i);
            assert(role_of(t, rc[k].id) == auction_role(
                rc,
                chunk_slots,
                k,
                Role::ChunkOnlyProducer,
            ));
        }
    }
}

/// The member behind a rank of a pool's ranking.
pub proof fn lemma_ranked_member<A>(
    r: Seq<Proposal>,
    s: Seq<Member<A>>,
    stakes: Seq<u64>,
    pools: Seq<Pool>,
    p: Pool,
    k: int,
) -> (i: int)
    requires
        ranks_pool(r, s, stakes, pools, p),
        0 <= k < r.len(),
    ensures
        0 <= i < s.len(),
        pools[i] == p,
        r[k] == (Proposal { stake: stakes[i], id: s[i].id }),
{
    assert(r.contains(r[k]));
    choose|i: int|
        0 <= i < s.len() && pools[i] == p && r[k] == (Proposal { stake: stakes[i], id: s[i].id })
}

/// The identifiers along a pool's ranking are distinct.
pub proof fn lemma_ranked_ids_distinct<A>(
    r: Seq<Proposal>,
    s: Seq<Member<A>>,
    stakes: Seq<u64>,
    pools: Seq<Pool>,
    p: Pool,
)
    requires
        ascending(s),
        ranks_pool(r, s, stakes, pools, p),
    ensures
        forall|a: int, b: int|
            0 <= a < r.len() && 0 <= b < r.len() && a != b ==> #[trigger] r[a].id@
                != #[trigger] r[b].id@,
{
    assert forall|a: int, b: int|
        0 <= a < r.len() && 0 <= b < r.len() && a != b implies #[trigger] r[a].id@
            != #[trigger] r[b].id@ by {
        let i = lemma_ranked_member(r, s, stakes, pools, p, a);
        let j = lemma_ranked_member(r, s, stakes, pools, p, b);
        if r[a].id@ == r[b].id@ {
            if i < j {
                assert(s[i].id@ < s[j].id@);
            } else if j < i {
                assert(s[j].id@ < s[i].id@);
            } else {
                if a < b {
                    assert(outranks(r[a], r[b]));
                } else {
                    assert(outranks(r[b], r[a]));
                }
            }
        }
    }
}

proof fn lemma_ranked_changes_distinct<A>(
    s: Seq<Member<A>>,
    r: Seq<Proposal>,
    slots: int,
    winner: Role,
    k: int,
)
    requires
        0 <= k <= r.len(),
        forall|a: int, b: int|
            0 <= a < r.len() && 0 <= b < r.len() && a != b ==> #[trigger] r[a].id@
                != #[trigger] r[b].id@,
    ensures
        forall|j1: int, j2: int|
            0 <= j1 < j2 < ranked_changes(s, r, slots, winner, k).len() ==> (
            #[trigger] ranked_changes(s, r, slots, winner, k)[j1]).id@ != (
            #[trigger] ranked_changes(s, r, slots, winner, k)[j2]).id@,
    decreases k,
{
    if k > 0 {
        lemma_ranked_changes_distinct(s, r, slots, winner, k - 1);
        lemma_ranked_changes_real(s, r, slots, winner, k - 1);
        let prev = ranked_changes(s, r, slots, winner, k - 1);
        let cur = ranked_changes(s, r, slots, winner, k);
        assert forall|j1: int, j2: int| 0 <= j1 < j2 < cur.len() implies (#[trigger] cur[j1]).id@
            != (#[trigger] cur[j2]).id@ by {
            if j2 < prev.len() {
                assert(cur[j1] == prev[j1] && cur[j2] == prev[j2]);
            } else {
                assert(cur[j1] == prev[j1]);
                assert(cur[j2].id == r[k - 1].id);
                let m = choose|m: int|
                    0 <= m < k - 1 && r[m].id == prev[j1].id && prev[j1].new_role == auction_role(
                        r,
                        slots,
                        m,
                        winner,
                    );
                assert(r[m].id@ != r[k - 1].id@);
            }
        }
    }
}

proof fn lemma_ranked_changes_cover<A>(
    s: Seq<Member<A>>,
    r: Seq<Proposal>,
    slots: int,
    winner: Role,
    k: int,
)
    requires
        0 <= k <= r.len(),
    ensures
        forall|m: int|
            0 <= m < k && auction_role(r, slots, m, winner) != role_of(s, #[trigger] r[m].id)
                ==> exists|j: int|
                0 <= j < ranked_changes(s, r, slots, winner, k).len() && ranked_changes(
                    s,
                    r,
                    slots,
                    winner,
                    k,
                )[j].id == r[m].id,
    decreases k,
{
    if k > 0 {
        lemma_ranked_changes_cover(s, r, slots, winner, k - 1);
        let prev = ranked_changes(s, r, slots, winner, k - 1);
        let cur = ranked_changes(s, r, slots, winner, k);
        assert forall|m: int|
            0 <= m < k && auction_role(r, slots, m, winner) != role_of(s, #[trigger] r[m].id)
                implies exists|j: int| 0 <= j < cur.len() && cur[j].id == r[m].id by {
            if m < k - 1 {
                let j = choose|j: int| 0 <= j < prev.len() && prev[j].id == r[m].id;
                assert(cur[j] == prev[j]);
            } else {
                assert(cur[prev.len() as int].id == r[m].id);
            }
        }
    }
}

/// An auction reports nobody twice.
pub proof fn lemma_changes_distinct<A>(
    s: Seq<Member<A>>,
    stakes: Seq<u64>,
    pools: Seq<Pool>,
    block_slots: int,
    chunk_slots: int,
    rb: Seq<Proposal>,
    rc: Seq<Proposal>,
    t: Seq<Member<A>>,
    changes: Seq<RoleChange>,
)
    requires
        ascending(s),
        stakes.len() == s.len(),
        pools.len() == s.len(),
        auction_result(s, stakes, pools, block_slots, chunk_slots, rb, rc, t, changes),
    ensures
        forall|j1: int, j2: int|
            0 <= j1 < changes.len() && 0 <= j2 < changes.len() && j1 != j2 ==> (
            #[trigger] changes[j1]).id != (#[trigger] changes[j2]).id,
{
    let (b, c) = (Pool::BlockProducer, Pool::ChunkOnlyProducer);
    let (wb, wc) = (Role::BlockProducer, Role::ChunkOnlyProducer);
    let cb = ranked_changes(s, rb, block_slots, wb, rb.len() as int);
    let cc = ranked_changes(s, rc, chunk_slots, wc, rc.len() as int);
    lemma_ranked_ids_distinct(rb, s, stakes, pools, b);
    lemma_ranked_ids_distinct(rc, s, stakes, pools, c);
    lemma_ranked_changes_distinct(s, rb, block_slots, wb, rb.len() as int);
    lemma_ranked_changes_distinct(s, rc, chunk_slots, wc, rc.len() as int);
    lemma_ranked_changes_real(s, rb, block_slots, wb, rb.len() as int);
    lemma_ranked_changes_real(s, rc, chunk_slots, wc, rc.len() as int);
    assert forall|j1: int, j2: int|
        0 <= j1 < changes.len() && 0 <= j2 < changes.len() && j1 != j2 implies (
        #[trigger] changes[j1]).id != (#[trigger] changes[j2]).id by {
        let (lo, hi) = if j1 < j2 {
            (j1, j2)
        } else {
            (j2, j1)
        };
        if hi < cb.len() {
            assert(changes[lo] == cb[lo] && changes[hi] == cb[hi]);
        } else if lo >= cb.len() {
            assert(changes[lo] == cc[lo - cb.len()] && changes[hi] == cc[hi - cb.len()]);
        } else {
            assert(changes[lo] == cb[lo] && changes[hi] == cc[hi - cb.len()]);
            let m1 = choose|m: int|
                0 <= m < rb.len() && rb[m].id == cb[lo].id && cb[lo].new_role == auction_role(
                    rb,
                    block_slots,
                    m,
                    wb,
                );
            let m2 = choose|m: int|
                0 <= m < rc.len() && rc[m].id == cc[hi - cb.len()].id && cc[hi
                    - cb.len()].new_role == auction_role(rc, chunk_slots, m, wc);
            let i1 = lemma_ranked_member(rb, s, stakes, pools, b, m1);
            let i2 = lemma_ranked_member(rc, s, stakes, pools, c, m2);
            if i1 < i2 {
                assert(s[i1].id@ < s[i2].id@);
            } else if i2 < i1 {
                assert(s[i2].id@ < s[i1].id@);
            }
        }
    }
}

/// Event suppression, the other way: an auction reports every participant
/// whose role changed.
pub proof fn lemma_changes_cover<A>(
    s: Seq<Member<A>>,
    stakes: Seq<u64>,
    pools: Seq<Pool>,
    block_slots: int,
    chunk_slots: int,
    rb: Seq<Proposal>,
    rc: Seq<Proposal>,
    t: Seq<Member<A>>,
    changes: Seq<RoleChange>,
)
    requires
        ascending(s),
        stakes.len() == s.len(),
        pools.len() == s.len(),
        auction_result(s, stakes, pools, block_slots, chunk_slots, rb, rc, t, changes),
    ensures
        forall|i: int|
            0 <= i < t.len() && (#[trigger] t[i].role) != s[i].role ==> exists|j: int|
                0 <= j < changes.len() && changes[j].id == t[i].id,
{
    let (wb, wc) = (Role::BlockProducer, Role::ChunkOnlyProducer);
    let cb = ranked_changes(s, rb, block_slots, wb, rb.len() as int);
    let cc = ranked_changes(s, rc, chunk_slots, wc, rc.len() as int);
    lemma_ranked_changes_cover(s, rb, block_slots, wb, rb.len() as int);
    lemma_ranked_changes_cover(s, rc, chunk_slots, wc, rc.len() as int);
    lemma_ascending_same_members(s, t);
    assert forall|i: int|
        0 <= i < t.len() && (#[trigger] t[i].role) != s[i].role implies exists|j: int|
            0 <= j < changes.len() && changes[j].id == t[i].id by {
        assert(s[i].id == t[i].id);
        lemma_role_of_at(s, i);
        lemma_role_of_at(t, i);
        if pools[i] == Pool::BlockProducer {
            let k = lemma_member_ranked(s, stakes, pools, rb, i);
            assert(role_of(t, rb[k].id) == auction_role(rb, block_slots, k, wb));
            let j = choose|j: int| 0 <= j < cb.len() && cb[j].id == rb[k].id;
            assert(changes[j] == cb[j]);
        } else {
            let k = lemma_member_ranked(s, stakes, pools, rc, i);
            assert(role_of(t, rc[k].id) == auction_role(rc, chunk_slots, k, wc));
            let j = choose|j: int| 0 <= j < cc.len() && cc[j].id == rc[k].id;
            assert(changes[cb.len() + j] == cc[j]);
        }
    }
}

} // verus!
