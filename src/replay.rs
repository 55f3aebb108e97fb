use vstd::prelude::*;
use crate::auction::{Proposal, RoleChange, auction_result, auction_role, in_pool, ranked_changes};
use crate::auction_laws::{lemma_ranked_ids_distinct, lemma_ranked_member};
use crate::id::{Id, lemma_id_view_injective};
use crate::ledger::{Change, apply_change, recorded, stake_class};
use crate::registry::{Member, ascending, role_of};
use crate::settle::{Support, is_support_of};
use crate::dynamics::without_pair;
use crate::role::{Pool, Role};

verus! {

/// The role of the member whose identifier has number `k`; `None` when it has
/// no role or no member has that identifier.
pub open spec fn role_at<A>(s: Seq<Member<A>>, k: usize) -> Option<Role> {
    if exists|i: int| 0 <= i < s.len() && s[i].id@ == k {
        s[choose|i: int| 0 <= i < s.len() && s[i].id@ == k].role
    } else {
        None
    }
}

/// The ledger map records exactly the roles of the members of `s`.
pub open spec fn agrees<A>(m: Map<usize, Role>, s: Seq<Member<A>>) -> bool {
    forall|k: usize| #[trigger] recorded(m, k) == role_at(s, k)
}

/// The map after replaying the changes in order.
pub open spec fn replay(m: Map<usize, Role>, cs: Seq<Change>) -> Map<usize, Role>
    decreases cs.len(),
{
    if cs.len() == 0 {
        m
    } else {
        apply_change(replay(m, cs.drop_last()), cs.last())
    }
}

/// The events that report a sequence of role changes.
pub open spec fn role_events(cs: Seq<RoleChange>) -> Seq<Change> {
    cs.map_values(|c: RoleChange| Change::RoleChanged { id: c.id, new_role: c.new_role })
}

proof fn lemma_role_at<A>(s: Seq<Member<A>>, i: int)
    requires
        ascending(s),
        0 <= i < s.len(),
    ensures
        role_at(s, s[i].id@) == s[i].role,
{
    let j = choose|j: int| 0 <= j < s.len() && s[j].id@ == s[i].id@;
    if j < i {
        assert(s[j].id@ < s[i].id@);
    } else if i < j {
        assert(s[i].id@ < s[j].id@);
    }
}

proof fn lemma_role_at_absent<A>(s: Seq<Member<A>>, k: usize)
    requires
        forall|i: int| 0 <= i < s.len() ==> #[trigger] s[i].id@ != k,
    ensures
        role_at(s, k) == None::<Role>,
{
}

/// `role_at` and `role_of` agree on an identifier.
proof fn lemma_role_at_of<A>(s: Seq<Member<A>>, id: Id)
    requires
        ascending(s),
    ensures
        role_at(s, id@) == role_of(s, id),
{
    if exists|i: int| 0 <= i < s.len() && s[i].id == id {
        let i = choose|i: int| 0 <= i < s.len() && s[i].id == id;
        lemma_role_at(s, i);
        crate::registry::lemma_role_of_at(s, i);
    } else {
        assert forall|i: int| 0 <= i < s.len() implies #[trigger] s[i].id@ != id@ by {
            if s[i].id@ == id@ {
                lemma_id_view_injective(s[i].id, id);
            }
        }
    }
}

proof fn lemma_replay_append(m: Map<usize, Role>, a: Seq<Change>, b: Seq<Change>)
    ensures
        replay(m, a + b) == replay(replay(m, a), b),
    decreases b.len(),
{
    if b.len() == 0 {
        assert(a + b =~= a);
    } else {
        assert((a + b).drop_last() =~= a + b.drop_last());
        lemma_replay_append(m, a, b.drop_last());
    }
}

/// Replaying the first `k` ranked changes sets each of the first `k` ranks to
/// its auction role and leaves every other identifier alone.
proof fn lemma_replay_ranked<A>(
    m: Map<usize, Role>,
    s: Seq<Member<A>>,
    r: Seq<Proposal>,
    slots: int,
    winner: Role,
    k: int,
)
    requires
        ascending(s),
        0 <= k <= r.len(),
        forall|a: int, b: int|
            0 <= a < r.len() && 0 <= b < r.len() && a != b ==> #[trigger] r[a].id@
                != #[trigger] r[b].id@,
        forall|j: int| 0 <= j < r.len() ==> recorded(m, #[trigger] r[j].id@) == role_of(s, r[j].id),
    ensures
        forall|j: int|
            0 <= j < k ==> recorded(
                replay(m, role_events(ranked_changes(s, r, slots, winner, k))),
                #[trigger] r[j].id@,
            ) == auction_role(r, slots, j, winner),
        forall|key: usize|
            (forall|j: int| 0 <= j < k ==> #[trigger] r[j].id@ != key) ==> recorded(
                replay(m, role_events(ranked_changes(s, r, slots, winner, k))),
                key,
            ) == recorded(m, key),
    decreases k,
{
    if k > 0 {
        lemma_replay_ranked(m, s, r, slots, winner, k - 1);
        let prev = ranked_changes(s, r, slots, winner, k - 1);
        let cur = ranked_changes(s, r, slots, winner, k);
        let mp = replay(m, role_events(prev));
        let mc = replay(m, role_events(cur));
        let id = r[k - 1].id;
        let new_role = auction_role(r, slots, k - 1, winner);
        assert(recorded(mp, id@) == recorded(m, id@)) by {
            assert forall|j: int| 0 <= j < k - 1 implies #[trigger] r[j].id@ != id@ by {
                assert(j != k - 1);
            }
        }
        if role_of(s, id) == new_role {
            assert(cur == prev);
        } else {
            let c = RoleChange { id, new_role };
            assert(cur == prev.push(c));
            assert(role_events(cur) =~= role_events(prev).push(
                Change::RoleChanged { id, new_role },
            ));
            assert(role_events(cur).drop_last() =~= role_events(prev));
            assert(mc == apply_change(mp, Change::RoleChanged { id, new_role }));
        }
    }
}

/// Replaying the changes that an auction reports through a ledger that agreed
/// with the members before it leaves the ledger agreeing with them after it.
pub proof fn lemma_replay_auction<A>(
    m: Map<usize, Role>,
    s: Seq<Member<A>>,
    stakes: Seq<u64>,
    pools: Seq<Pool>,
    block_slots: int,
    chunk_slots: int,
    rb: Seq<Proposal>,
    rc: Seq<Proposal>,
    t: Seq<Member<A>>,
    changes: Seq<RoleChange>,
)
    requires
        ascending(s),
        stakes.len() == s.len(),
        pools.len() == s.len(),
        agrees(m, s),
        auction_result(s, stakes, pools, block_slots, chunk_slots, rb, rc, t, changes),
    ensures
        agrees(replay(m, role_events(changes)), t),
{
    let cb = ranked_changes(s, rb, block_slots, Role::BlockProducer, rb.len() as int);
    let cc = ranked_changes(s, rc, chunk_slots, Role::ChunkOnlyProducer, rc.len() as int);
    assert(role_events(changes) =~= role_events(cb) + role_events(cc));
    lemma_replay_append(m, role_events(cb), role_events(cc));
    let mb = replay(m, role_events(cb));
    let mt = replay(m, role_events(changes));
    lemma_ranked_ids_distinct(rb, s, stakes, pools, Pool::BlockProducer);
    lemma_ranked_ids_distinct(rc, s, stakes, pools, Pool::ChunkOnlyProducer);
    // No identifier is ranked in both pools.
    assert forall|a: int, b: int|
        0 <= a < rb.len() && 0 <= b < rc.len() implies #[trigger] rb[a].id@
        != #[trigger] rc[b].id@ by {
        let i = lemma_ranked_member(rb, s, stakes, pools, Pool::BlockProducer, a);
        let j = lemma_ranked_member(rc, s, stakes, pools, Pool::ChunkOnlyProducer, b);
        if i < j {
            assert(s[i].id@ < s[j].id@);
        } else if j < i {
            assert(s[j].id@ < s[i].id@);
        }
    }
    assert forall|j: int| 0 <= j < rb.len() implies recorded(m, #[trigger] rb[j].id@) == role_of(
        s,
        rb[j].id,
    ) by {
        lemma_role_at_of(s, rb[j].id);
    }
    lemma_replay_ranked(m, s, rb, block_slots, Role::BlockProducer, rb.len() as int);
    assert forall|j: int| 0 <= j < rc.len() implies recorded(mb, #[trigger] rc[j].id@) == role_of(
        s,
        rc[j].id,
    ) by {
        lemma_role_at_of(s, rc[j].id);
        assert forall|a: int| 0 <= a < rb.len() implies #[trigger] rb[a].id@ != rc[j].id@ by {
            assert(rb[a].id@ != rc[j].id@);
        }
        assert(recorded(m, rc[j].id@) == role_at(s, rc[j].id@));
        assert(recorded(mb, rc[j].id@) == recorded(m, rc[j].id@));
    }
    lemma_replay_ranked(mb, s, rc, chunk_slots, Role::ChunkOnlyProducer, rc.len() as int);
    assert(ascending(t)) by {
        assert forall|a: int, b: int| 0 <= a < b < t.len() implies t[a].id@ < t[b].id@ by {
            assert(s[a].id == t[a].id);
            assert(s[b].id == t[b].id);
        }
    }
    assert forall|key: usize| #[trigger] recorded(mt, key) == role_at(t, key) by {
        if exists|j: int| 0 <= j < rb.len() && rb[j].id@ == key {
            let j = choose|j: int| 0 <= j < rb.len() && rb[j].id@ == key;
            assert forall|b: int| 0 <= b < rc.len() implies #[trigger] rc[b].id@ != key by {
                assert(rb[j].id@ != rc[b].id@);
            }
            lemma_role_at_of(t, rb[j].id);
            assert(role_of(t, rb[j].id) == auction_role(rb, block_slots, j, Role::BlockProducer));
        } else if exists|j: int| 0 <= j < rc.len() && rc[j].id@ == key {
            let j = choose|j: int| 0 <= j < rc.len() && rc[j].id@ == key;
            lemma_role_at_of(t, rc[j].id);
            assert(role_of(t, rc[j].id) == auction_role(
                rc,
                chunk_slots,
                j,
                Role::ChunkOnlyProducer,
            ));
        } else {
            assert forall|i: int| 0 <= i < t.len() implies #[trigger] t[i].id@ != key by {
                assert(s[i].id == t[i].id);
                if t[i].id@ == key {
                    let x = Proposal { stake: stakes[i], id: s[i].id };
                    if pools[i] == Pool::BlockProducer {
                        assert(in_pool(s, stakes, pools, Pool::BlockProducer, x));
                        assert(rb.contains(x));
                        let j = choose|j: int| 0 <= j < rb.len() && rb[j] == x;
                        assert(rb[j].id@ == key);
                    } else {
                        assert(in_pool(s, stakes, pools, Pool::ChunkOnlyProducer, x));
                        assert(rc.contains(x));
                        let j = choose|j: int| 0 <= j < rc.len() && rc[j] == x;
                        assert(rc[j].id@ == key);
                    }
                }
            }
            assert forall|i: int| 0 <= i < s.len() implies #[trigger] s[i].id@ != key by {
                assert(s[i].id == t[i].id);
                assert(t[i].id@ != key);
            }
            lemma_role_at_absent(t, key);
            lemma_role_at_absent(s, key);
            assert(recorded(m, key) == role_at(s, key));
        }
    }
}

/// Where settlement counts a member's stake: its pool and whether the stake is
/// delegated there.
pub open spec fn support_class(sup: Support) -> Option<(Pool, bool)> {
    match sup {
        Support::Idle => None,
        Support::Own(p) => Some((p, false)),
        Support::Delegated { pool, .. } => Some((pool, true)),
    }
}

/// A ledger that agrees with the members puts each member's stake where
/// settlement puts it: the per-tick totals rebuilt from the event stream sum
/// the same stakes into the same totals as settlement does.
pub proof fn lemma_replayed_class<A>(m: Map<usize, Role>, s: Seq<Member<A>>, i: int, sup: Support)
    requires
        ascending(s),
        agrees(m, s),
        0 <= i < s.len(),
        is_support_of(s, i, sup),
    ensures
        stake_class(m, s[i].id@) == support_class(sup),
{
    lemma_role_at(s, i);
    assert(recorded(m, s[i].id@) == role_at(s, s[i].id@));
    if let Some(Role::Delegator(t)) = s[i].role {
        lemma_role_at_of(s, t);
        assert(recorded(m, t@) == role_at(s, t@));
    }
}

/// Every identifier of `s` is below `next`.
pub open spec fn ids_below<A>(s: Seq<Member<A>>, next: usize) -> bool {
    forall|j: int| 0 <= j < s.len() ==> #[trigger] s[j].id@ < next
}

/// The members of `t` are those of `s` with their roles; only data changed.
pub open spec fn same_roles<A>(s: Seq<Member<A>>, t: Seq<Member<A>>) -> bool {
    &&& s.len() == t.len()
    &&& forall|j: int| 0 <= j < s.len() ==> #[trigger] t[j].id == s[j].id && t[j].role == s[j].role
}

/// A stake change leaves the ledger agreeing with members whose roles it did
/// not touch.
pub proof fn lemma_replay_stake_change<A>(
    m: Map<usize, Role>,
    s: Seq<Member<A>>,
    t: Seq<Member<A>>,
    id: Id,
)
    requires
        ascending(s),
        agrees(m, s),
        same_roles(s, t),
    ensures
        agrees(apply_change(m, Change::StakeChanged { id }), t),
{
    assert(ascending(t)) by {
        assert forall|a: int, b: int| 0 <= a < b < t.len() implies t[a].id@ < t[b].id@ by {
            assert(t[a].id == s[a].id && t[b].id == s[b].id);
        }
    }
    assert forall|k: usize| #[trigger] recorded(m, k) == role_at(t, k) by {
        assert(recorded(m, k) == role_at(s, k));
        if exists|i: int| 0 <= i < s.len() && s[i].id@ == k {
            let i = choose|i: int| 0 <= i < s.len() && s[i].id@ == k;
            lemma_role_at(s, i);
            lemma_role_at(t, i);
            assert(t[i].id == s[i].id);
        } else {
            assert forall|j: int| 0 <= j < t.len() implies #[trigger] t[j].id@ != k by {
                assert(s[j].id == t[j].id);
            }
        }
    }
}

/// An entry leaves the ledger agreeing with the members plus the newcomer.
pub proof fn lemma_replay_entry<A>(
    m: Map<usize, Role>,
    s: Seq<Member<A>>,
    next: usize,
    x: Member<A>,
)
    requires
        ascending(s),
        agrees(m, s),
        ids_below(s, next),
        x.id@ == next,
        x.role == None::<Role>,
    ensures
        agrees(apply_change(m, Change::Created { id: x.id }), s.push(x)),
{
    let t = s.push(x);
    assert(ascending(t)) by {
        assert forall|a: int, b: int| 0 <= a < b < t.len() implies t[a].id@ < t[b].id@ by {
            if b == s.len() {
                assert(s[a].id@ < next);
            }
        }
    }
    assert forall|k: usize| #[trigger] recorded(m, k) == role_at(t, k) by {
        assert(recorded(m, k) == role_at(s, k));
        if k == next {
            assert forall|j: int| 0 <= j < s.len() implies #[trigger] s[j].id@ != k by {}
            lemma_role_at_absent(s, k);
            lemma_role_at(t, s.len() as int);
        } else if exists|i: int| 0 <= i < s.len() && s[i].id@ == k {
            let i = choose|i: int| 0 <= i < s.len() && s[i].id@ == k;
            lemma_role_at(s, i);
            lemma_role_at(t, i);
        } else {
            assert forall|j: int| 0 <= j < t.len() implies #[trigger] t[j].id@ != k by {
                if j < s.len() {
                    assert(t[j] == s[j]);
                }
            }
        }
    }
}

/// Taking out a bankrupt member leaves the ledger agreeing with the rest.
pub proof fn lemma_replay_bankrupt<A>(m: Map<usize, Role>, s: Seq<Member<A>>, i: int)
    requires
        ascending(s),
        agrees(m, s),
        0 <= i < s.len(),
    ensures
        agrees(apply_change(m, Change::Bankrupt { id: s[i].id }), s.remove(i)),
{
    let t = s.remove(i);
    let m2 = apply_change(m, Change::Bankrupt { id: s[i].id });
    assert forall|k: usize| #[trigger] recorded(m2, k) == role_at(t, k) by {
        assert(recorded(m, k) == role_at(s, k));
        if k == s[i].id@ {
            assert forall|j: int| 0 <= j < t.len() implies #[trigger] t[j].id@ != k by {
                if j < i {
                    assert(s[j].id@ < s[i].id@);
                } else {
                    assert(t[j] == s[j + 1]);
                    assert(s[i].id@ < s[j + 1].id@);
                }
            }
        } else if exists|j: int| 0 <= j < t.len() && t[j].id@ == k {
            let j = choose|j: int| 0 <= j < t.len() && t[j].id@ == k;
            assert(ascending(t));
            lemma_role_at(t, j);
            if j < i {
                lemma_role_at(s, j);
            } else {
                assert(t[j] == s[j + 1]);
                lemma_role_at(s, j + 1);
            }
        } else {
            assert forall|j: int| 0 <= j < s.len() implies #[trigger] s[j].id@ != k by {
                if j < i {
                    assert(t[j] == s[j]);
                } else if j > i {
                    assert(t[j - 1] == s[j]);
                }
            }
        }
    }
}

/// Outside position `i`, the members of `s.remove(i)` keep their roles.
proof fn lemma_role_at_removed<A>(s: Seq<Member<A>>, i: int, k: usize)
    requires
        ascending(s),
        0 <= i < s.len(),
        k != s[i].id@,
    ensures
        ascending(s.remove(i)),
        role_at(s.remove(i), k) == role_at(s, k),
        (exists|j: int| 0 <= j < s.len() && s[j].id@ == k) <==> (exists|j: int|
            0 <= j < s.remove(i).len() && s.remove(i)[j].id@ == k),
{
    let t = s.remove(i);
    assert forall|a: int, b: int| 0 <= a < b < t.len() implies t[a].id@ < t[b].id@ by {
        let sa = if a < i { a } else { a + 1 };
        let sb = if b < i { b } else { b + 1 };
        assert(t[a] == s[sa] && t[b] == s[sb]);
    }
    if exists|j: int| 0 <= j < s.len() && s[j].id@ == k {
        let j = choose|j: int| 0 <= j < s.len() && s[j].id@ == k;
        lemma_role_at(s, j);
        let tj = if j < i { j } else { j - 1 };
        assert(t[tj] == s[j]);
        lemma_role_at(t, tj);
    } else {
        assert forall|j: int| 0 <= j < t.len() implies #[trigger] t[j].id@ != k by {
            let sj = if j < i { j } else { j + 1 };
            assert(t[j] == s[sj]);
        }
    }
}

/// Appending a member whose identifier is above all others gives it its role
/// and keeps everyone else's.
proof fn lemma_role_at_pushed<A>(s: Seq<Member<A>>, x: Member<A>, k: usize)
    requires
        ascending(s),
        forall|j: int| 0 <= j < s.len() ==> #[trigger] s[j].id@ < x.id@,
    ensures
        ascending(s.push(x)),
        role_at(s.push(x), k) == if k == x.id@ {
            x.role
        } else {
            role_at(s, k)
        },
{
    let t = s.push(x);
    assert forall|a: int, b: int| 0 <= a < b < t.len() implies t[a].id@ < t[b].id@ by {
        if b == s.len() {
            assert(t[a] == s[a]);
        }
    }
    if k == x.id@ {
        lemma_role_at(t, s.len() as int);
    } else if exists|j: int| 0 <= j < s.len() && s[j].id@ == k {
        let j = choose|j: int| 0 <= j < s.len() && s[j].id@ == k;
        lemma_role_at(s, j);
        assert(t[j] == s[j]);
        lemma_role_at(t, j);
    } else {
        assert forall|j: int| 0 <= j < t.len() implies #[trigger] t[j].id@ != k by {
            if j < s.len() {
                assert(t[j] == s[j]);
            }
        }
    }
}

/// A split leaves the ledger agreeing with the members after it.
pub proof fn lemma_replay_split<A>(
    m: Map<usize, Role>,
    s: Seq<Member<A>>,
    next: usize,
    i: int,
    a: Member<A>,
    b: Member<A>,
)
    requires
        ascending(s),
        agrees(m, s),
        ids_below(s, next),
        0 <= i < s.len(),
        a.id@ == next,
        b.id@ == next + 1,
        a.role == s[i].role,
        b.role == s[i].role,
    ensures
        agrees(
            apply_change(m, Change::Split { id: s[i].id, new_ids: (a.id, b.id) }),
            s.remove(i).push(a).push(b),
        ),
{
    let r = s.remove(i);
    let ra = r.push(a);
    let t = ra.push(b);
    let m2 = apply_change(m, Change::Split { id: s[i].id, new_ids: (a.id, b.id) });
    lemma_role_at(s, i);
    assert(recorded(m, s[i].id@) == s[i].role);
    assert(recorded(m, next) == role_at(s, next));
    assert(recorded(m, (next + 1) as usize) == role_at(s, (next + 1) as usize));
    assert forall|j: int| 0 <= j < s.len() implies #[trigger] s[j].id@ != next by {}
    assert forall|j: int| 0 <= j < s.len() implies #[trigger] s[j].id@ != next + 1 by {}
    lemma_role_at_absent(s, next);
    lemma_role_at_absent(s, (next + 1) as usize);
    assert forall|k: usize| #[trigger] recorded(m2, k) == role_at(t, k) by {
        assert(recorded(m, k) == role_at(s, k));
        if k != s[i].id@ {
            lemma_role_at_removed(s, i, k);
        } else {
            lemma_role_at_removed(s, i, next);
        }
        assert(forall|j: int| 0 <= j < r.len() ==> #[trigger] r[j].id@ < next) by {
            assert forall|j: int| 0 <= j < r.len() implies #[trigger] r[j].id@ < next by {
                let sj = if j < i { j } else { j + 1 };
                assert(r[j] == s[sj]);
            }
        }
        lemma_role_at_pushed(r, a, k);
        lemma_role_at_pushed(ra, b, k);
        if k == s[i].id@ {
            assert forall|j: int| 0 <= j < r.len() implies #[trigger] r[j].id@ != k by {
                let sj = if j < i { j } else { j + 1 };
                assert(r[j] == s[sj]);
                if sj < i {
                    assert(s[sj].id@ < s[i].id@);
                } else {
                    assert(s[i].id@ < s[sj].id@);
                }
            }
            lemma_role_at_absent(r, k);
            assert(s[i].id@ < next);
        }
    }
}

/// A merge of two members with the same role leaves the ledger agreeing with
/// the members after it.
pub proof fn lemma_replay_merge<A>(
    m: Map<usize, Role>,
    s: Seq<Member<A>>,
    next: usize,
    i: int,
    j: int,
    x: Member<A>,
)
    requires
        ascending(s),
        agrees(m, s),
        ids_below(s, next),
        0 <= i < s.len(),
        0 <= j < s.len(),
        i != j,
        s[i].role == s[j].role,
        x.id@ == next,
        x.role == s[i].role,
    ensures
        agrees(
            apply_change(m, Change::Merged { ids: (s[i].id, s[j].id), new_id: x.id }),
            without_pair(s, i, j).push(x),
        ),
{
    let hi = if i < j { j } else { i };
    let lo = if i < j { i } else { j };
    let r1 = s.remove(hi);
    let r = r1.remove(lo);
    let t = r.push(x);
    assert(r == without_pair(s, i, j));
    let m2 = apply_change(m, Change::Merged { ids: (s[i].id, s[j].id), new_id: x.id });
    lemma_role_at(s, i);
    lemma_role_at(s, j);
    assert(recorded(m, s[i].id@) == s[i].role);
    assert(recorded(m, s[j].id@) == s[j].role);
    assert(recorded(m, next) == role_at(s, next));
    assert forall|k: int| 0 <= k < s.len() implies #[trigger] s[k].id@ != next by {}
    lemma_role_at_absent(s, next);
    assert(s[lo].id@ < s[hi].id@);
    assert(r1[lo] == s[lo]);
    assert forall|k: usize| #[trigger] recorded(m2, k) == role_at(t, k) by {
        assert(recorded(m, k) == role_at(s, k));
        let kk = if k != s[hi].id@ && k != s[lo].id@ { k } else { next };
        lemma_role_at_removed(s, hi, kk);
        lemma_role_at_removed(r1, lo, kk);
        assert(forall|q: int| 0 <= q < r.len() ==> #[trigger] r[q].id@ < next) by {
            assert forall|q: int| 0 <= q < r.len() implies #[trigger] r[q].id@ < next by {
                let q1 = if q < lo { q } else { q + 1 };
                assert(r[q] == r1[q1]);
                let q0 = if q1 < hi { q1 } else { q1 + 1 };
                assert(r1[q1] == s[q0]);
            }
        }
        lemma_role_at_pushed(r, x, k);
        if k == s[hi].id@ || k == s[lo].id@ {
            assert forall|q: int| 0 <= q < r.len() implies #[trigger] r[q].id@ != k by {
                let q1 = if q < lo { q } else { q + 1 };
                assert(r[q] == r1[q1]);
                let q0 = if q1 < hi { q1 } else { q1 + 1 };
                assert(r1[q1] == s[q0]);
                assert(q0 != lo && q0 != hi);
                if q0 < lo {
                    assert(s[q0].id@ < s[lo].id@);
                } else if q0 < hi {
                    assert(s[lo].id@ < s[q0].id@);
                    assert(s[q0].id@ < s[hi].id@);
                } else {
                    assert(s[hi].id@ < s[q0].id@);
                }
            }
            lemma_role_at_absent(r, k);
            assert(s[lo].id@ < next && s[hi].id@ < next);
        }
    }
}

} // verus!
