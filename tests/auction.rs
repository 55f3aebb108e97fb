use rand::rngs::StdRng;
use rand::SeedableRng;
use stake_sim::auction::{rank, switch_odds, Proposal, RoleChange};
use stake_sim::id::{Id, IdGenerator};
use stake_sim::registry::Registry;
use stake_sim::role::{Pool, Role};

const B: Pool = Pool::BlockProducer;
const C: Pool = Pool::ChunkOnlyProducer;

const STAKES: [u64; 8] = [5000, 4000, 3000, 2000, 1000, 500, 100, 10];

fn population(stakes: &[u64]) -> Registry<u64> {
    let mut reg = Registry::new();
    for s in stakes {
        reg.enter(*s);
    }
    reg
}

fn stakes_of(reg: &Registry<u64>) -> Vec<u64> {
    (0..reg.len()).map(|i| reg.member(i).data).collect()
}

fn roles_of(reg: &Registry<u64>) -> Vec<Option<Role>> {
    (0..reg.len()).map(|i| reg.member(i).role).collect()
}

#[test]
fn ids_strictly_increase() {
    let mut gen = IdGenerator::default();
    let a = gen.next();
    let b = gen.next();
    let c = gen.next();
    assert_eq!(a, Id::explicit(0));
    assert_eq!(b, Id::explicit(1));
    assert_eq!(c, Id::explicit(2));
    assert!(a < b && b < c);
    assert_eq!(c.value(), 2);
}

#[test]
fn rank_orders_by_stake_then_id() {
    let p = |stake: u64, id: usize| Proposal { stake, id: Id::explicit(id) };
    let ranked = rank(&vec![p(10, 4), p(300, 2), p(300, 1), p(20, 0), p(300, 7)]);
    assert_eq!(ranked, vec![p(300, 1), p(300, 2), p(300, 7), p(20, 0), p(10, 4)]);
    assert!(rank(&vec![]).is_empty());
}

#[test]
fn assign_roles_fills_slots_and_delegates_round_robin() {
    let mut reg = population(&STAKES);
    let stakes = stakes_of(&reg);
    // Members 1, 2, 4, 6 bid for block production; 0, 3, 5, 7 for chunks.
    let pools = vec![C, B, B, C, B, C, B, C];
    let changes = reg.assign_roles(&stakes, &pools, 2, 2);
    let d = |n: usize| Some(Role::Delegator(Id::explicit(n)));
    let expected = vec![
        Some(Role::ChunkOnlyProducer),
        Some(Role::BlockProducer),
        Some(Role::BlockProducer),
        Some(Role::ChunkOnlyProducer),
        d(1),
        d(0),
        d(2),
        d(3),
    ];
    assert_eq!(roles_of(&reg), expected);
    // Every member changed from no role; block pool is reported first.
    assert_eq!(changes.len(), 8);
    assert_eq!(
        changes[0],
        RoleChange { id: Id::explicit(1), new_role: Some(Role::BlockProducer) }
    );
    assert_eq!(changes[3], RoleChange { id: Id::explicit(6), new_role: d(2) });
    assert_eq!(changes[4].id, Id::explicit(0));
}

#[test]
fn unchanged_roles_emit_no_change() {
    let mut reg = population(&STAKES);
    let stakes = stakes_of(&reg);
    let pools = vec![C, B, B, C, B, C, B, C];
    reg.assign_roles(&stakes, &pools, 2, 2);
    let again = reg.assign_roles(&stakes, &pools, 2, 2);
    assert!(again.is_empty());
    // Moving member 6 to the chunk pool shifts the round robin after it:
    // 6 now delegates to 3, and 7 to 0; the others keep their roles.
    let pools = vec![C, B, B, C, B, C, C, C];
    let changes = reg.assign_roles(&stakes, &pools, 2, 2);
    let d = |n: usize| Some(Role::Delegator(Id::explicit(n)));
    assert_eq!(
        changes,
        vec![
            RoleChange { id: Id::explicit(6), new_role: d(3) },
            RoleChange { id: Id::explicit(7), new_role: d(0) },
        ]
    );
}

#[test]
fn zero_slots_leave_pool_without_roles() {
    let mut reg = population(&[30, 20, 10]);
    let stakes = stakes_of(&reg);
    let pools = vec![Pool::BlockProducer; 3];
    reg.assign_roles(&stakes, &pools, 0, 1);
    assert_eq!(roles_of(&reg), vec![None, None, None]);
}

#[test]
fn update_roles_is_reproducible_and_respects_slots() {
    let run = || {
        let mut reg = population(&STAKES);
        let stakes = stakes_of(&reg);
        let content = vec![true; 8];
        let mut rng = StdRng::seed_from_u64(7);
        let changes = reg.update_roles(&stakes, &content, 2, 2, &mut rng);
        (roles_of(&reg), changes)
    };
    let (roles, changes) = run();
    assert_eq!(run(), (roles.clone(), changes.clone()));
    assert_eq!(changes.len(), 8);
    let count = |r: Role| roles.iter().filter(|x| **x == Some(r)).count();
    assert!(count(Role::BlockProducer) <= 2);
    assert!(count(Role::ChunkOnlyProducer) <= 2);
    for r in &roles {
        match r {
            Some(Role::Delegator(t)) => {
                let target = roles[t.value()];
                assert!(matches!(
                    target,
                    Some(Role::BlockProducer) | Some(Role::ChunkOnlyProducer)
                ));
            }
            Some(_) => {}
            None => panic!("every participant bids in some pool"),
        }
    }
    // Within each pool, the two highest stakes win and the rest delegate to
    // the winners in turn, in stake order.
    let pool_of = |r: &Option<Role>| match r {
        Some(Role::Delegator(t)) => roles[t.value()].unwrap(),
        Some(r) => *r,
        None => unreachable!(),
    };
    for winner in [Role::BlockProducer, Role::ChunkOnlyProducer] {
        let mut members: Vec<usize> = (0..8).filter(|i| pool_of(&roles[*i]) == winner).collect();
        members.sort_by(|a, b| STAKES[*b].cmp(&STAKES[*a]));
        for (k, m) in members.iter().enumerate() {
            let expected = if k < 2 {
                Some(winner)
            } else {
                Some(Role::Delegator(Id::explicit(members[(k - 2) % 2])))
            };
            assert_eq!(roles[*m], expected);
        }
    }
}

#[test]
fn switch_odds_depend_on_contentment() {
    assert_eq!(switch_odds(true), 1);
    assert_eq!(switch_odds(false), 5);
}
