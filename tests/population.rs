use rand::rngs::StdRng;
use rand::SeedableRng;
use stake_sim::dynamics::Dynamics;
use stake_sim::events::{EventAccumulator, EventBlackHole, EventConsumer};
use stake_sim::id::Id;
use stake_sim::ledger::{Change, RoleLedger};
use stake_sim::registry::Registry;
use stake_sim::role::{Pool, Role};
use stake_sim::settle::Support;

const B: Pool = Pool::BlockProducer;
const C: Pool = Pool::ChunkOnlyProducer;

fn population(stakes: &[u64]) -> Registry<u64> {
    let mut reg = Registry::new();
    for s in stakes {
        reg.enter(*s);
    }
    reg
}

fn stakes_of(reg: &Registry<u64>) -> Vec<u64> {
    (0..reg.len()).map(|i| reg.member(i).data).collect()
}

fn roles_of(reg: &Registry<u64>) -> Vec<Option<Role>> {
    (0..reg.len()).map(|i| reg.member(i).role).collect()
}

fn d(n: usize) -> Option<Role> {
    Some(Role::Delegator(Id::explicit(n)))
}

/// One block producer (0), one chunk-only producer (1), two delegators to the
/// chunk-only producer (2, 3) and one to the block producer (4).
fn five_participants() -> Registry<u64> {
    let mut reg = population(&[5000, 2000, 1000, 100, 10]);
    let stakes = stakes_of(&reg);
    reg.assign_roles(&stakes, &vec![B, C, C, C, B], 1, 1);
    reg
}

#[test]
fn test_update_roles() {
    let mut reg = population(&[5000, 4000, 3000, 2000, 1000, 500, 100, 10]);
    let stakes = stakes_of(&reg);
    // Top two proposals of each pool win it, the others delegate to a winner
    // of their pool in turn.
    let changes = reg.assign_roles(&stakes, &vec![C, B, B, C, C, C, B, B], 2, 2);
    let expected_roles = vec![
        Some(Role::ChunkOnlyProducer),
        Some(Role::BlockProducer),
        Some(Role::BlockProducer),
        Some(Role::ChunkOnlyProducer),
        d(0),
        d(3),
        d(1),
        d(2),
    ];
    assert_eq!(roles_of(&reg), expected_roles);
    assert_eq!(changes.len(), 8);
    for c in &changes {
        assert_eq!(Some(c.new_role), expected_roles.get(c.id.value()).copied());
    }
}

#[test]
fn registry_finds_and_removes_by_id() {
    let mut reg = population(&[7, 8, 9]);
    assert_eq!(reg.len(), 3);
    assert_eq!(reg.find(Id::explicit(1)), Some(1));
    assert_eq!(reg.find(Id::explicit(3)), None);
    let gone = reg.remove(Id::explicit(1)).unwrap();
    assert_eq!(gone.data, 8);
    assert_eq!(reg.find(Id::explicit(2)), Some(1));
    assert!(reg.remove(Id::explicit(1)).is_none());
    // identifiers are never reused
    assert_eq!(reg.enter(10), Id::explicit(3));
    assert_eq!(reg.position(Id::explicit(3)), 2);
    assert_eq!(reg.fresh_ids_left(), usize::MAX - 4);
}

#[test]
fn split_hands_role_to_two_fresh_ids() {
    let mut reg = five_participants();
    let (a, b) = reg.split(1, 1000, 1000);
    assert_eq!((a, b), (Id::explicit(5), Id::explicit(6)));
    assert_eq!(reg.find(Id::explicit(1)), None);
    assert_eq!(reg.len(), 6);
    assert_eq!(reg.role_of(a), Some(Role::ChunkOnlyProducer));
    assert_eq!(reg.role_of(b), Some(Role::ChunkOnlyProducer));
    assert_eq!(reg.member(4).data, 1000);
    assert_eq!(reg.member(5).data, 1000);
}

#[test]
fn merge_joins_first_member_with_same_role() {
    let mut reg = five_participants();
    // 2 and 3 both delegate to 1
    assert_eq!(reg.merge_partner(3), Some(2));
    assert_eq!(reg.merge_partner(2), Some(3));
    // nobody else is a block producer
    assert_eq!(reg.merge_partner(0), None);
    let new_id = reg.merge(3, 2, 1100);
    assert_eq!(new_id, Id::explicit(5));
    assert_eq!(reg.len(), 4);
    assert_eq!(reg.role_of(new_id), d(1));
    assert_eq!(reg.find(Id::explicit(2)), None);
    assert_eq!(reg.find(Id::explicit(3)), None);
    assert_eq!(reg.member(3).data, 1100);
}

#[test]
fn plan_dynamics_draws_valid_positions() {
    let empty: Registry<u64> = Registry::new();
    let mut rng = StdRng::seed_from_u64(11);
    assert_eq!(empty.plan_dynamics(&mut rng), Dynamics::Enter { base: None });
    let reg = five_participants();
    let mut seen = [false; 3];
    for _ in 0..200 {
        match reg.plan_dynamics(&mut rng) {
            Dynamics::Enter { base } => {
                assert!(base.unwrap() < 5);
                seen[0] = true;
            }
            Dynamics::Split { index } => {
                assert!(index < 5);
                seen[1] = true;
            }
            Dynamics::Merge { index, partner } => {
                assert!(index < 5);
                assert_eq!(partner, reg.merge_partner(index));
                seen[2] = true;
            }
        }
    }
    assert_eq!(seen, [true, true, true]);
}

#[test]
fn five_participants_all_take_part_in_settlement() {
    let reg = five_participants();
    let supports = reg.supports();
    assert_eq!(
        supports,
        vec![
            Support::Own(B),
            Support::Own(C),
            Support::Delegated { target: 1, pool: C },
            Support::Delegated { target: 1, pool: C },
            Support::Delegated { target: 0, pool: B },
        ]
    );
    // The stakes that the reward formulas divide by.
    let stakes = stakes_of(&reg);
    let mut effective = stakes.clone();
    let (mut total_bp, mut total_cop) = (0, 0);
    for (i, s) in supports.iter().enumerate() {
        match *s {
            Support::Idle => {}
            Support::Own(p) => {
                if p == B {
                    total_bp += stakes[i]
                } else {
                    total_cop += stakes[i]
                }
            }
            Support::Delegated { target, pool } => {
                effective[target] += stakes[i];
                if pool == B {
                    total_bp += stakes[i]
                } else {
                    total_cop += stakes[i]
                }
            }
        }
    }
    assert_eq!((total_bp, total_cop), (5010, 3100));
    assert_eq!(effective, vec![5010, 3100, 1000, 100, 10]);
}

#[test]
fn delegation_to_inactive_target_is_inert() {
    let mut reg = five_participants();
    // The block producer leaves; its delegator now points at nobody.
    reg.remove(Id::explicit(0));
    assert!(!reg.targets_registered());
    // Chunk-only producer 1 splits: its delegators point at a retired id.
    reg.split(0, 1000, 1000);
    assert!(!reg.targets_registered());
    // The next auction points every delegator at a registered winner.
    let stakes = stakes_of(&reg);
    reg.assign_roles(&stakes, &vec![C, C, C, C, C], 1, 1);
    assert!(reg.targets_registered());
    assert_eq!(reg.supports()[3], Support::Delegated { target: 0, pool: C });
    // A delegator to a participant without a role is inert too.
    let mut reg = population(&[50, 40, 30]);
    let stakes = stakes_of(&reg);
    reg.assign_roles(&stakes, &vec![B, B, C], 1, 0);
    assert_eq!(roles_of(&reg), vec![Some(Role::BlockProducer), d(0), None]);
    assert_eq!(reg.supports()[1], Support::Delegated { target: 0, pool: B });
    reg.assign_roles(&stakes, &vec![C, B, C], 1, 0);
    assert_eq!(roles_of(&reg), vec![None, Some(Role::BlockProducer), None]);
    assert_eq!(reg.supports(), vec![Support::Idle, Support::Own(B), Support::Idle]);
}

#[test]
fn replayed_ledger_classifies_like_settlement() {
    let mut reg = population(&[5000, 2000, 1000, 100, 10]);
    let mut ledger = RoleLedger::new();
    for i in 0..reg.len() {
        assert!(ledger.apply(Change::Created { id: reg.member(i).id }));
    }
    let stakes = stakes_of(&reg);
    for c in reg.assign_roles(&stakes, &vec![B, C, C, C, B], 1, 1) {
        assert!(ledger.apply(Change::RoleChanged { id: c.id, new_role: c.new_role }));
    }
    let supports = reg.supports();
    for i in 0..reg.len() {
        let id = reg.member(i).id;
        assert_eq!(ledger.role(id), reg.role_of(id));
        let expected = match supports[i] {
            Support::Idle => None,
            Support::Own(p) => Some((p, false)),
            Support::Delegated { pool, .. } => Some((pool, true)),
        };
        assert_eq!(ledger.stake_class(id), expected);
    }
    let (a, b) = reg.split(1, 1000, 1000);
    ledger.apply(Change::Split { id: Id::explicit(1), new_ids: (a, b) });
    let n = reg.merge(1, 2, 1100);
    assert!(ledger.apply(Change::Merged { ids: (Id::explicit(2), Id::explicit(3)), new_id: n }));
    for i in 0..reg.len() {
        let id = reg.member(i).id;
        assert_eq!(ledger.role(id), reg.role_of(id));
    }
    // the merged delegator still points at the retired chunk-only producer
    assert_eq!(ledger.role(n), d(1));
    assert_eq!(ledger.stake_class(n), None);
    // the block producer goes bankrupt: its delegator stops counting
    reg.remove(Id::explicit(0));
    ledger.apply(Change::Bankrupt { id: Id::explicit(0) });
    assert_eq!(ledger.role(Id::explicit(0)), None);
    assert_eq!(ledger.stake_class(Id::explicit(4)), None);
    assert!(!reg.targets_registered());
}

#[test]
fn ledger_flags_merge_of_different_roles() {
    let mut ledger = RoleLedger::new();
    ledger.apply(Change::RoleChanged { id: Id::explicit(0), new_role: Some(Role::BlockProducer) });
    let cop = Some(Role::ChunkOnlyProducer);
    ledger.apply(Change::RoleChanged { id: Id::explicit(1), new_role: cop });
    let ok = ledger.apply(Change::Merged {
        ids: (Id::explicit(0), Id::explicit(1)),
        new_id: Id::explicit(2),
    });
    assert!(!ok);
    // no role is carried over
    assert_eq!(ledger.role(Id::explicit(2)), None);
    assert_eq!(ledger.role(Id::explicit(0)), None);
    assert_eq!(ledger.role(Id::explicit(1)), None);
    assert_eq!(ledger.stake_class(Id::explicit(2)), None);
    // a merge of two participants with the same role carries it
    ledger.apply(Change::RoleChanged { id: Id::explicit(3), new_role: d(2) });
    ledger.apply(Change::RoleChanged { id: Id::explicit(4), new_role: d(2) });
    let ids = (Id::explicit(3), Id::explicit(4));
    assert!(ledger.apply(Change::Merged { ids, new_id: Id::explicit(5) }));
    assert_eq!(ledger.role(Id::explicit(5)), Some(Role::Delegator(Id::explicit(2))));
}

#[test]
fn accumulator_keeps_events_in_order() {
    let mut log: EventAccumulator<Change> = EventAccumulator::default();
    let mut hole = EventBlackHole;
    for n in 0..3 {
        let c = Change::Created { id: Id::explicit(n) };
        log.push(c);
        hole.push(c);
    }
    let ids: Vec<usize> = log
        .events
        .iter()
        .map(|c| match c {
            Change::Created { id } => id.value(),
            _ => panic!("only creations were pushed"),
        })
        .collect();
    assert_eq!(ids, vec![0, 1, 2]);
}

#[test]
fn each_draw_leads_to_its_own_step() {
    let reg = five_participants();
    assert_eq!(reg.dynamics_for(0, 2), Dynamics::Enter { base: Some(2) });
    assert_eq!(reg.dynamics_for(1, 3), Dynamics::Split { index: 3 });
    assert_eq!(reg.dynamics_for(2, 3), Dynamics::Merge { index: 3, partner: Some(2) });
    assert_eq!(reg.dynamics_for(2, 4), Dynamics::Merge { index: 4, partner: None });
}
