use battle_server::identity::Unit;
use battle_server::registry::UnitRegistry;
use battle_server::scheduler::{schedule_ai, schedule_ffa};
use battle_server::session::{
    ServerBattleState, SessionAction, SessionMsg, TurnStep, TICKS_PER_TURN,
};

fn expected_script(unmanned: &[usize]) -> Vec<TurnStep> {
    let mut steps: Vec<TurnStep> = unmanned.iter().map(|i| TurnStep::RunAi(*i)).collect();
    steps.push(TurnStep::ServerPreprocess);
    steps.push(TurnStep::BroadcastResults);
    steps.push(TurnStep::BeforeSimulation);
    for t in 0..100u32 {
        steps.push(TurnStep::ApplyTick(t));
    }
    steps.push(TurnStep::AfterSimulation);
    steps
}

#[test]
fn late_joiner_waits_until_the_turn_is_resolved() {
    let mut session = schedule_ffa(&vec![1, 2]);
    assert!(session.is_active(1) && session.is_active(2));
    match session.handle(SessionMsg::Plan(1)) {
        SessionAction::ReadPlan { from, unit } => {
            assert_eq!(from, 1);
            assert_eq!(unit, 0);
        }
        other => panic!("expected ReadPlan, got {:?}", other),
    }
    match session.handle(SessionMsg::Joined(3)) {
        SessionAction::SendRoster { to, units } => {
            assert_eq!(to, 3);
            assert_eq!(
                units,
                vec![
                    Unit { id: 1, client: Some(1) },
                    Unit { id: 2, client: Some(2) },
                    Unit { id: 3, client: Some(3) },
                ]
            );
        }
        other => panic!("expected SendRoster, got {:?}", other),
    }
    assert!(session.is_waiting(3));
    assert!(!session.is_active(3));
    assert_eq!(session.waiting_count(), 1);
    assert_eq!(session.active_count(), 2);
    assert_eq!(session.turn_number(), 0);
    match session.handle(SessionMsg::Plan(2)) {
        SessionAction::ResolveTurn { from, unit, steps, mut audience } => {
            assert_eq!(from, 2);
            assert_eq!(unit, 1);
            assert_eq!(steps, expected_script(&[]));
            audience.sort();
            assert_eq!(audience, vec![1, 2, 3]);
        }
        other => panic!("expected ResolveTurn, got {:?}", other),
    }
    assert_eq!(session.turn_number(), 1);
    assert!(session.is_active(1) && session.is_active(2) && session.is_active(3));
    assert_eq!(session.active_count(), 3);
    assert_eq!(session.waiting_count(), 0);
    assert_eq!(session.received_count(), 0);
}

#[test]
fn joiner_before_the_first_plan_is_active_in_turn_zero() {
    let mut session = schedule_ffa(&vec![1, 2]);
    let roster = session.on_join(3);
    assert_eq!(roster.len(), 3);
    assert!(session.is_active(3));
    assert!(!session.is_waiting(3));
    assert_eq!(session.turn_number(), 0);
    assert!(matches!(session.on_plan(1), SessionAction::ReadPlan { from: 1, unit: 0 }));
    assert!(matches!(session.on_plan(2), SessionAction::ReadPlan { from: 2, unit: 1 }));
    assert_eq!(session.turn_number(), 0);
    assert!(matches!(session.on_plan(3), SessionAction::ResolveTurn { from: 3, unit: 2, .. }));
    assert_eq!(session.turn_number(), 1);
}

#[test]
fn joiner_in_a_later_turn_waits() {
    let mut session = schedule_ai(1);
    assert!(matches!(session.on_plan(1), SessionAction::ResolveTurn { .. }));
    assert_eq!(session.turn_number(), 1);
    session.on_join(2);
    assert!(session.is_waiting(2));
    assert!(!session.is_active(2));
    assert!(matches!(session.on_plan(2), SessionAction::Ignore));
    assert!(!session.has_submitted(2));
    assert_eq!(session.turn_number(), 1);
    assert!(matches!(session.on_plan(1), SessionAction::ResolveTurn { .. }));
    assert_eq!(session.turn_number(), 2);
    assert!(session.is_active(2));
    assert!(matches!(session.on_plan(1), SessionAction::ReadPlan { .. }));
    assert!(matches!(session.on_plan(2), SessionAction::ResolveTurn { from: 2, unit: 2, .. }));
    assert_eq!(session.turn_number(), 3);
}

#[test]
fn a_repeated_plan_does_not_count_twice() {
    let mut session = schedule_ffa(&vec![1, 2, 3]);
    assert!(matches!(session.on_plan(1), SessionAction::ReadPlan { from: 1, unit: 0 }));
    assert_eq!(session.received_count(), 1);
    assert!(matches!(session.on_plan(1), SessionAction::ReadPlan { from: 1, unit: 0 }));
    assert!(matches!(session.on_plan(1), SessionAction::ReadPlan { from: 1, unit: 0 }));
    assert_eq!(session.received_count(), 1);
    assert!(session.has_submitted(1));
    assert_eq!(session.turn_number(), 0);
    assert!(matches!(session.on_plan(3), SessionAction::ReadPlan { from: 3, unit: 2 }));
    assert_eq!(session.received_count(), 2);
    assert!(matches!(session.on_plan(2), SessionAction::ResolveTurn { from: 2, unit: 1, .. }));
    assert_eq!(session.turn_number(), 1);
    assert_eq!(session.received_count(), 0);
}

#[test]
fn the_order_of_arrival_of_plans_does_not_matter() {
    for order in [[1u32, 2, 3], [3, 2, 1], [2, 3, 1], [2, 1, 3]] {
        let mut session = schedule_ffa(&vec![1, 2, 3]);
        assert!(matches!(session.on_plan(order[0]), SessionAction::ReadPlan { .. }));
        assert!(matches!(session.on_plan(order[1]), SessionAction::ReadPlan { .. }));
        assert!(matches!(session.on_plan(order[2]), SessionAction::ResolveTurn { .. }));
        assert_eq!(session.turn_number(), 1);
    }
}

#[test]
fn a_plan_of_a_stranger_is_dropped() {
    let mut session = schedule_ffa(&vec![1, 2]);
    assert!(matches!(session.handle(SessionMsg::Plan(9)), SessionAction::Ignore));
    assert_eq!(session.received_count(), 0);
    assert!(!session.has_submitted(9));
    assert_eq!(session.roster().len(), 2);
}

#[test]
fn malformed_packets_and_lost_connections_change_nothing() {
    let mut session = schedule_ffa(&vec![1, 2]);
    session.on_plan(1);
    assert!(matches!(session.handle(SessionMsg::Malformed(2)), SessionAction::Ignore));
    assert!(matches!(session.handle(SessionMsg::Disconnected(2)), SessionAction::Ignore));
    assert!(session.is_active(2));
    assert_eq!(session.active_count(), 2);
    assert_eq!(session.received_count(), 1);
    assert_eq!(session.turn_number(), 0);
    assert!(matches!(session.handle(SessionMsg::Plan(2)), SessionAction::ResolveTurn { .. }));
}

#[test]
fn a_member_who_joins_again_gets_the_roster_and_no_second_unit() {
    let mut session = schedule_ffa(&vec![1, 2]);
    let roster = session.on_join(1);
    assert_eq!(roster, vec![Unit { id: 1, client: Some(1) }, Unit { id: 2, client: Some(2) }]);
    assert_eq!(session.active_count(), 2);
    session.on_plan(1);
    session.on_join(3);
    let roster = session.on_join(3);
    assert_eq!(roster.len(), 3);
    assert_eq!(session.waiting_count(), 1);
}

#[test]
fn the_turn_script_plans_for_unmanned_units_then_simulates() {
    let mut session = schedule_ai(7);
    assert_eq!(session.turn_steps(), expected_script(&[1]));
    match session.on_plan(7) {
        SessionAction::ResolveTurn { from, unit, steps, audience } => {
            assert_eq!(audience, vec![7]);
            assert_eq!(from, 7);
            assert_eq!(unit, 0);
            assert_eq!(steps.len(), 1 + 3 + 100 + 1);
            assert_eq!(steps[0], TurnStep::RunAi(1));
            assert_eq!(steps[1], TurnStep::ServerPreprocess);
            assert_eq!(steps[2], TurnStep::BroadcastResults);
            assert_eq!(steps[3], TurnStep::BeforeSimulation);
            for t in 0..TICKS_PER_TURN {
                assert_eq!(steps[4 + t as usize], TurnStep::ApplyTick(t));
            }
            assert_eq!(steps[104], TurnStep::AfterSimulation);
        }
        other => panic!("expected ResolveTurn, got {:?}", other),
    }
}

#[test]
fn every_unmanned_unit_gets_a_plan_in_registry_order() {
    let mut registry = UnitRegistry::new();
    assert!(registry.add_ai_unit(5));
    assert!(registry.add_participant_unit(1));
    assert!(registry.add_ai_unit(1));
    assert!(!registry.add_ai_unit(5));
    assert!(!registry.add_participant_unit(1));
    assert!(registry.add_participant_unit(2));
    assert!(registry.add_ai_unit(2));
    assert_eq!(registry.len(), 5);
    assert_eq!(registry.unmanned(), vec![0, 2, 4]);
    assert_eq!(registry.index_of(2), Some(3));
    assert_eq!(registry.index_of(5), None);
    assert_eq!(registry.get(0), Some(Unit { id: 0x1_0000_0005, client: None }));
    assert_eq!(registry.get(5), None);
    assert!(registry.contains_id(0x1_0000_0002));
    assert!(!registry.contains_id(5));
    let session = ServerBattleState::new(registry);
    assert_eq!(session.active_count(), 2);
    assert!(session.is_active(1) && session.is_active(2));
    assert!(!session.is_active(5));
    assert_eq!(session.turn_steps(), expected_script(&[0, 2, 4]));
}

#[test]
fn a_session_without_participants_never_resolves() {
    let mut session = ServerBattleState::new(UnitRegistry::new());
    assert_eq!(session.active_count(), 0);
    assert!(matches!(session.on_plan(1), SessionAction::Ignore));
    assert_eq!(session.turn_number(), 0);
    session.on_join(1);
    assert!(session.is_active(1));
    assert!(matches!(session.on_plan(1), SessionAction::ResolveTurn { from: 1, unit: 0, .. }));
    assert_eq!(session.turn_number(), 1);
}
