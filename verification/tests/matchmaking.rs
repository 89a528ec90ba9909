use battle_server::identity::{ai_unit_id, participant_unit_id, Unit, AI_UNIT_BASE};
use battle_server::scheduler::{
    schedule_ai, schedule_ffa, BattleMode, BattleScheduler, LobbyAction, LobbyMsg,
};
use battle_server::session::ServerBattleState;

fn ffa(party_size: u8) -> BattleMode {
    BattleMode::FreeForAll { party_size }
}

fn expect_launch(action: LobbyAction) -> (Vec<u32>, ServerBattleState) {
    match action {
        LobbyAction::Launch { participants, session } => (participants, session),
        LobbyAction::Ignore => panic!("expected a launch, got Ignore"),
        LobbyAction::Wait => panic!("expected a launch, got Wait"),
        LobbyAction::DropConnection(p) => panic!("expected a launch, got DropConnection({})", p),
    }
}

#[test]
fn three_requests_for_three_launch_one_session() {
    let mut scheduler = BattleScheduler::new();
    assert!(matches!(scheduler.on_mode_request(1, ffa(3)), LobbyAction::Wait));
    assert!(matches!(scheduler.on_mode_request(2, ffa(3)), LobbyAction::Wait));
    assert_eq!(scheduler.waiting_for(3), vec![1, 2]);
    let (participants, session) = expect_launch(scheduler.on_mode_request(3, ffa(3)));
    assert_eq!(participants, vec![1, 2, 3]);
    assert_eq!(session.active_count(), 3);
    assert!(session.is_active(1) && session.is_active(2) && session.is_active(3));
    assert_eq!(session.waiting_count(), 0);
    assert_eq!(session.received_count(), 0);
    assert_eq!(session.turn_number(), 0);
    assert_eq!(
        session.roster(),
        vec![
            Unit { id: 1, client: Some(1) },
            Unit { id: 2, client: Some(2) },
            Unit { id: 3, client: Some(3) },
        ]
    );
    assert_eq!(scheduler.waiting_for(3), Vec::<u32>::new());
}

#[test]
fn fourth_request_starts_a_new_bucket() {
    let mut scheduler = BattleScheduler::new();
    scheduler.on_mode_request(1, ffa(3));
    scheduler.on_mode_request(2, ffa(3));
    expect_launch(scheduler.on_mode_request(3, ffa(3)));
    assert!(matches!(scheduler.on_mode_request(4, ffa(3)), LobbyAction::Wait));
    assert_eq!(scheduler.waiting_for(3), vec![4]);
    assert_eq!(scheduler.waiting_in(4), Some(3));
    assert!(matches!(scheduler.on_mode_request(5, ffa(3)), LobbyAction::Wait));
    let (participants, session) = expect_launch(scheduler.on_mode_request(6, ffa(3)));
    assert_eq!(participants, vec![4, 5, 6]);
    assert!(!session.is_active(1));
    assert!(session.is_active(4) && session.is_active(5) && session.is_active(6));
    assert_eq!(scheduler.waiting_for(3), Vec::<u32>::new());
}

#[test]
fn a_party_is_launched_at_every_kth_request() {
    let mut scheduler = BattleScheduler::new();
    let mut launched: Vec<Vec<u32>> = Vec::new();
    for p in 10u32..17 {
        match scheduler.on_mode_request(p, ffa(2)) {
            LobbyAction::Launch { participants, .. } => launched.push(participants),
            LobbyAction::Wait => {}
            _ => panic!("unexpected action"),
        }
    }
    assert_eq!(launched, vec![vec![10, 11], vec![12, 13], vec![14, 15]]);
    assert_eq!(scheduler.waiting_for(2), vec![16]);
}

#[test]
fn ai_match_is_served_at_once() {
    let mut scheduler = BattleScheduler::new();
    let (participants, session) = expect_launch(scheduler.on_mode_request(9, BattleMode::AIMatch));
    assert_eq!(participants, vec![9]);
    assert_eq!(session.active_count(), 1);
    assert!(session.is_active(9));
    assert_eq!(session.waiting_count(), 0);
    assert_eq!(session.turn_number(), 0);
    assert_eq!(
        session.roster(),
        vec![Unit { id: 9, client: Some(9) }, Unit { id: 0x1_0000_0009, client: None }]
    );
    assert_eq!(scheduler.waiting_in(9), None);
}

#[test]
fn every_ai_match_request_gets_its_own_session() {
    let mut scheduler = BattleScheduler::new();
    for p in [4u32, 5, 6] {
        let (participants, session) = expect_launch(scheduler.handle(LobbyMsg::ModeRequest(
            p,
            BattleMode::AIMatch,
        )));
        assert_eq!(participants, vec![p]);
        assert_eq!(session.roster().len(), 2);
        assert_eq!(session.roster()[0].client, Some(p));
        assert_eq!(session.roster()[1].client, None);
    }
}

#[test]
fn ai_match_takes_the_participant_out_of_their_bucket() {
    let mut scheduler = BattleScheduler::new();
    scheduler.on_mode_request(1, ffa(3));
    scheduler.on_mode_request(2, ffa(3));
    let (participants, _) = expect_launch(scheduler.on_mode_request(1, BattleMode::AIMatch));
    assert_eq!(participants, vec![1]);
    assert_eq!(scheduler.waiting_for(3), vec![2]);
    assert_eq!(scheduler.waiting_in(1), None);
    assert!(matches!(scheduler.on_mode_request(3, ffa(3)), LobbyAction::Wait));
    assert_eq!(scheduler.waiting_for(3), vec![2, 3]);
}

#[test]
fn party_of_one_is_launched_at_once() {
    let mut scheduler = BattleScheduler::new();
    let (participants, session) = expect_launch(scheduler.on_mode_request(7, ffa(1)));
    assert_eq!(participants, vec![7]);
    assert_eq!(session.roster(), vec![Unit { id: 7, client: Some(7) }]);
    assert_eq!(scheduler.waiting_for(1), Vec::<u32>::new());
}

#[test]
fn party_of_zero_is_never_launched() {
    let mut scheduler = BattleScheduler::new();
    for p in 0u32..5 {
        assert!(matches!(scheduler.on_mode_request(p, ffa(0)), LobbyAction::Wait));
    }
    assert_eq!(scheduler.waiting_for(0), vec![0, 1, 2, 3, 4]);
}

#[test]
fn party_sizes_do_not_interact() {
    let mut scheduler = BattleScheduler::new();
    assert!(matches!(scheduler.on_mode_request(1, ffa(2)), LobbyAction::Wait));
    assert!(matches!(scheduler.on_mode_request(2, ffa(3)), LobbyAction::Wait));
    assert!(matches!(scheduler.on_mode_request(3, ffa(3)), LobbyAction::Wait));
    assert_eq!(scheduler.waiting_for(2), vec![1]);
    assert_eq!(scheduler.waiting_for(3), vec![2, 3]);
    let (participants, _) = expect_launch(scheduler.on_mode_request(4, ffa(2)));
    assert_eq!(participants, vec![1, 4]);
    assert_eq!(scheduler.waiting_for(3), vec![2, 3]);
}

#[test]
fn a_repeated_request_counts_once() {
    let mut scheduler = BattleScheduler::new();
    assert!(matches!(scheduler.on_mode_request(1, ffa(3)), LobbyAction::Wait));
    assert!(matches!(scheduler.on_mode_request(2, ffa(3)), LobbyAction::Wait));
    assert!(matches!(scheduler.on_mode_request(1, ffa(3)), LobbyAction::Wait));
    assert!(matches!(scheduler.on_mode_request(1, ffa(3)), LobbyAction::Wait));
    assert_eq!(scheduler.waiting_for(3), vec![2, 1]);
    let (participants, _) = expect_launch(scheduler.on_mode_request(3, ffa(3)));
    assert_eq!(participants, vec![2, 1, 3]);
}

#[test]
fn the_latest_request_moves_the_participant() {
    let mut scheduler = BattleScheduler::new();
    scheduler.on_mode_request(1, ffa(3));
    scheduler.on_mode_request(2, ffa(3));
    assert!(matches!(scheduler.on_mode_request(2, ffa(4)), LobbyAction::Wait));
    assert_eq!(scheduler.waiting_for(3), vec![1]);
    assert_eq!(scheduler.waiting_for(4), vec![2]);
    assert_eq!(scheduler.waiting_in(2), Some(4));
}

#[test]
fn a_disconnected_participant_leaves_the_bucket() {
    let mut scheduler = BattleScheduler::new();
    scheduler.on_mode_request(1, ffa(3));
    scheduler.on_mode_request(2, ffa(3));
    assert!(scheduler.on_disconnect(1));
    assert!(!scheduler.on_disconnect(1));
    assert_eq!(scheduler.waiting_for(3), vec![2]);
    assert!(matches!(scheduler.on_mode_request(3, ffa(3)), LobbyAction::Wait));
    let (participants, _) = expect_launch(scheduler.on_mode_request(4, ffa(3)));
    assert_eq!(participants, vec![2, 3, 4]);
}

#[test]
fn handle_dispatches_every_kind_of_event() {
    let mut scheduler = BattleScheduler::new();
    assert!(matches!(scheduler.handle(LobbyMsg::Joined(1)), LobbyAction::Ignore));
    assert_eq!(scheduler.waiting_in(1), None);
    assert!(matches!(scheduler.handle(LobbyMsg::ModeRequest(1, ffa(2))), LobbyAction::Wait));
    assert!(matches!(scheduler.handle(LobbyMsg::Disconnected(1)), LobbyAction::Ignore));
    assert_eq!(scheduler.waiting_for(2), Vec::<u32>::new());
    assert!(matches!(scheduler.handle(LobbyMsg::ModeRequest(2, ffa(2))), LobbyAction::Wait));
    let (participants, _) = expect_launch(scheduler.handle(LobbyMsg::ModeRequest(3, ffa(2))));
    assert_eq!(participants, vec![2, 3]);
}

#[test]
fn a_malformed_packet_costs_only_its_sender_the_connection() {
    let mut scheduler = BattleScheduler::new();
    scheduler.on_mode_request(1, ffa(3));
    scheduler.on_mode_request(2, ffa(3));
    match scheduler.handle(LobbyMsg::Malformed(2)) {
        LobbyAction::DropConnection(p) => assert_eq!(p, 2),
        _ => panic!("expected DropConnection"),
    }
    assert_eq!(scheduler.waiting_for(3), vec![1]);
    match scheduler.handle(LobbyMsg::Malformed(8)) {
        LobbyAction::DropConnection(p) => assert_eq!(p, 8),
        _ => panic!("expected DropConnection"),
    }
    assert_eq!(scheduler.waiting_for(3), vec![1]);
}

#[test]
fn schedule_ffa_gives_each_client_one_unit() {
    let session = schedule_ffa(&vec![5, 3, 5, 8]);
    assert_eq!(
        session.roster(),
        vec![
            Unit { id: 5, client: Some(5) },
            Unit { id: 3, client: Some(3) },
            Unit { id: 8, client: Some(8) },
        ]
    );
    assert_eq!(session.active_count(), 3);
    assert_eq!(session.unit_of(8), Some(2));
    assert_eq!(session.unit_of(4), None);
}

#[test]
fn schedule_ai_pairs_the_participant_with_an_unmanned_unit() {
    let session = schedule_ai(u32::MAX);
    let roster = session.roster();
    assert_eq!(roster.len(), 2);
    assert_eq!(roster[0], Unit { id: 0xFFFF_FFFF, client: Some(u32::MAX) });
    assert_eq!(roster[1], Unit { id: 0x1_FFFF_FFFF, client: None });
}

#[test]
fn unit_identities_of_participants_and_ai_never_meet() {
    assert_eq!(AI_UNIT_BASE, 1u64 << 32);
    assert_eq!(participant_unit_id(0), 0);
    assert_eq!(participant_unit_id(u32::MAX), 0xFFFF_FFFF);
    assert_eq!(ai_unit_id(0), 0x1_0000_0000);
    assert_eq!(ai_unit_id(u32::MAX), 0x1_FFFF_FFFF);
    for p in [0u32, 1, 99_999_999, 100_000_000, u32::MAX] {
        assert!(participant_unit_id(p) < AI_UNIT_BASE);
        assert!(ai_unit_id(p) >= AI_UNIT_BASE);
    }
}
