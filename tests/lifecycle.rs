use matchmaking::{
    add_unit_item, battle_seed, clear_board_state, forfeit_match, join_matchmaking, leave_matchmaking,
    mark_ready, submit_battle_result, try_create_match, update_board_state, Db, Identity, MatchState,
    MatchmakingQueue, Player, PlayerState, ReducerError,
};

fn ident(n: u128) -> Identity {
    Identity { hi: 0, lo: n }
}

fn player(db: &Db, id: Identity) -> Player {
    *db.players.iter().find(|p| p.identity == id).expect("player row")
}

/// Two players joined at 1000 and 2000: one match with id 2000.
fn paired_db(x: Identity, y: Identity) -> Db {
    let mut db = Db::new();
    join_matchmaking(&mut db, x, 1000).unwrap();
    join_matchmaking(&mut db, y, 2000).unwrap();
    db
}

#[test]
fn join_pair_ready_submit_scenario() {
    let x = ident(1);
    let y = ident(2);
    let mut db = Db::new();
    assert_eq!(join_matchmaking(&mut db, x, 1000), Ok(()));
    assert_eq!(player(&db, x).state, PlayerState::InQueue);
    assert_eq!(player(&db, x).current_match_id, None);
    assert!(db.matches.is_empty());
    assert_eq!(db.queue.len(), 1);

    assert_eq!(join_matchmaking(&mut db, y, 2000), Ok(()));
    assert_eq!(db.matches.len(), 1);
    let m = db.matches[0];
    assert_eq!(m.match_id, 2000);
    assert_eq!(m.battle_seed, 2000u64.wrapping_mul(12345));
    assert_eq!(m.battle_seed, 24_690_000);
    assert_eq!(m.player1_identity, x);
    assert_eq!(m.player2_identity, y);
    assert_eq!(m.state, MatchState::Preparation);
    assert_eq!(m.created_at, 2000);
    assert_eq!(m.winner_identity, None);
    assert!(db.queue.is_empty());
    for id in [x, y] {
        assert_eq!(player(&db, id).state, PlayerState::InMatch);
        assert_eq!(player(&db, id).current_match_id, Some(2000));
    }

    assert_eq!(mark_ready(&mut db, x, 2000, true), Ok(()));
    assert_eq!(db.matches[0].state, MatchState::BattleReady);

    let done = submit_battle_result(&mut db, y, 2000, false).unwrap();
    assert_eq!(done.winner_identity, Some(x));
    assert_eq!(done.state, MatchState::Completed);
    assert!(db.matches.is_empty());
    for id in [x, y] {
        assert_eq!(player(&db, id).state, PlayerState::InQueue);
        assert_eq!(player(&db, id).current_match_id, None);
    }
    assert!(db.queue.is_empty());
}

#[test]
fn non_participant_mark_ready_fails() {
    let mut db = paired_db(ident(1), ident(2));
    let before = db.matches.clone();
    let players = db.players.clone();
    assert_eq!(mark_ready(&mut db, ident(3), 2000, true), Err(ReducerError::NotParticipant));
    assert_eq!(db.matches, before);
    assert_eq!(db.players, players);
}

#[test]
fn mark_ready_errors_and_not_ready() {
    let mut db = paired_db(ident(1), ident(2));
    assert_eq!(mark_ready(&mut db, ident(1), 99, true), Err(ReducerError::MatchNotFound));
    assert_eq!(mark_ready(&mut db, ident(1), 2000, false), Ok(()));
    assert_eq!(db.matches[0].state, MatchState::Preparation);
    assert_eq!(mark_ready(&mut db, ident(2), 2000, true), Ok(()));
    assert_eq!(mark_ready(&mut db, ident(1), 2000, true), Err(ReducerError::InvalidPhase));
}

#[test]
fn sequential_joins_pair_first_two() {
    let (a, b, c) = (ident(10), ident(11), ident(12));
    let mut db = Db::new();
    join_matchmaking(&mut db, a, 100).unwrap();
    join_matchmaking(&mut db, b, 200).unwrap();
    join_matchmaking(&mut db, c, 150).unwrap();
    assert_eq!(db.matches.len(), 1);
    assert_eq!(db.matches[0].player1_identity, a);
    assert_eq!(db.matches[0].player2_identity, b);
    assert_eq!(db.queue, vec![MatchmakingQueue { identity: c, queued_at: 150 }]);
    assert_eq!(player(&db, c).state, PlayerState::InQueue);
}

#[test]
fn pairing_takes_two_earliest_entries() {
    let (a, b, c) = (ident(10), ident(11), ident(12));
    let mut db = Db::new();
    for id in [a, b, c] {
        db.players.push(Player { identity: id, state: PlayerState::InQueue, current_match_id: None });
    }
    db.queue.push(MatchmakingQueue { identity: a, queued_at: 100 });
    db.queue.push(MatchmakingQueue { identity: b, queued_at: 200 });
    db.queue.push(MatchmakingQueue { identity: c, queued_at: 150 });
    let m = try_create_match(&mut db, 300).expect("a match");
    assert_eq!(m.player1_identity, a);
    assert_eq!(m.player2_identity, c);
    assert_eq!(db.queue, vec![MatchmakingQueue { identity: b, queued_at: 200 }]);
    assert_eq!(player(&db, b).state, PlayerState::InQueue);
    assert_eq!(player(&db, c).current_match_id, Some(300));
}

#[test]
fn pairing_breaks_ties_by_queue_order() {
    let (a, b, c) = (ident(1), ident(2), ident(3));
    let mut db = Db::new();
    for id in [a, b, c] {
        db.players.push(Player { identity: id, state: PlayerState::InQueue, current_match_id: None });
    }
    db.queue.push(MatchmakingQueue { identity: c, queued_at: 50 });
    db.queue.push(MatchmakingQueue { identity: a, queued_at: 50 });
    db.queue.push(MatchmakingQueue { identity: b, queued_at: 50 });
    let m = try_create_match(&mut db, 60).expect("a match");
    assert_eq!((m.player1_identity, m.player2_identity), (c, a));
    assert_eq!(db.queue.len(), 1);
    assert_eq!(db.queue[0].identity, b);
}

#[test]
fn pairing_needs_two_entries() {
    let mut db = Db::new();
    join_matchmaking(&mut db, ident(1), 5).unwrap();
    assert_eq!(try_create_match(&mut db, 6), None);
    assert_eq!(db.queue.len(), 1);
}

#[test]
fn pairing_skips_a_live_match_id() {
    let mut db = paired_db(ident(1), ident(2));
    join_matchmaking(&mut db, ident(3), 2000).unwrap();
    join_matchmaking(&mut db, ident(4), 2000).unwrap();
    assert_eq!(db.matches.len(), 1);
    assert_eq!(db.queue.len(), 2);
    join_matchmaking(&mut db, ident(4), 2001).unwrap();
    assert_eq!(db.matches.len(), 2);
    assert_eq!(db.matches[1].match_id, 2001);
}

#[test]
fn battle_seed_is_wrapping_product() {
    assert_eq!(battle_seed(0), 0);
    assert_eq!(battle_seed(2), 24_690);
    assert_eq!(battle_seed(u64::MAX), u64::MAX - 12_344);
    assert_eq!(battle_seed(1 << 63), 1 << 63);
    assert_eq!(battle_seed(987_654_321), battle_seed(987_654_321));
}

#[test]
fn join_while_in_match_is_refused() {
    let mut db = paired_db(ident(1), ident(2));
    let queue = db.queue.clone();
    assert_eq!(join_matchmaking(&mut db, ident(1), 3000), Err(ReducerError::AlreadyInMatch));
    assert_eq!(db.queue, queue);
}

#[test]
fn join_twice_keeps_one_entry() {
    let mut db = Db::new();
    join_matchmaking(&mut db, ident(1), 10).unwrap();
    join_matchmaking(&mut db, ident(1), 20).unwrap();
    assert_eq!(db.queue, vec![MatchmakingQueue { identity: ident(1), queued_at: 10 }]);
    assert_eq!(db.players.len(), 1);
    assert!(db.matches.is_empty());
}

#[test]
fn leave_is_idempotent() {
    let mut db = Db::new();
    join_matchmaking(&mut db, ident(1), 10).unwrap();
    assert_eq!(leave_matchmaking(&mut db, ident(1)), Ok(()));
    assert!(db.queue.is_empty());
    assert_eq!(player(&db, ident(1)).state, PlayerState::InQueue);
    assert_eq!(leave_matchmaking(&mut db, ident(1)), Ok(()));
    assert_eq!(leave_matchmaking(&mut db, ident(9)), Ok(()));
    join_matchmaking(&mut db, ident(2), 20).unwrap();
    assert!(db.matches.is_empty());
}
