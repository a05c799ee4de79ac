use matchmaking::{
    add_unit_item, clear_board_state, forfeit_match, join_matchmaking, mark_ready, submit_battle_result,
    update_board_state, Db, Identity, MatchState, PlayerState, ReducerError,
};

fn ident(n: u128) -> Identity {
    Identity { hi: 7, lo: n }
}

fn paired_db() -> Db {
    let mut db = Db::new();
    join_matchmaking(&mut db, ident(1), 1000).unwrap();
    join_matchmaking(&mut db, ident(2), 2000).unwrap();
    db
}

fn place(db: &mut Db, who: Identity, name: &str) -> u64 {
    let id = db.next_unit_id;
    update_board_state(db, who, 2000, name.to_string(), 1, 0, 0, false).unwrap();
    id
}

#[test]
fn update_board_appends_units() {
    let mut db = paired_db();
    assert_eq!(update_board_state(&mut db, ident(1), 2000, "knight".to_string(), 2, 3, 4, false), Ok(()));
    assert_eq!(update_board_state(&mut db, ident(1), 2000, "knight".to_string(), 2, 3, 4, false), Ok(()));
    assert_eq!(db.units.len(), 2);
    assert_eq!(db.units[0].id, 1);
    assert_eq!(db.units[1].id, 2);
    assert_eq!(db.units[0].unit_name, "knight");
    assert_eq!((db.units[0].tier, db.units[0].position_x, db.units[0].position_y), (2, 3, 4));
    assert_eq!(db.units[0].player_identity, ident(1));
    assert_eq!(db.units[0].match_id, 2000);
    assert_eq!(db.next_unit_id, 3);
}

#[test]
fn update_board_errors() {
    let mut db = paired_db();
    assert_eq!(update_board_state(&mut db, ident(1), 1, "a".to_string(), 1, 0, 0, true), Err(ReducerError::MatchNotFound));
    assert_eq!(update_board_state(&mut db, ident(3), 2000, "a".to_string(), 1, 0, 0, true), Err(ReducerError::NotParticipant));
    mark_ready(&mut db, ident(2), 2000, true).unwrap();
    assert_eq!(update_board_state(&mut db, ident(1), 2000, "a".to_string(), 1, 0, 0, true), Err(ReducerError::InvalidPhase));
    assert!(db.units.is_empty());
    assert_eq!(db.next_unit_id, 1);
}

#[test]
fn add_item_checks_unit_and_owner() {
    let mut db = paired_db();
    let u = place(&mut db, ident(1), "archer");
    assert_eq!(add_unit_item(&mut db, ident(1), 99, "bow".to_string(), 0), Err(ReducerError::UnitNotFound));
    assert_eq!(add_unit_item(&mut db, ident(2), u, "bow".to_string(), 0), Err(ReducerError::NotOwner));
    assert_eq!(add_unit_item(&mut db, ident(1), u, "bow".to_string(), 0), Ok(()));
    assert_eq!(add_unit_item(&mut db, ident(1), u, "cloak".to_string(), 0), Ok(()));
    assert_eq!(db.items.len(), 2);
    assert_eq!(db.items[0].board_unit_id, u);
    assert_eq!(db.items[1].item_id, "cloak");
    assert_eq!(db.items[1].equip_index, 0);
    assert_eq!((db.items[0].id, db.items[1].id), (1, 2));
}

#[test]
fn clear_board_removes_only_callers_units_and_their_items() {
    let mut db = paired_db();
    let mine = place(&mut db, ident(1), "a");
    let mine2 = place(&mut db, ident(1), "b");
    let theirs = place(&mut db, ident(2), "c");
    add_unit_item(&mut db, ident(1), mine, "x".to_string(), 1).unwrap();
    add_unit_item(&mut db, ident(1), mine2, "y".to_string(), 2).unwrap();
    add_unit_item(&mut db, ident(2), theirs, "z".to_string(), 3).unwrap();
    mark_ready(&mut db, ident(1), 2000, true).unwrap();
    assert_eq!(clear_board_state(&mut db, ident(1), 2000), Ok(()));
    assert_eq!(db.units.len(), 1);
    assert_eq!(db.units[0].id, theirs);
    assert_eq!(db.items.len(), 1);
    assert_eq!(db.items[0].board_unit_id, theirs);
    assert!(db.items.iter().all(|i| db.units.iter().any(|u| u.id == i.board_unit_id)));
}

#[test]
fn clear_board_errors() {
    let mut db = paired_db();
    place(&mut db, ident(1), "a");
    assert_eq!(clear_board_state(&mut db, ident(1), 5), Err(ReducerError::MatchNotFound));
    assert_eq!(clear_board_state(&mut db, ident(3), 2000), Err(ReducerError::NotParticipant));
    assert_eq!(db.units.len(), 1);
}

#[test]
fn forfeit_cleans_up_and_opponent_wins() {
    let mut db = paired_db();
    let a = place(&mut db, ident(1), "a");
    let b = place(&mut db, ident(2), "b");
    add_unit_item(&mut db, ident(1), a, "x".to_string(), 0).unwrap();
    add_unit_item(&mut db, ident(2), b, "y".to_string(), 0).unwrap();
    assert_eq!(forfeit_match(&mut db, ident(3), 2000), Err(ReducerError::NotParticipant));
    assert_eq!(forfeit_match(&mut db, ident(1), 1), Err(ReducerError::MatchNotFound));
    let done = forfeit_match(&mut db, ident(1), 2000).unwrap();
    assert_eq!(done.winner_identity, Some(ident(2)));
    assert_eq!(done.state, MatchState::Completed);
    assert!(db.matches.is_empty());
    assert!(db.units.is_empty());
    assert!(db.items.is_empty());
    for p in &db.players {
        assert_eq!(p.state, PlayerState::InQueue);
        assert_eq!(p.current_match_id, None);
    }
    assert!(db.queue.is_empty());
}

#[test]
fn submit_result_checks_phase_and_cleans_up() {
    let mut db = paired_db();
    let a = place(&mut db, ident(1), "a");
    add_unit_item(&mut db, ident(1), a, "x".to_string(), 0).unwrap();
    assert_eq!(submit_battle_result(&mut db, ident(1), 2000, true), Err(ReducerError::InvalidPhase));
    assert_eq!(submit_battle_result(&mut db, ident(3), 2000, true), Err(ReducerError::NotParticipant));
    assert_eq!(submit_battle_result(&mut db, ident(1), 3, true), Err(ReducerError::MatchNotFound));
    mark_ready(&mut db, ident(2), 2000, true).unwrap();
    let done = submit_battle_result(&mut db, ident(2), 2000, true).unwrap();
    assert_eq!(done.winner_identity, Some(ident(2)));
    assert_eq!(done.battle_seed, 24_690_000);
    assert!(db.units.is_empty() && db.items.is_empty() && db.matches.is_empty());
    assert_eq!(join_matchmaking(&mut db, ident(1), 5000), Ok(()));
    assert_eq!(db.queue.len(), 1);
}

#[test]
fn completion_leaves_other_matches_alone() {
    let mut db = paired_db();
    join_matchmaking(&mut db, ident(3), 3000).unwrap();
    join_matchmaking(&mut db, ident(4), 4000).unwrap();
    assert_eq!(db.matches.len(), 2);
    update_board_state(&mut db, ident(3), 4000, "keep".to_string(), 1, 0, 0, false).unwrap();
    let kept = db.units[0].id;
    add_unit_item(&mut db, ident(3), kept, "k".to_string(), 0).unwrap();
    place(&mut db, ident(2), "gone");
    forfeit_match(&mut db, ident(2), 2000).unwrap();
    assert_eq!(db.matches.len(), 1);
    assert_eq!(db.matches[0].match_id, 4000);
    assert_eq!(db.units.len(), 1);
    assert_eq!(db.units[0].id, kept);
    assert_eq!(db.items.len(), 1);
}
