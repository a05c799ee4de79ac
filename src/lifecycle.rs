use vstd::prelude::*;
use crate::types::{Identity, PlayerState, MatchState, Player, Match, BoardUnit, UnitItem, ReducerError,
    is_participant, opponent_of};
use crate::db::{Db, players_ok, queue_ok, matches_ok, units_ok, items_ok, player_with, match_with, match_of, match_access, access_match, find_player};
use crate::queue::seed_of;
use crate::board::{board_access, swept, item_swept, sweep_board, lemma_sweep_consistent};

verus! {

/// The row of `p` after `row` replaced the row with the same identity.
pub open spec fn replaced(p: Player, row: Player) -> Player {
    if p.identity == row.identity {
        row
    } else {
        p
    }
}

/// Overwrites the row whose identity is `row.identity`, if there is one.
pub(crate) fn set_player(ps: &mut Vec<Player>, row: Player)
    requires
        forall|a: int, b: int| 0 <= a < b < old(ps)@.len() ==> (#[trigger] old(ps)@[a]).identity != (#[trigger] old(ps)@[b]).identity,
    ensures
        final(ps)@.len() == old(ps)@.len(),
        forall|i: int| 0 <= i < old(ps)@.len() ==> #[trigger] final(ps)@[i] == replaced(old(ps)@[i], row),
{
    let ghost before = ps@;
    match find_player(ps, row.identity) {
        None => {
            assert forall|i: int| 0 <= i < before.len() implies #[trigger] ps@[i] == replaced(before[i], row) by {
                if before[i].identity == row.identity {
                    assert(crate::db::has_player(before, row.identity));
                }
            }
        },
        Some(k) => {
            ps.set(k, row);
            assert forall|i: int| 0 <= i < before.len() implies #[trigger] ps@[i] == replaced(before[i], row) by {
                if i < k {
                    assert(before[i].identity != before[k as int].identity);
                } else if k < i {
                    assert(before[k as int].identity != before[i].identity);
                }
            }
        },
    }
}

/// The row a participant returns to when its match ends.
pub open spec fn back_in_queue(id: Identity) -> Player {
    Player { identity: id, state: PlayerState::InQueue, current_match_id: None }
}

/// The record of match `m` at completion, won by `winner`.
pub open spec fn completed(m: Match, winner: Identity) -> Match {
    Match {
        match_id: m.match_id,
        player1_identity: m.player1_identity,
        player2_identity: m.player2_identity,
        state: MatchState::Completed,
        battle_seed: m.battle_seed,
        created_at: m.created_at,
        winner_identity: Some(winner),
    }
}

/// `new` is `old` after match `m` ended: its participants are back to
/// `{InQueue, none}` (and not re-queued), its units and their items are gone,
/// and the match record itself is gone; nothing else changed.
pub open spec fn ended(old: Db, new: Db, m: Match) -> bool {
    &&& new.queue == old.queue
    &&& new.next_unit_id == old.next_unit_id
    &&& new.next_item_id == old.next_item_id
    &&& new.players@.len() == old.players@.len()
    &&& forall|i: int| 0 <= i < old.players@.len() ==> #[trigger] new.players@[i] == if is_participant(m, old.players@[i].identity) {
        back_in_queue(old.players@[i].identity)
    } else {
        old.players@[i]
    }
    &&& forall|x: Match| #[trigger] new.matches@.contains(x) <==> old.matches@.contains(x) && x.match_id != m.match_id
    &&& forall|x: BoardUnit| #[trigger] new.units@.contains(x) <==> old.units@.contains(x) && !swept(x, m.match_id, None)
    &&& forall|x: UnitItem| #[trigger] new.items@.contains(x) <==> old.items@.contains(x) && !item_swept(old.units@, x, m.match_id, None)
}

/// Completes the match at position `j` with `winner`, then applies its
/// terminal cleanup and deletes it; returns the completed record.
#[verifier::rlimit(30)]
fn complete_match(db: &mut Db, j: usize, winner: Identity) -> (r: Match)
    requires
        old(db).wf(),
        j < old(db).matches@.len(),
    ensures
        final(db).wf(),
        r == completed(old(db).matches@[j as int], winner),
        ended(*old(db), *final(db), old(db).matches@[j as int]),
        final(db).matches@ == old(db).matches@.remove(j as int),
{
    let m = db.matches[j];
    let ghost ps = db.players@;
    set_player(&mut db.players, Player { identity: m.player1_identity, state: PlayerState::InQueue, current_match_id: None });
    proof {
        assert forall|a: int, b: int| 0 <= a < b < db.players@.len() implies (#[trigger] db.players@[a]).identity != (#[trigger] db.players@[b]).identity by {
            assert(ps[a].identity != ps[b].identity);
        }
    }
    set_player(&mut db.players, Player { identity: m.player2_identity, state: PlayerState::InQueue, current_match_id: None });
    proof {
        assert forall|i: int| 0 <= i < ps.len() implies #[trigger] db.players@[i] == if is_participant(m, ps[i].identity) {
            back_in_queue(ps[i].identity)
        } else {
            ps[i]
        } by {}
    }
    sweep_board(db, m.match_id, None);
    let _ = db.matches.remove(j);
    let done = Match {
        match_id: m.match_id,
        player1_identity: m.player1_identity,
        player2_identity: m.player2_identity,
        state: MatchState::Completed,
        battle_seed: m.battle_seed,
        created_at: m.created_at,
        winner_identity: Some(winner),
    };
    proof {
        lemma_end_consistent(*old(db), *db, j as int);
    }
    done
}

/// A participant's row points at its match.
pub(crate) proof fn lemma_pointer(ps: Seq<Player>, ms: Seq<Match>, i: int, k: int)
    requires
        players_ok(ps, ms),
        matches_ok(ps, ms),
        0 <= i < ms.len(),
        0 <= k < ps.len(),
        is_participant(ms[i], ps[k].identity),
    ensures
        ps[k].current_match_id == Some(ms[i].match_id),
{
    let p = ps[k].identity;
    let k2 = choose|k2: int| 0 <= k2 < ps.len() && (#[trigger] ps[k2]).identity == p && ps[k2].current_match_id == Some(ms[i].match_id);
    if k2 < k {
        assert(ps[k2].identity != ps[k].identity);
    } else if k < k2 {
        assert(ps[k].identity != ps[k2].identity);
    }
}

/// Ending a match keeps the player rows and the queue consistent.
#[verifier::rlimit(60)]
proof fn lemma_end_players(old: Db, new: Db, j: int)
    requires
        old.wf(),
        0 <= j < old.matches@.len(),
        new.queue == old.queue,
        new.next_unit_id == old.next_unit_id,
        new.next_item_id == old.next_item_id,
        new.players@.len() == old.players@.len(),
        forall|i: int| 0 <= i < old.players@.len() ==> #[trigger] new.players@[i] == if is_participant(old.matches@[j], old.players@[i].identity) {
            back_in_queue(old.players@[i].identity)
        } else {
            old.players@[i]
        },
        new.matches@ == old.matches@.remove(j),
        forall|a: int, b: int| 0 <= a < b < new.units@.len() ==> (#[trigger] new.units@[a]).id != (#[trigger] new.units@[b]).id,
        forall|a: int, b: int| 0 <= a < b < new.items@.len() ==> (#[trigger] new.items@[a]).id != (#[trigger] new.items@[b]).id,
        forall|x: BoardUnit| #[trigger] new.units@.contains(x) <==> old.units@.contains(x) && !swept(x, old.matches@[j].match_id, None),
        forall|x: UnitItem| #[trigger] new.items@.contains(x) <==> old.items@.contains(x) && !item_swept(old.units@, x, old.matches@[j].match_id, None),
    ensures
        players_ok(new.players@, new.matches@),
        queue_ok(new.players@, new.queue@),
{
    let m = old.matches@[j];
    let ps = old.players@;
    let nps = new.players@;
    let ms = old.matches@;
    let nms = new.matches@;
    assert forall|i: int| 0 <= i < ps.len() implies (#[trigger] nps[i]).identity == ps[i].identity by {}
    // Indices of the remaining matches.
    assert forall|t: int| 0 <= t < nms.len() implies #[trigger] nms[t] == if t < j { ms[t] } else { ms[t + 1] } by {}
    // players_ok
    assert forall|i: int| 0 <= i < nps.len() implies match (#[trigger] nps[i]).current_match_id {
        Some(mid) => nps[i].state == PlayerState::InMatch && match_with(nms, mid, nps[i].identity),
        None => nps[i].state == PlayerState::InQueue,
    } by {
        if !is_participant(m, ps[i].identity) {
            assert(nps[i] == ps[i]);
            match ps[i].current_match_id {
                Some(mid) => {
                    let t = choose|t: int| 0 <= t < ms.len() && (#[trigger] ms[t]).match_id == mid && is_participant(ms[t], ps[i].identity);
                    assert(t != j);
                    if t < j {
                        assert(nms[t] == ms[t]);
                    } else {
                        assert(nms[t - 1] == ms[t]);
                    }
                },
                None => {},
            }
        }
    }
    assert forall|a: int, b: int| 0 <= a < b < nps.len() implies (#[trigger] nps[a]).identity != (#[trigger] nps[b]).identity by {
        assert(ps[a].identity != ps[b].identity);
    }
    // queue_ok
    assert forall|i: int| 0 <= i < new.queue@.len() implies player_with(nps, (#[trigger] new.queue@[i]).identity, None) by {
        let id = new.queue@[i].identity;
        let k = choose|k: int| 0 <= k < ps.len() && (#[trigger] ps[k]).identity == id && ps[k].current_match_id == None::<u64>;
        assert(nps[k].identity == id);
    }
}

/// Ending a match keeps the remaining matches consistent.
#[verifier::rlimit(60)]
proof fn lemma_end_matches(old: Db, new: Db, j: int)
    requires
        old.wf(),
        0 <= j < old.matches@.len(),
        new.queue == old.queue,
        new.next_unit_id == old.next_unit_id,
        new.next_item_id == old.next_item_id,
        new.players@.len() == old.players@.len(),
        forall|i: int| 0 <= i < old.players@.len() ==> #[trigger] new.players@[i] == if is_participant(old.matches@[j], old.players@[i].identity) {
            back_in_queue(old.players@[i].identity)
        } else {
            old.players@[i]
        },
        new.matches@ == old.matches@.remove(j),
        forall|a: int, b: int| 0 <= a < b < new.units@.len() ==> (#[trigger] new.units@[a]).id != (#[trigger] new.units@[b]).id,
        forall|a: int, b: int| 0 <= a < b < new.items@.len() ==> (#[trigger] new.items@[a]).id != (#[trigger] new.items@[b]).id,
        forall|x: BoardUnit| #[trigger] new.units@.contains(x) <==> old.units@.contains(x) && !swept(x, old.matches@[j].match_id, None),
        forall|x: UnitItem| #[trigger] new.items@.contains(x) <==> old.items@.contains(x) && !item_swept(old.units@, x, old.matches@[j].match_id, None),
    ensures
        matches_ok(new.players@, new.matches@),
        forall|x: Match| #[trigger] new.matches@.contains(x) <==> old.matches@.contains(x) && x.match_id != old.matches@[j].match_id,
{
    let m = old.matches@[j];
    let ps = old.players@;
    let nps = new.players@;
    let ms = old.matches@;
    let nms = new.matches@;
    assert forall|i: int| 0 <= i < ps.len() implies (#[trigger] nps[i]).identity == ps[i].identity by {}
    // Indices of the remaining matches.
    assert forall|t: int| 0 <= t < nms.len() implies #[trigger] nms[t] == if t < j { ms[t] } else { ms[t + 1] } by {}
    // matches_ok
    assert forall|a: int, b: int| 0 <= a < b < nms.len() implies (#[trigger] nms[a]).match_id != (#[trigger] nms[b]).match_id by {
        let a2 = if a < j { a } else { a + 1 };
        let b2 = if b < j { b } else { b + 1 };
        assert(ms[a2].match_id != ms[b2].match_id);
    }
    assert forall|t: int| 0 <= t < nms.len() implies {
        let x = #[trigger] nms[t];
        &&& x.player1_identity != x.player2_identity
        &&& x.state != MatchState::Completed
        &&& x.winner_identity is None
        &&& x.battle_seed == seed_of(x.match_id)
        &&& player_with(nps, x.player1_identity, Some(x.match_id))
        &&& player_with(nps, x.player2_identity, Some(x.match_id))
    } by {
        let t2 = if t < j { t } else { t + 1 };
        let x = ms[t2];
        assert(nms[t] == x);
        assert(x.match_id != m.match_id);
        let k1 = choose|k: int| 0 <= k < ps.len() && (#[trigger] ps[k]).identity == x.player1_identity && ps[k].current_match_id == Some(x.match_id);
        let k2 = choose|k: int| 0 <= k < ps.len() && (#[trigger] ps[k]).identity == x.player2_identity && ps[k].current_match_id == Some(x.match_id);
        if is_participant(m, ps[k1].identity) {
            lemma_pointer(ps, ms, j, k1);
        }
        if is_participant(m, ps[k2].identity) {
            lemma_pointer(ps, ms, j, k2);
        }
        assert(nps[k1] == ps[k1]);
        assert(nps[k2] == ps[k2]);
    }
    // the match table as contents
    assert forall|x: Match| #[trigger] nms.contains(x) <==> ms.contains(x) && x.match_id != m.match_id by {
        if nms.contains(x) {
            let t = choose|t: int| 0 <= t < nms.len() && nms[t] == x;
            let t2 = if t < j { t } else { t + 1 };
            assert(ms[t2] == x);
            if t2 < j {
                assert(ms[t2].match_id != ms[j].match_id);
            } else {
                assert(ms[j].match_id != ms[t2].match_id);
            }
        }
        if ms.contains(x) && x.match_id != m.match_id {
            let t = choose|t: int| 0 <= t < ms.len() && ms[t] == x;
            assert(t != j);
            let t2 = if t < j { t } else { t - 1 };
            assert(nms[t2] == x);
        }
    }
}

/// Ending a match keeps the units and items consistent.
#[verifier::rlimit(60)]
proof fn lemma_end_board(old: Db, new: Db, j: int)
    requires
        old.wf(),
        0 <= j < old.matches@.len(),
        new.queue == old.queue,
        new.next_unit_id == old.next_unit_id,
        new.next_item_id == old.next_item_id,
        new.players@.len() == old.players@.len(),
        forall|i: int| 0 <= i < old.players@.len() ==> #[trigger] new.players@[i] == if is_participant(old.matches@[j], old.players@[i].identity) {
            back_in_queue(old.players@[i].identity)
        } else {
            old.players@[i]
        },
        new.matches@ == old.matches@.remove(j),
        forall|a: int, b: int| 0 <= a < b < new.units@.len() ==> (#[trigger] new.units@[a]).id != (#[trigger] new.units@[b]).id,
        forall|a: int, b: int| 0 <= a < b < new.items@.len() ==> (#[trigger] new.items@[a]).id != (#[trigger] new.items@[b]).id,
        forall|x: BoardUnit| #[trigger] new.units@.contains(x) <==> old.units@.contains(x) && !swept(x, old.matches@[j].match_id, None),
        forall|x: UnitItem| #[trigger] new.items@.contains(x) <==> old.items@.contains(x) && !item_swept(old.units@, x, old.matches@[j].match_id, None),
    ensures
        units_ok(new.matches@, new.units@, new.next_unit_id),
        items_ok(new.units@, new.items@, new.next_item_id),
{
    let m = old.matches@[j];
    let ps = old.players@;
    let nps = new.players@;
    let ms = old.matches@;
    let nms = new.matches@;
    assert forall|i: int| 0 <= i < ps.len() implies (#[trigger] nps[i]).identity == ps[i].identity by {}
    // Indices of the remaining matches.
    assert forall|t: int| 0 <= t < nms.len() implies #[trigger] nms[t] == if t < j { ms[t] } else { ms[t + 1] } by {}
    // units and items
    assert forall|i: int| 0 <= i < old.units@.len() && !swept(#[trigger] old.units@[i], m.match_id, None)
        implies match_with(nms, old.units@[i].match_id, old.units@[i].player_identity) by {
        let u = old.units@[i];
        let t = choose|t: int| 0 <= t < ms.len() && (#[trigger] ms[t]).match_id == u.match_id && is_participant(ms[t], u.player_identity);
        assert(t != j);
        let t2 = if t < j { t } else { t - 1 };
        assert(nms[t2] == ms[t]);
    }
    lemma_sweep_consistent(ms, nms, old.units@, new.units@, old.items@, new.items@,
        old.next_unit_id, old.next_item_id, m.match_id, None);
}

/// Ending the match at position `j` keeps the store consistent.
proof fn lemma_end_consistent(old: Db, new: Db, j: int)
    requires
        old.wf(),
        0 <= j < old.matches@.len(),
        new.queue == old.queue,
        new.next_unit_id == old.next_unit_id,
        new.next_item_id == old.next_item_id,
        new.players@.len() == old.players@.len(),
        forall|i: int| 0 <= i < old.players@.len() ==> #[trigger] new.players@[i] == if is_participant(old.matches@[j], old.players@[i].identity) {
            back_in_queue(old.players@[i].identity)
        } else {
            old.players@[i]
        },
        new.matches@ == old.matches@.remove(j),
        forall|a: int, b: int| 0 <= a < b < new.units@.len() ==> (#[trigger] new.units@[a]).id != (#[trigger] new.units@[b]).id,
        forall|a: int, b: int| 0 <= a < b < new.items@.len() ==> (#[trigger] new.items@[a]).id != (#[trigger] new.items@[b]).id,
        forall|x: BoardUnit| #[trigger] new.units@.contains(x) <==> old.units@.contains(x) && !swept(x, old.matches@[j].match_id, None),
        forall|x: UnitItem| #[trigger] new.items@.contains(x) <==> old.items@.contains(x) && !item_swept(old.units@, x, old.matches@[j].match_id, None),
    ensures
        new.wf(),
        ended(old, new, old.matches@[j]),
{
    lemma_end_players(old, new, j);
    lemma_end_matches(old, new, j);
    lemma_end_board(old, new, j);
}

/// Whether `caller` may report the battle of match `mid`: as for
/// `match_access`, and the match must be ready for battle.
pub open spec fn battle_access(ms: Seq<Match>, mid: u64, caller: Identity) -> Result<(), ReducerError> {
    if match_access(ms, mid, caller) is Err {
        match_access(ms, mid, caller)
    } else if match_of(ms, mid).state != MatchState::BattleReady {
        Err(ReducerError::InvalidPhase)
    } else {
        Ok(())
    }
}

/// Match `m` moved to `state`.
pub open spec fn with_state(m: Match, state: MatchState) -> Match {
    Match {
        match_id: m.match_id,
        player1_identity: m.player1_identity,
        player2_identity: m.player2_identity,
        state,
        battle_seed: m.battle_seed,
        created_at: m.created_at,
        winner_identity: m.winner_identity,
    }
}

/// A participant declares readiness for match `match_id`, which must be in
/// preparation. One call with `is_ready` advances the whole match to
/// `BattleReady`; a call without it changes nothing.
pub fn mark_ready(db: &mut Db, caller: Identity, match_id: u64, is_ready: bool) -> (r: Result<(), ReducerError>)
    requires
        old(db).wf(),
    ensures
        final(db).wf(),
        r == board_access(old(db).matches@, match_id, caller),
        r is Err || !is_ready ==> *final(db) == *old(db),
        r is Ok && is_ready ==> {
            &&& final(db).players == old(db).players
            &&& final(db).queue == old(db).queue
            &&& final(db).units == old(db).units
            &&& final(db).items == old(db).items
            &&& final(db).next_unit_id == old(db).next_unit_id
            &&& final(db).next_item_id == old(db).next_item_id
            &&& final(db).matches@.len() == old(db).matches@.len()
            &&& forall|i: int| 0 <= i < old(db).matches@.len() ==> #[trigger] final(db).matches@[i] == if old(db).matches@[i].match_id == match_id {
                with_state(old(db).matches@[i], MatchState::BattleReady)
            } else {
                old(db).matches@[i]
            }
        },
{
    let j = match access_match(&db.matches, match_id, caller) {
        Err(e) => return Err(e),
        Ok(j) => j,
    };
    if db.matches[j].state != MatchState::Preparation {
        return Err(ReducerError::InvalidPhase);
    }
    if is_ready {
        let m = db.matches[j];
        db.matches.set(j, Match {
            match_id: m.match_id,
            player1_identity: m.player1_identity,
            player2_identity: m.player2_identity,
            state: MatchState::BattleReady,
            battle_seed: m.battle_seed,
            created_at: m.created_at,
            winner_identity: m.winner_identity,
        });
        proof {
            lemma_restate_consistent(*old(db), *db, j as int);
        }
    }
    Ok(())
}

/// Changing the phase of the match at position `j` keeps the store consistent.
#[verifier::rlimit(30)]
proof fn lemma_restate_consistent(old: Db, new: Db, j: int)
    requires
        old.wf(),
        0 <= j < old.matches@.len(),
        new.players == old.players,
        new.queue == old.queue,
        new.units == old.units,
        new.items == old.items,
        new.next_unit_id == old.next_unit_id,
        new.next_item_id == old.next_item_id,
        new.matches@ == old.matches@.update(j, with_state(old.matches@[j], MatchState::BattleReady)),
    ensures
        new.wf(),
        forall|i: int| 0 <= i < old.matches@.len() ==> #[trigger] new.matches@[i] == if old.matches@[i].match_id == old.matches@[j].match_id {
            with_state(old.matches@[i], MatchState::BattleReady)
        } else {
            old.matches@[i]
        },
{
    let ms = old.matches@;
    let nms = new.matches@;
    assert forall|i: int| 0 <= i < ms.len() implies (#[trigger] nms[i]).match_id == ms[i].match_id
        && nms[i].player1_identity == ms[i].player1_identity && nms[i].player2_identity == ms[i].player2_identity by {}
    assert forall|i: int| 0 <= i < ms.len() implies #[trigger] nms[i] == if ms[i].match_id == ms[j].match_id {
        with_state(ms[i], MatchState::BattleReady)
    } else {
        ms[i]
    } by {
        if i < j {
            assert(ms[i].match_id != ms[j].match_id);
        } else if j < i {
            assert(ms[j].match_id != ms[i].match_id);
        }
    }
    assert forall|mid: u64, id: Identity| #[trigger] match_with(ms, mid, id) implies match_with(nms, mid, id) by {
        let t = choose|t: int| 0 <= t < ms.len() && (#[trigger] ms[t]).match_id == mid && is_participant(ms[t], id);
        assert(nms[t].match_id == mid);
    }
}

/// Whoever wins when `caller` reports `caller_won` on match `m`.
pub open spec fn reported_winner(m: Match, caller: Identity, caller_won: bool) -> Identity {
    if caller_won {
        caller
    } else {
        opponent_of(m, caller)
    }
}

/// A participant reports the outcome of the battle of match `match_id`,
/// which must be ready for battle. The match completes with the reported
/// winner, is cleaned up and deleted; the completed record is returned.
pub fn submit_battle_result(db: &mut Db, caller: Identity, match_id: u64, caller_won: bool) -> (r: Result<Match, ReducerError>)
    requires
        old(db).wf(),
    ensures
        final(db).wf(),
        r is Ok <==> battle_access(old(db).matches@, match_id, caller) is Ok,
        match r {
            Ok(done) => {
                let m = match_of(old(db).matches@, match_id);
                &&& done == completed(m, reported_winner(m, caller, caller_won))
                &&& ended(*old(db), *final(db), m)
            },
            Err(e) => {
                &&& battle_access(old(db).matches@, match_id, caller) == Err::<(), ReducerError>(e)
                &&& *final(db) == *old(db)
            },
        },
{
    let j = match access_match(&db.matches, match_id, caller) {
        Err(e) => return Err(e),
        Ok(j) => j,
    };
    if db.matches[j].state != MatchState::BattleReady {
        return Err(ReducerError::InvalidPhase);
    }
    let winner = if caller_won {
        caller
    } else if db.matches[j].player1_identity == caller {
        db.matches[j].player2_identity
    } else {
        db.matches[j].player1_identity
    };
    Ok(complete_match(db, j, winner))
}

/// A participant concedes match `match_id`, in any phase: the other
/// participant wins, and the match is cleaned up and deleted; the completed
/// record is returned.
pub fn forfeit_match(db: &mut Db, caller: Identity, match_id: u64) -> (r: Result<Match, ReducerError>)
    requires
        old(db).wf(),
    ensures
        final(db).wf(),
        r is Ok <==> match_access(old(db).matches@, match_id, caller) is Ok,
        match r {
            Ok(done) => {
                let m = match_of(old(db).matches@, match_id);
                &&& done == completed(m, opponent_of(m, caller))
                &&& ended(*old(db), *final(db), m)
            },
            Err(e) => {
                &&& match_access(old(db).matches@, match_id, caller) == Err::<(), ReducerError>(e)
                &&& *final(db) == *old(db)
            },
        },
{
    let j = match access_match(&db.matches, match_id, caller) {
        Err(e) => return Err(e),
        Ok(j) => j,
    };
    let winner = if db.matches[j].player1_identity == caller {
        db.matches[j].player2_identity
    } else {
        db.matches[j].player1_identity
    };
    Ok(complete_match(db, j, winner))
}

} // verus!
