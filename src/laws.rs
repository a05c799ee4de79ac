use vstd::prelude::*;
use crate::types::{Identity, Match, MatchState, BoardUnit, ReducerError, is_participant};
use crate::db::{Db, player_with, has_match, has_unit, match_of, unit_of};
use crate::queue::seed_of;
use crate::board::{swept, board_access};
use crate::lifecycle::{ended, back_in_queue, lemma_pointer};

verus! {

/// In a consistent store an identity takes part in at most one live match,
/// and its player row is in that match and points at it. Every handler keeps
/// the store consistent, so this holds after any sequence of calls.
pub proof fn lemma_one_match_per_identity(db: Db, id: Identity, i: int, j: int)
    requires
        db.wf(),
        0 <= i < db.matches@.len(),
        0 <= j < db.matches@.len(),
        is_participant(db.matches@[i], id),
        is_participant(db.matches@[j], id),
    ensures
        i == j,
        player_with(db.players@, id, Some(db.matches@[i].match_id)),
{
    let ms = db.matches@;
    let ps = db.players@;
    let m = ms[i];
    let k = if m.player1_identity == id {
        choose|k: int| 0 <= k < ps.len() && (#[trigger] ps[k]).identity == m.player1_identity && ps[k].current_match_id == Some(m.match_id)
    } else {
        choose|k: int| 0 <= k < ps.len() && (#[trigger] ps[k]).identity == m.player2_identity && ps[k].current_match_id == Some(m.match_id)
    };
    lemma_pointer(ps, ms, j, k);
    if i < j {
        assert(ms[i].match_id != ms[j].match_id);
    } else if j < i {
        assert(ms[j].match_id != ms[i].match_id);
    }
}

/// The seed of every live match is recomputed from its id alone.
pub proof fn lemma_seed_from_id(db: Db, j: int)
    requires
        db.wf(),
        0 <= j < db.matches@.len(),
    ensures
        db.matches@[j].battle_seed == seed_of(db.matches@[j].match_id),
{
}

/// After `caller` cleared its board in match `mid`, no unit of `caller` in
/// that match is left, and every item left still has its unit.
pub proof fn lemma_clear_leaves_nothing(old: Db, new: Db, mid: u64, caller: Identity)
    requires
        new.wf(),
        forall|x: BoardUnit| #[trigger] new.units@.contains(x) <==> old.units@.contains(x) && !swept(x, mid, Some(caller)),
    ensures
        forall|i: int| 0 <= i < new.units@.len() ==> !((#[trigger] new.units@[i]).match_id == mid && new.units@[i].player_identity == caller),
        forall|i: int| 0 <= i < new.items@.len() ==> has_unit(new.units@, (#[trigger] new.items@[i]).board_unit_id),
{
    assert forall|i: int| 0 <= i < new.units@.len() implies !((#[trigger] new.units@[i]).match_id == mid && new.units@[i].player_identity == caller) by {
        assert(new.units@.contains(new.units@[i]));
    }
}

/// After match `m` ended, no unit of it is left, every item left belongs to a
/// unit of another match, and both participants are back to `{InQueue, none}`.
pub proof fn lemma_completion_leaves_nothing(old: Db, new: Db, m: Match)
    requires
        old.wf(),
        new.wf(),
        ended(old, new, m),
    ensures
        forall|i: int| 0 <= i < new.units@.len() ==> (#[trigger] new.units@[i]).match_id != m.match_id,
        forall|i: int| 0 <= i < new.items@.len() ==> has_unit(new.units@, (#[trigger] new.items@[i]).board_unit_id)
            && unit_of(new.units@, new.items@[i].board_unit_id).match_id != m.match_id,
        forall|k: int| 0 <= k < new.players@.len() && is_participant(m, (#[trigger] new.players@[k]).identity)
            ==> new.players@[k] == back_in_queue(new.players@[k].identity),
{
    assert forall|i: int| 0 <= i < new.units@.len() implies (#[trigger] new.units@[i]).match_id != m.match_id by {
        assert(new.units@.contains(new.units@[i]));
    }
    assert forall|i: int| 0 <= i < new.items@.len() implies has_unit(new.units@, (#[trigger] new.items@[i]).board_unit_id)
        && unit_of(new.units@, new.items@[i].board_unit_id).match_id != m.match_id by {
        let c = choose|c: int| 0 <= c < new.units@.len() && (#[trigger] new.units@[c]).id == new.items@[i].board_unit_id;
        assert(new.units@.contains(new.units@[c]));
        assert(unit_of(new.units@, new.items@[i].board_unit_id).id == new.items@[i].board_unit_id);
        let u = unit_of(new.units@, new.items@[i].board_unit_id);
        let c2 = choose|c2: int| 0 <= c2 < new.units@.len() && (#[trigger] new.units@[c2]).id == new.items@[i].board_unit_id;
        assert(new.units@.contains(new.units@[c2]));
    }
    assert forall|k: int| 0 <= k < new.players@.len() && is_participant(m, (#[trigger] new.players@[k]).identity)
        implies new.players@[k] == back_in_queue(new.players@[k].identity) by {
        assert(new.players@[k].identity == old.players@[k].identity);
    }
}

/// Board changes are refused to a caller that is not a participant of the
/// match, and to every caller while the match is not in preparation.
pub proof fn lemma_board_locked(db: Db, mid: u64, caller: Identity)
    requires
        db.wf(),
        has_match(db.matches@, mid),
    ensures
        !is_participant(match_of(db.matches@, mid), caller)
            ==> board_access(db.matches@, mid, caller) == Err::<(), ReducerError>(ReducerError::NotParticipant),
        match_of(db.matches@, mid).state != MatchState::Preparation
            ==> board_access(db.matches@, mid, caller) is Err,
        is_participant(match_of(db.matches@, mid), caller) && match_of(db.matches@, mid).state != MatchState::Preparation
            ==> board_access(db.matches@, mid, caller) == Err::<(), ReducerError>(ReducerError::InvalidPhase),
{
}

} // verus!
