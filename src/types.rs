use vstd::prelude::*;

verus! {

/// An opaque, externally authenticated caller identity (256 bits).
#[derive(Clone, Copy, Debug, PartialEq, Eq, Structural)]
pub struct Identity {
    pub hi: u128,
    pub lo: u128,
}

#[derive(Clone, Copy, Debug, PartialEq, Eq, Structural)]
pub enum PlayerState {
    InQueue,
    InMatch,
}

#[derive(Clone, Copy, Debug, PartialEq, Eq, Structural)]
pub enum MatchState {
    Preparation,
    BattleReady,
    Completed,
}

/// Per-player pointer to current queue or match membership.
#[derive(Clone, Copy, Debug, PartialEq, Eq)]
pub struct Player {
    pub identity: Identity,
    pub state: PlayerState,
    pub current_match_id: Option<u64>,
}

/// A waiting player; `queued_at` is in microseconds since the Unix epoch.
#[derive(Clone, Copy, Debug, PartialEq, Eq)]
pub struct MatchmakingQueue {
    pub identity: Identity,
    pub queued_at: i64,
}

/// A match between two distinct players; `created_at` is in microseconds
/// since the Unix epoch.
#[derive(Clone, Copy, Debug, PartialEq, Eq)]
pub struct Match {
    pub match_id: u64,
    pub player1_identity: Identity,
    pub player2_identity: Identity,
    pub state: MatchState,
    pub battle_seed: u64,
    pub created_at: i64,
    pub winner_identity: Option<Identity>,
}

/// One unit placed by a player on their board within a match.
#[derive(Clone, Debug, PartialEq, Eq)]
pub struct BoardUnit {
    pub id: u64,
    pub match_id: u64,
    pub player_identity: Identity,
    pub unit_name: String,
    pub tier: u8,
    pub position_x: i32,
    pub position_y: i32,
    pub on_bench: bool,
}

/// An item attached to a board unit in an equip slot.
#[derive(Clone, Debug, PartialEq, Eq)]
pub struct UnitItem {
    pub id: u64,
    pub board_unit_id: u64,
    pub item_id: String,
    pub equip_index: u8,
}

/// Why a request was refused; a refused request changes nothing.
#[derive(Clone, Copy, Debug, PartialEq, Eq, Structural)]
pub enum ReducerError {
    AlreadyInMatch,
    MatchNotFound,
    UnitNotFound,
    NotParticipant,
    NotOwner,
    InvalidPhase,
}

pub open spec fn is_participant(m: Match, id: Identity) -> bool {
    m.player1_identity == id || m.player2_identity == id
}

/// The other participant of `m`, seen from `id`.
pub open spec fn opponent_of(m: Match, id: Identity) -> Identity {
    if m.player1_identity == id {
        m.player2_identity
    } else {
        m.player1_identity
    }
}

} // verus!
