//! Server logic for a two-player matchmaking and battle-preparation service:
//! a FIFO queue, pairing, the match lifecycle and per-match board loadouts,
//! held in an in-memory table store whose consistency every handler keeps.

mod types;
mod db;
mod queue;
mod board;
mod lifecycle;
mod laws;

pub use types::{Identity, PlayerState, MatchState, Player, MatchmakingQueue, Match, BoardUnit, UnitItem, ReducerError};
pub use db::Db;
pub use queue::{join_matchmaking, leave_matchmaking, try_create_match, battle_seed, SEED_MULTIPLIER};
pub use board::{update_board_state, clear_board_state, add_unit_item};
pub use lifecycle::{mark_ready, submit_battle_result, forfeit_match};
pub use laws::{lemma_one_match_per_identity, lemma_seed_from_id, lemma_clear_leaves_nothing, lemma_completion_leaves_nothing, lemma_board_locked};
