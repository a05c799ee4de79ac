use vstd::prelude::*;
use crate::queue::seed_of;
use crate::types::{Identity, PlayerState, MatchState, Player, MatchmakingQueue, Match, BoardUnit, UnitItem, ReducerError, is_participant};

verus! {

/// The five tables of the service, with the next surrogate ids to hand out.
pub struct Db {
    pub players: Vec<Player>,
    pub queue: Vec<MatchmakingQueue>,
    pub matches: Vec<Match>,
    pub units: Vec<BoardUnit>,
    pub items: Vec<UnitItem>,
    pub next_unit_id: u64,
    pub next_item_id: u64,
}

pub open spec fn has_player(ps: Seq<Player>, id: Identity) -> bool {
    exists|k: int| 0 <= k < ps.len() && (#[trigger] ps[k]).identity == id
}

/// `id` has a player row whose match pointer is `cur`.
pub open spec fn player_with(ps: Seq<Player>, id: Identity, cur: Option<u64>) -> bool {
    exists|k: int| 0 <= k < ps.len() && (#[trigger] ps[k]).identity == id && ps[k].current_match_id == cur
}

pub open spec fn has_match(ms: Seq<Match>, mid: u64) -> bool {
    exists|j: int| 0 <= j < ms.len() && (#[trigger] ms[j]).match_id == mid
}

/// A live match with id `mid` has `id` as a participant.
pub open spec fn match_with(ms: Seq<Match>, mid: u64, id: Identity) -> bool {
    exists|j: int| 0 <= j < ms.len() && (#[trigger] ms[j]).match_id == mid && is_participant(ms[j], id)
}

pub open spec fn has_unit(us: Seq<BoardUnit>, uid: u64) -> bool {
    exists|j: int| 0 <= j < us.len() && (#[trigger] us[j]).id == uid
}

pub open spec fn in_queue(q: Seq<MatchmakingQueue>, id: Identity) -> bool {
    exists|k: int| 0 <= k < q.len() && (#[trigger] q[k]).identity == id
}

/// The live match with id `mid` (meaningful when `has_match(ms, mid)`).
pub open spec fn match_of(ms: Seq<Match>, mid: u64) -> Match {
    ms[choose|j: int| 0 <= j < ms.len() && (#[trigger] ms[j]).match_id == mid]
}

/// The unit with id `uid` (meaningful when `has_unit(us, uid)`).
pub open spec fn unit_of(us: Seq<BoardUnit>, uid: u64) -> BoardUnit {
    us[choose|j: int| 0 <= j < us.len() && (#[trigger] us[j]).id == uid]
}

pub open spec fn players_ok(ps: Seq<Player>, ms: Seq<Match>) -> bool {
    &&& forall|i: int, j: int|
        0 <= i < j < ps.len() ==> (#[trigger] ps[i]).identity != (#[trigger] ps[j]).identity
    &&& forall|i: int|
        0 <= i < ps.len() ==> match (#[trigger] ps[i]).current_match_id {
            Some(mid) => ps[i].state == PlayerState::InMatch && match_with(ms, mid, ps[i].identity),
            None => ps[i].state == PlayerState::InQueue,
        }
}

pub open spec fn queue_ok(ps: Seq<Player>, q: Seq<MatchmakingQueue>) -> bool {
    &&& forall|i: int, j: int|
        0 <= i < j < q.len() ==> (#[trigger] q[i]).identity != (#[trigger] q[j]).identity
    &&& forall|i: int| 0 <= i < q.len() ==> player_with(ps, (#[trigger] q[i]).identity, None)
}

pub open spec fn matches_ok(ps: Seq<Player>, ms: Seq<Match>) -> bool {
    &&& forall|i: int, j: int|
        0 <= i < j < ms.len() ==> (#[trigger] ms[i]).match_id != (#[trigger] ms[j]).match_id
    &&& forall|i: int|
        0 <= i < ms.len() ==> {
            let m = #[trigger] ms[i];
            &&& m.player1_identity != m.player2_identity
            &&& m.state != MatchState::Completed
            &&& m.winner_identity is None
            &&& m.battle_seed == seed_of(m.match_id)
            &&& player_with(ps, m.player1_identity, Some(m.match_id))
            &&& player_with(ps, m.player2_identity, Some(m.match_id))
        }
}

pub open spec fn units_ok(ms: Seq<Match>, us: Seq<BoardUnit>, next: u64) -> bool {
    &&& forall|i: int, j: int| 0 <= i < j < us.len() ==> (#[trigger] us[i]).id != (#[trigger] us[j]).id
    &&& forall|i: int|
        0 <= i < us.len() ==> (#[trigger] us[i]).id < next && match_with(ms, us[i].match_id, us[i].player_identity)
}

pub open spec fn items_ok(us: Seq<BoardUnit>, its: Seq<UnitItem>, next: u64) -> bool {
    &&& forall|i: int, j: int| 0 <= i < j < its.len() ==> (#[trigger] its[i]).id != (#[trigger] its[j]).id
    &&& forall|i: int| 0 <= i < its.len() ==> (#[trigger] its[i]).id < next && has_unit(us, its[i].board_unit_id)
}

impl Db {
    /// The store is consistent: each identity has at most one player row and
    /// one queue entry; a queued identity is not in a match; a player points
    /// at a match exactly when it is in one, and each live match is pointed at
    /// by both its (distinct) participants; units belong to a participant of a
    /// live match and items to an existing unit; a match's seed derives from
    /// its id; surrogate ids are unique and below the next id to hand out.
    pub open spec fn wf(&self) -> bool {
        &&& players_ok(self.players@, self.matches@)
        &&& queue_ok(self.players@, self.queue@)
        &&& matches_ok(self.players@, self.matches@)
        &&& units_ok(self.matches@, self.units@, self.next_unit_id)
        &&& items_ok(self.units@, self.items@, self.next_item_id)
    }

    /// An empty store; surrogate ids start at one.
    pub fn new() -> (r: Db)
        ensures
            r.wf(),
            r.players@.len() == 0,
            r.queue@.len() == 0,
            r.matches@.len() == 0,
            r.units@.len() == 0,
            r.items@.len() == 0,
            r.next_unit_id == 1,
            r.next_item_id == 1,
    {
        Db {
            players: Vec::new(),
            queue: Vec::new(),
            matches: Vec::new(),
            units: Vec::new(),
            items: Vec::new(),
            next_unit_id: 1,
            next_item_id: 1,
        }
    }
}

/// Position of the player row of `id`.
pub fn find_player(ps: &Vec<Player>, id: Identity) -> (r: Option<usize>)
    ensures
        match r {
            Some(k) => k < ps@.len() && ps@[k as int].identity == id,
            None => !has_player(ps@, id),
        },
{
    let mut k: usize = 0;
    while k < ps.len()
        invariant
            k <= ps@.len(),
            forall|t: int| 0 <= t < k ==> (#[trigger] ps@[t]).identity != id,
        decreases ps@.len() - k,
    {
        if ps[k].identity == id {
            return Some(k);
        }
        k = k + 1;
    }
    None
}

/// Position of the queue entry of `id`.
pub fn find_queued(q: &Vec<MatchmakingQueue>, id: Identity) -> (r: Option<usize>)
    ensures
        match r {
            Some(k) => k < q@.len() && q@[k as int].identity == id,
            None => !in_queue(q@, id),
        },
{
    let mut k: usize = 0;
    while k < q.len()
        invariant
            k <= q@.len(),
            forall|t: int| 0 <= t < k ==> (#[trigger] q@[t]).identity != id,
        decreases q@.len() - k,
    {
        if q[k].identity == id {
            return Some(k);
        }
        k = k + 1;
    }
    None
}

/// Position of the live match with id `mid`.
pub fn find_match(ms: &Vec<Match>, mid: u64) -> (r: Option<usize>)
    ensures
        match r {
            Some(j) => j < ms@.len() && ms@[j as int].match_id == mid,
            None => !has_match(ms@, mid),
        },
{
    let mut j: usize = 0;
    while j < ms.len()
        invariant
            j <= ms@.len(),
            forall|t: int| 0 <= t < j ==> (#[trigger] ms@[t]).match_id != mid,
        decreases ms@.len() - j,
    {
        if ms[j].match_id == mid {
            return Some(j);
        }
        j = j + 1;
    }
    None
}

/// Position of the unit with id `uid`.
pub fn find_unit(us: &Vec<BoardUnit>, uid: u64) -> (r: Option<usize>)
    ensures
        match r {
            Some(j) => j < us@.len() && us@[j as int].id == uid,
            None => !has_unit(us@, uid),
        },
{
    let mut j: usize = 0;
    while j < us.len()
        invariant
            j <= us@.len(),
            forall|t: int| 0 <= t < j ==> (#[trigger] us@[t]).id != uid,
        decreases us@.len() - j,
    {
        if us[j].id == uid {
            return Some(j);
        }
        j = j + 1;
    }
    None
}

/// With unique match ids, the match found at `j` is `match_of(ms, mid)`.
pub proof fn lemma_match_of(ms: Seq<Match>, mid: u64, j: int)
    requires
        0 <= j < ms.len(),
        ms[j].match_id == mid,
        forall|a: int, b: int| 0 <= a < b < ms.len() ==> (#[trigger] ms[a]).match_id != (#[trigger] ms[b]).match_id,
    ensures
        has_match(ms, mid),
        match_of(ms, mid) == ms[j],
{
    let c = choose|c: int| 0 <= c < ms.len() && (#[trigger] ms[c]).match_id == mid;
    assert(ms[j].match_id == mid);
    if c < j {
        assert(ms[c].match_id != ms[j].match_id);
    } else if j < c {
        assert(ms[j].match_id != ms[c].match_id);
    }
}

/// With unique unit ids, the unit found at `j` is `unit_of(us, uid)`.
pub proof fn lemma_unit_of(us: Seq<BoardUnit>, uid: u64, j: int)
    requires
        0 <= j < us.len(),
        us[j].id == uid,
        forall|a: int, b: int| 0 <= a < b < us.len() ==> (#[trigger] us[a]).id != (#[trigger] us[b]).id,
    ensures
        has_unit(us, uid),
        unit_of(us, uid) == us[j],
{
    let c = choose|c: int| 0 <= c < us.len() && (#[trigger] us[c]).id == uid;
    assert(us[j].id == uid);
    if c < j {
        assert(us[c].id != us[j].id);
    } else if j < c {
        assert(us[j].id != us[c].id);
    }
}

/// Whether `caller` may act on match `mid`: the match must be live and the
/// caller one of its participants.
pub open spec fn match_access(ms: Seq<Match>, mid: u64, caller: Identity) -> Result<(), ReducerError> {
    if !has_match(ms, mid) {
        Err(ReducerError::MatchNotFound)
    } else if !is_participant(match_of(ms, mid), caller) {
        Err(ReducerError::NotParticipant)
    } else {
        Ok(())
    }
}

/// Position of match `mid` when `caller` may act on it.
pub fn access_match(ms: &Vec<Match>, mid: u64, caller: Identity) -> (r: Result<usize, ReducerError>)
    requires
        forall|a: int, b: int| 0 <= a < b < ms@.len() ==> (#[trigger] ms@[a]).match_id != (#[trigger] ms@[b]).match_id,
    ensures
        match r {
            Ok(j) => {
                &&& match_access(ms@, mid, caller) is Ok
                &&& j < ms@.len()
                &&& ms@[j as int].match_id == mid
                &&& match_of(ms@, mid) == ms@[j as int]
                &&& is_participant(ms@[j as int], caller)
            },
            Err(e) => match_access(ms@, mid, caller) == Err::<(), ReducerError>(e),
        },
{
    match find_match(ms, mid) {
        None => Err(ReducerError::MatchNotFound),
        Some(j) => {
            proof {
                lemma_match_of(ms@, mid, j as int);
            }
            if ms[j].player1_identity != caller && ms[j].player2_identity != caller {
                Err(ReducerError::NotParticipant)
            } else {
                Ok(j)
            }
        },
    }
}

} // verus!
