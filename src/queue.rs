use vstd::prelude::*;
use crate::types::{Identity, PlayerState, MatchState, Player, MatchmakingQueue, Match, ReducerError, is_participant};
use crate::db::{Db, players_ok, queue_ok, matches_ok, units_ok, player_with, match_with, has_match,
    has_player, in_queue, find_player, find_queued, find_match};
use crate::lifecycle::set_player;

verus! {

/// The odd constant that a match id is multiplied by to give its seed.
pub const SEED_MULTIPLIER: u64 = 12345;

/// The battle seed of match `match_id`: the id times `SEED_MULTIPLIER`,
/// truncated to 64 bits.
pub open spec fn seed_of(match_id: u64) -> u64 {
    ((match_id as nat * SEED_MULTIPLIER as nat) % 0x1_0000_0000_0000_0000nat) as u64
}

/// Derives the battle seed of a match from its id alone.
pub fn battle_seed(match_id: u64) -> (r: u64)
    ensures
        r == seed_of(match_id),
{
    match_id.wrapping_mul(SEED_MULTIPLIER)
}

/// The id a match formed at `now` (microseconds since the epoch) gets.
pub open spec fn id_at(now: i64) -> u64 {
    now as u64
}

/// Entry `a` of the queue goes before entry `b`: it was queued earlier, or at
/// the same time and stands before it.
pub open spec fn earlier(q: Seq<MatchmakingQueue>, a: int, b: int) -> bool {
    q[a].queued_at < q[b].queued_at || (q[a].queued_at == q[b].queued_at && a < b)
}

/// Entry `a` goes before every other entry.
pub open spec fn is_first(q: Seq<MatchmakingQueue>, a: int) -> bool {
    &&& 0 <= a < q.len()
    &&& forall|k: int| 0 <= k < q.len() && k != a ==> #[trigger] earlier(q, a, k)
}

/// Entry `b` goes before every entry other than the first, `a`.
pub open spec fn is_second(q: Seq<MatchmakingQueue>, a: int, b: int) -> bool {
    &&& 0 <= b < q.len()
    &&& b != a
    &&& forall|k: int| 0 <= k < q.len() && k != a && k != b ==> #[trigger] earlier(q, b, k)
}

/// The match formed at `now` between `p1` and `p2`.
pub open spec fn new_match(now: i64, p1: Identity, p2: Identity) -> Match {
    Match {
        match_id: id_at(now),
        player1_identity: p1,
        player2_identity: p2,
        state: MatchState::Preparation,
        battle_seed: seed_of(id_at(now)),
        created_at: now,
        winner_identity: None,
    }
}

/// Holds of the queue entries of identities that are not participants of `m`.
pub open spec fn outside_of(m: Match) -> spec_fn(MatchmakingQueue) -> bool {
    |e: MatchmakingQueue| !is_participant(m, e.identity)
}

/// `new` is `old` after the two participants of `m` were paired into it:
/// `m` is added, both players point at it, and both leave the queue, which
/// otherwise keeps its order.
pub open spec fn paired(old: Db, new: Db, m: Match) -> bool {
    &&& new.matches@ == old.matches@.push(m)
    &&& new.players@.len() == old.players@.len()
    &&& forall|i: int| 0 <= i < old.players@.len() ==> #[trigger] new.players@[i] == if is_participant(m, old.players@[i].identity) {
        Player { identity: old.players@[i].identity, state: PlayerState::InMatch, current_match_id: Some(m.match_id) }
    } else {
        old.players@[i]
    }
    &&& new.queue@ == old.queue@.filter(outside_of(m))
    &&& new.units == old.units
    &&& new.items == old.items
    &&& new.next_unit_id == old.next_unit_id
    &&& new.next_item_id == old.next_item_id
}

/// What one pairing attempt at `now` does: with fewer than two entries, or
/// when the id of `now` already names a live match, nothing; otherwise the
/// first two entries in queue order are paired.
pub open spec fn pairing(old: Db, new: Db, now: i64, r: Option<Match>) -> bool {
    if old.queue@.len() < 2 || has_match(old.matches@, id_at(now)) {
        r is None && new == old
    } else {
        exists|a: int, b: int| {
            &&& is_first(old.queue@, a)
            &&& #[trigger] is_second(old.queue@, a, b)
            &&& r == Some(new_match(now, old.queue@[a].identity, old.queue@[b].identity))
            &&& paired(old, new, new_match(now, old.queue@[a].identity, old.queue@[b].identity))
        }
    }
}

/// Position of the entry that goes before all others but `skip`.
fn earliest(q: &Vec<MatchmakingQueue>, skip: Option<usize>) -> (r: usize)
    requires
        q@.len() >= 2,
        skip matches Some(s) ==> s < q@.len(),
    ensures
        r < q@.len(),
        skip matches Some(s) ==> r != s,
        forall|k: int| 0 <= k < q@.len() && k != r && !(skip matches Some(s) && k == s) ==> #[trigger] earlier(q@, r as int, k),
{
    let mut best: usize = if skip == Some(0usize) { 1 } else { 0 };
    let mut i: usize = best + 1;
    while i < q.len()
        invariant
            q@.len() >= 2,
            skip matches Some(s) ==> s < q@.len(),
            best < i <= q@.len(),
            skip matches Some(s) ==> best != s,
            forall|k: int| 0 <= k < i && k != best && !(skip matches Some(s) && k == s) ==> #[trigger] earlier(q@, best as int, k),
        decreases q@.len() - i,
    {
        let ghost old_best = best;
        if skip != Some(i) && q[i].queued_at < q[best].queued_at {
            best = i;
        }
        assert forall|k: int| 0 <= k < i + 1 && k != best && !(skip matches Some(s) && k == s) implies #[trigger] earlier(q@, best as int, k) by {
            if k != old_best && k < i {
                assert(earlier(q@, old_best as int, k));
            }
        }
        i = i + 1;
    }
    best
}

/// The queue without the entries of `m`'s participants, in its order.
fn kept_entries(q: &Vec<MatchmakingQueue>, m: &Match) -> (r: Vec<MatchmakingQueue>)
    requires
        forall|a: int, b: int| 0 <= a < b < q@.len() ==> (#[trigger] q@[a]).identity != (#[trigger] q@[b]).identity,
    ensures
        r@ == q@.filter(outside_of(*m)),
        forall|a: int, b: int| 0 <= a < b < r@.len() ==> (#[trigger] r@[a]).identity != (#[trigger] r@[b]).identity,
        forall|a: int| 0 <= a < r@.len() ==> !is_participant(*m, (#[trigger] r@[a]).identity)
            && exists|t: int| 0 <= t < q@.len() && #[trigger] q@[t] == r@[a],
{
    let mut out: Vec<MatchmakingQueue> = Vec::new();
    let mut i: usize = 0;
    while i < q.len()
        invariant
            i <= q@.len(),
            out@ == q@.take(i as int).filter(outside_of(*m)),
            forall|a: int, b: int| 0 <= a < b < q@.len() ==> (#[trigger] q@[a]).identity != (#[trigger] q@[b]).identity,
            forall|a: int, b: int| 0 <= a < b < out@.len() ==> (#[trigger] out@[a]).identity != (#[trigger] out@[b]).identity,
            forall|a: int| 0 <= a < out@.len() ==> !is_participant(*m, (#[trigger] out@[a]).identity)
                && exists|t: int| 0 <= t < i && #[trigger] q@[t] == out@[a],
        decreases q@.len() - i,
    {
        let ghost prev = out@;
        let e = q[i];
        if e.identity != m.player1_identity && e.identity != m.player2_identity {
            out.push(e);
            assert forall|a: int, b: int| 0 <= a < b < out@.len() implies (#[trigger] out@[a]).identity != (#[trigger] out@[b]).identity by {
                if b == prev.len() {
                    let t = choose|t: int| 0 <= t < i && #[trigger] q@[t] == prev[a];
                    assert(out@[a] == q@[t]);
                }
            }
            assert forall|a: int| 0 <= a < out@.len() implies !is_participant(*m, (#[trigger] out@[a]).identity)
                && exists|t: int| 0 <= t < i + 1 && #[trigger] q@[t] == out@[a] by {
                if a < prev.len() {
                    let t = choose|t: int| 0 <= t < i && #[trigger] q@[t] == prev[a];
                    assert(out@[a] == q@[t]);
                } else {
                    assert(out@[a] == q@[i as int]);
                }
            }
        }
        proof {
            reveal(Seq::filter);
            assert(q@.take(i as int + 1).drop_last() =~= q@.take(i as int));
            let t = q@.take(i as int + 1);
            assert(t.last() == q@[i as int]);
            assert(outside_of(*m)(t.last()) == (e.identity != m.player1_identity && e.identity != m.player2_identity));
            assert(t.filter(outside_of(*m)) == if outside_of(*m)(t.last()) { t.drop_last().filter(outside_of(*m)).push(t.last()) } else { t.drop_last().filter(outside_of(*m)) });
            assert(out@ == t.filter(outside_of(*m)));
        }
        i = i + 1;
    }
    assert(q@.take(q@.len() as int) =~= q@);
    assert forall|a: int| 0 <= a < out@.len() implies !is_participant(*m, (#[trigger] out@[a]).identity)
        && exists|t: int| 0 <= t < q@.len() && #[trigger] q@[t] == out@[a] by {
        let t = choose|t: int| 0 <= t < i && #[trigger] q@[t] == out@[a];
    }
    out
}

/// Pairing entries `a` and `b` into the fresh match `m` keeps the store
/// consistent.
#[verifier::rlimit(40)]
proof fn lemma_pair_consistent(old: Db, new: Db, a: int, b: int, m: Match)
    requires
        old.wf(),
        0 <= a < old.queue@.len(),
        0 <= b < old.queue@.len(),
        a != b,
        m.player1_identity == old.queue@[a].identity,
        m.player2_identity == old.queue@[b].identity,
        m.state == MatchState::Preparation,
        m.winner_identity is None,
        m.battle_seed == seed_of(m.match_id),
        !has_match(old.matches@, m.match_id),
        paired(old, new, m),
        forall|x: int, y: int| 0 <= x < y < new.queue@.len() ==> (#[trigger] new.queue@[x]).identity != (#[trigger] new.queue@[y]).identity,
        forall|x: int| 0 <= x < new.queue@.len() ==> !is_participant(m, (#[trigger] new.queue@[x]).identity)
            && exists|t: int| 0 <= t < old.queue@.len() && #[trigger] old.queue@[t] == new.queue@[x],
    ensures
        new.wf(),
{
    let ps = old.players@;
    let nps = new.players@;
    let ms = old.matches@;
    let nms = new.matches@;
    let q = old.queue@;
    assert forall|i: int| 0 <= i < ps.len() implies (#[trigger] nps[i]).identity == ps[i].identity by {}
    // A queued identity's row points at no match.
    assert forall|t: int, k: int| 0 <= t < q.len() && 0 <= k < ps.len() && #[trigger] ps[k].identity == #[trigger] q[t].identity
        implies ps[k].current_match_id is None by {
        let k2 = choose|k2: int| 0 <= k2 < ps.len() && (#[trigger] ps[k2]).identity == q[t].identity && ps[k2].current_match_id == None::<u64>;
        if k2 < k {
            assert(ps[k2].identity != ps[k].identity);
        } else if k < k2 {
            assert(ps[k].identity != ps[k2].identity);
        }
    }
    assert(m.player1_identity != m.player2_identity) by {
        if a < b {
            assert(q[a].identity != q[b].identity);
        } else {
            assert(q[b].identity != q[a].identity);
        }
    }
    assert forall|j: int| 0 <= j < ms.len() implies (#[trigger] nms[j]) == ms[j] by {}
    assert(nms[ms.len() as int] == m);
    // players_ok
    assert forall|i: int, j: int| 0 <= i < j < nps.len() implies (#[trigger] nps[i]).identity != (#[trigger] nps[j]).identity by {
        assert(ps[i].identity != ps[j].identity);
    }
    assert forall|i: int| 0 <= i < nps.len() implies match (#[trigger] nps[i]).current_match_id {
        Some(mid) => nps[i].state == PlayerState::InMatch && match_with(nms, mid, nps[i].identity),
        None => nps[i].state == PlayerState::InQueue,
    } by {
        if is_participant(m, ps[i].identity) {
            assert(nms[ms.len() as int] == m);
        } else {
            assert(nps[i] == ps[i]);
            match ps[i].current_match_id {
                Some(mid) => {
                    let t = choose|t: int| 0 <= t < ms.len() && (#[trigger] ms[t]).match_id == mid && is_participant(ms[t], ps[i].identity);
                    assert(nms[t] == ms[t]);
                },
                None => {},
            }
        }
    }
    // queue_ok
    assert forall|x: int| 0 <= x < new.queue@.len() implies player_with(nps, (#[trigger] new.queue@[x]).identity, None) by {
        let e = new.queue@[x];
        let t = choose|t: int| 0 <= t < q.len() && #[trigger] q[t] == e;
        let k = choose|k: int| 0 <= k < ps.len() && (#[trigger] ps[k]).identity == q[t].identity && ps[k].current_match_id == None::<u64>;
        assert(nps[k] == ps[k]);
    }
    // matches_ok
    assert forall|x: int, y: int| 0 <= x < y < nms.len() implies (#[trigger] nms[x]).match_id != (#[trigger] nms[y]).match_id by {
        if y == ms.len() {
            assert(nms[x] == ms[x]);
        } else {
            assert(ms[x].match_id != ms[y].match_id);
        }
    }
    assert forall|j: int| 0 <= j < nms.len() implies {
        let x = #[trigger] nms[j];
        &&& x.player1_identity != x.player2_identity
        &&& x.state != MatchState::Completed
        &&& x.winner_identity is None
        &&& x.battle_seed == seed_of(x.match_id)
        &&& player_with(nps, x.player1_identity, Some(x.match_id))
        &&& player_with(nps, x.player2_identity, Some(x.match_id))
    } by {
        if j == ms.len() {
            let k1 = choose|k: int| 0 <= k < ps.len() && (#[trigger] ps[k]).identity == q[a].identity && ps[k].current_match_id == None::<u64>;
            let k2 = choose|k: int| 0 <= k < ps.len() && (#[trigger] ps[k]).identity == q[b].identity && ps[k].current_match_id == None::<u64>;
            assert(nps[k1].identity == m.player1_identity);
            assert(nps[k2].identity == m.player2_identity);
        } else {
            let x = ms[j];
            let k1 = choose|k: int| 0 <= k < ps.len() && (#[trigger] ps[k]).identity == x.player1_identity && ps[k].current_match_id == Some(x.match_id);
            let k2 = choose|k: int| 0 <= k < ps.len() && (#[trigger] ps[k]).identity == x.player2_identity && ps[k].current_match_id == Some(x.match_id);
            if ps[k1].identity == q[a].identity || ps[k1].identity == q[b].identity {
                assert(ps[k1].identity == q[a].identity ==> ps[k1].current_match_id is None);
                assert(ps[k1].identity == q[b].identity ==> ps[k1].current_match_id is None);
            }
            if ps[k2].identity == q[a].identity || ps[k2].identity == q[b].identity {
                assert(ps[k2].identity == q[a].identity ==> ps[k2].current_match_id is None);
                assert(ps[k2].identity == q[b].identity ==> ps[k2].current_match_id is None);
            }
            assert(nps[k1] == ps[k1]);
            assert(nps[k2] == ps[k2]);
        }
    }
    // units_ok
    assert forall|i: int| 0 <= i < new.units@.len() implies (#[trigger] new.units@[i]).id < new.next_unit_id
        && match_with(nms, new.units@[i].match_id, new.units@[i].player_identity) by {
        let u = new.units@[i];
        assert(u == old.units@[i]);
        let t = choose|t: int| 0 <= t < ms.len() && (#[trigger] ms[t]).match_id == u.match_id && is_participant(ms[t], u.player_identity);
        assert(nms[t] == ms[t]);
    }
}

/// One pairing attempt at `now`: when at least two players wait, the two
/// first in queue order (earliest `queued_at`, ties by position) form a match
/// in preparation whose id is `now` and whose seed derives from that id; both
/// leave the queue and point at the match, all in one step. A match id that
/// is already live forms no second match.
pub fn try_create_match(db: &mut Db, now: i64) -> (r: Option<Match>)
    requires
        old(db).wf(),
    ensures
        final(db).wf(),
        pairing(*old(db), *final(db), now, r),
{
    if db.queue.len() < 2 {
        return None;
    }
    let match_id = now as u64;
    if find_match(&db.matches, match_id).is_some() {
        return None;
    }
    let a = earliest(&db.queue, None);
    let b = earliest(&db.queue, Some(a));
    let p1 = db.queue[a].identity;
    let p2 = db.queue[b].identity;
    let m = Match {
        match_id,
        player1_identity: p1,
        player2_identity: p2,
        state: MatchState::Preparation,
        battle_seed: battle_seed(match_id),
        created_at: now,
        winner_identity: None,
    };
    db.matches.push(m);
    let ghost ps = db.players@;
    set_player(&mut db.players, Player { identity: p1, state: PlayerState::InMatch, current_match_id: Some(match_id) });
    proof {
        assert forall|i: int, j: int| 0 <= i < j < db.players@.len() implies (#[trigger] db.players@[i]).identity != (#[trigger] db.players@[j]).identity by {
            assert(ps[i].identity != ps[j].identity);
        }
    }
    set_player(&mut db.players, Player { identity: p2, state: PlayerState::InMatch, current_match_id: Some(match_id) });
    db.queue = kept_entries(&db.queue, &m);
    proof {
        let q = old(db).queue@;
        assert(is_first(q, a as int));
        assert(is_second(q, a as int, b as int));
        assert(m == new_match(now, q[a as int].identity, q[b as int].identity));
        assert(q[a as int].identity != q[b as int].identity) by {
            if a < b {
                assert(q[a as int].identity != q[b as int].identity);
            } else {
                assert(q[b as int].identity != q[a as int].identity);
            }
        }
        assert forall|i: int| 0 <= i < ps.len() implies #[trigger] db.players@[i] == if is_participant(m, ps[i].identity) {
            Player { identity: ps[i].identity, state: PlayerState::InMatch, current_match_id: Some(m.match_id) }
        } else {
            ps[i]
        } by {}
        assert(paired(*old(db), *db, m));
        lemma_pair_consistent(*old(db), *db, a as int, b as int, m);
    }
    Some(m)
}

/// `id` has a player row that is in a match.
pub open spec fn in_match(ps: Seq<Player>, id: Identity) -> bool {
    exists|k: int| 0 <= k < ps.len() && (#[trigger] ps[k]).identity == id && ps[k].state == PlayerState::InMatch
}

/// `new` is `old` after `caller` entered the queue at `now`: a player row
/// `{InQueue, none}` is created if there was none, and a queue entry stamped
/// `now` is added if there was none.
pub open spec fn enqueued(old: Db, new: Db, caller: Identity, now: i64) -> bool {
    &&& new.players@ == if has_player(old.players@, caller) {
        old.players@
    } else {
        old.players@.push(Player { identity: caller, state: PlayerState::InQueue, current_match_id: None })
    }
    &&& new.queue@ == if in_queue(old.queue@, caller) {
        old.queue@
    } else {
        old.queue@.push(MatchmakingQueue { identity: caller, queued_at: now })
    }
    &&& new.matches == old.matches
    &&& new.units == old.units
    &&& new.items == old.items
    &&& new.next_unit_id == old.next_unit_id
    &&& new.next_item_id == old.next_item_id
}

/// `caller` enters matchmaking at `now` (microseconds since the epoch), then
/// one pairing attempt runs. A caller that is in a match is refused.
pub fn join_matchmaking(db: &mut Db, caller: Identity, now: i64) -> (r: Result<(), ReducerError>)
    requires
        old(db).wf(),
    ensures
        final(db).wf(),
        r is Err <==> in_match(old(db).players@, caller),
        r is Err ==> r == Err::<(), ReducerError>(ReducerError::AlreadyInMatch) && *final(db) == *old(db),
        r is Ok ==> exists|mid: Db, pm: Option<Match>| {
            &&& mid.wf()
            &&& enqueued(*old(db), mid, caller, now)
            &&& #[trigger] pairing(mid, *final(db), now, pm)
        },
{
    let ghost ps = db.players@;
    match find_player(&db.players, caller) {
        Some(k) => {
            if db.players[k].state == PlayerState::InMatch {
                return Err(ReducerError::AlreadyInMatch);
            }
            proof {
                assert forall|t: int| 0 <= t < ps.len() && (#[trigger] ps[t]).identity == caller implies ps[t].state != PlayerState::InMatch by {
                    if t < k {
                        assert(ps[t].identity != ps[k as int].identity);
                    } else if k < t {
                        assert(ps[k as int].identity != ps[t].identity);
                    }
                }
            }
        },
        None => {
            db.players.push(Player { identity: caller, state: PlayerState::InQueue, current_match_id: None });
        },
    }
    if find_queued(&db.queue, caller).is_none() {
        db.queue.push(MatchmakingQueue { identity: caller, queued_at: now });
    }
    let ghost mid = *db;
    proof {
        lemma_enqueue_consistent(*old(db), mid, caller, now);
    }
    let pm = try_create_match(db, now);
    assert(pairing(mid, *db, now, pm));
    Ok(())
}

/// Entering the queue keeps the store consistent.
#[verifier::rlimit(30)]
proof fn lemma_enqueue_consistent(old: Db, new: Db, caller: Identity, now: i64)
    requires
        old.wf(),
        enqueued(old, new, caller, now),
        !in_match(old.players@, caller),
    ensures
        new.wf(),
{
    let ps = old.players@;
    let nps = new.players@;
    let q = old.queue@;
    let nq = new.queue@;
    assert forall|k: int| 0 <= k < ps.len() implies #[trigger] nps[k] == ps[k] by {}
    assert forall|k: int| 0 <= k < q.len() implies #[trigger] nq[k] == q[k] by {}
    assert forall|id: Identity, cur: Option<u64>| #[trigger] player_with(ps, id, cur) implies player_with(nps, id, cur) by {
        let k = choose|k: int| 0 <= k < ps.len() && (#[trigger] ps[k]).identity == id && ps[k].current_match_id == cur;
        assert(nps[k] == ps[k]);
    }
    assert(player_with(nps, caller, None)) by {
        if has_player(ps, caller) {
            let k = choose|k: int| 0 <= k < ps.len() && (#[trigger] ps[k]).identity == caller;
            assert(ps[k].state != PlayerState::InMatch);
            assert(nps[k] == ps[k]);
        } else {
            assert(nps[ps.len() as int].identity == caller);
        }
    }
    assert forall|i: int, j: int| 0 <= i < j < nps.len() implies (#[trigger] nps[i]).identity != (#[trigger] nps[j]).identity by {
        if j == ps.len() {
            assert(nps[i] == ps[i]);
        }
    }
    assert forall|i: int, j: int| 0 <= i < j < nq.len() implies (#[trigger] nq[i]).identity != (#[trigger] nq[j]).identity by {
        if j == q.len() {
            assert(nq[i] == q[i]);
        }
    }
    assert forall|i: int| 0 <= i < nq.len() implies player_with(nps, (#[trigger] nq[i]).identity, None) by {
        if i < q.len() {
            assert(player_with(ps, q[i].identity, None));
        }
    }
    assert forall|i: int| 0 <= i < nps.len() implies match (#[trigger] nps[i]).current_match_id {
        Some(mid) => nps[i].state == PlayerState::InMatch && match_with(new.matches@, mid, nps[i].identity),
        None => nps[i].state == PlayerState::InQueue,
    } by {
        if i < ps.len() {
            assert(nps[i] == ps[i]);
        }
    }
    assert forall|j: int| 0 <= j < new.matches@.len() implies {
        let x = #[trigger] new.matches@[j];
        &&& player_with(nps, x.player1_identity, Some(x.match_id))
        &&& player_with(nps, x.player2_identity, Some(x.match_id))
    } by {
        let x = new.matches@[j];
        assert(player_with(ps, x.player1_identity, Some(x.match_id)));
        assert(player_with(ps, x.player2_identity, Some(x.match_id)));
    }
}

/// `caller` leaves the queue if queued. Never fails; the player row is left
/// as it is.
pub fn leave_matchmaking(db: &mut Db, caller: Identity) -> (r: Result<(), ReducerError>)
    requires
        old(db).wf(),
    ensures
        final(db).wf(),
        r is Ok,
        !in_queue(old(db).queue@, caller) ==> *final(db) == *old(db),
        forall|k: int| 0 <= k < old(db).queue@.len() && (#[trigger] old(db).queue@[k]).identity == caller ==> {
            &&& final(db).queue@ == old(db).queue@.remove(k)
            &&& final(db).players == old(db).players
            &&& final(db).matches == old(db).matches
            &&& final(db).units == old(db).units
            &&& final(db).items == old(db).items
            &&& final(db).next_unit_id == old(db).next_unit_id
            &&& final(db).next_item_id == old(db).next_item_id
        },
{
    if let Some(k) = find_queued(&db.queue, caller) {
        let ghost q = db.queue@;
        let _ = db.queue.remove(k);
        proof {
            let nq = db.queue@;
            assert forall|t: int| 0 <= t < q.len() && (#[trigger] q[t]).identity == caller implies t == k by {
                if t < k {
                    assert(q[t].identity != q[k as int].identity);
                } else if k < t {
                    assert(q[k as int].identity != q[t].identity);
                }
            }
            assert forall|t: int| 0 <= t < nq.len() implies #[trigger] nq[t] == if t < k { q[t] } else { q[t + 1] } by {}
            assert forall|i: int, j: int| 0 <= i < j < nq.len() implies (#[trigger] nq[i]).identity != (#[trigger] nq[j]).identity by {
                let i2 = if i < k { i } else { i + 1 };
                let j2 = if j < k { j } else { j + 1 };
                assert(q[i2].identity != q[j2].identity);
            }
            assert forall|i: int| 0 <= i < nq.len() implies player_with(db.players@, (#[trigger] nq[i]).identity, None) by {
                let i2 = if i < k { i } else { i + 1 };
                assert(player_with(db.players@, q[i2].identity, None));
            }
        }
    }
    Ok(())
}

} // verus!
