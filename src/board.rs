use vstd::prelude::*;
use crate::types::{Identity, Match, MatchState, BoardUnit, UnitItem, ReducerError};
use crate::db::{Db, has_unit, match_with, match_of, unit_of, units_ok, items_ok,
    find_unit, match_access, access_match, lemma_unit_of};

verus! {

/// A unit is swept when it belongs to match `mid` and, when `owner` is
/// given, is owned by that identity.
pub open spec fn swept(u: BoardUnit, mid: u64, owner: Option<Identity>) -> bool {
    u.match_id == mid && match owner {
        Some(o) => u.player_identity == o,
        None => true,
    }
}

/// An item is swept with its owning unit.
pub open spec fn item_swept(us: Seq<BoardUnit>, it: UnitItem, mid: u64, owner: Option<Identity>) -> bool {
    has_unit(us, it.board_unit_id) && swept(unit_of(us, it.board_unit_id), mid, owner)
}

fn copy_unit(u: &BoardUnit) -> (r: BoardUnit)
    ensures
        r == *u,
{
    BoardUnit {
        id: u.id,
        match_id: u.match_id,
        player_identity: u.player_identity,
        unit_name: u.unit_name.clone(),
        tier: u.tier,
        position_x: u.position_x,
        position_y: u.position_y,
        on_bench: u.on_bench,
    }
}

fn copy_item(it: &UnitItem) -> (r: UnitItem)
    ensures
        r == *it,
{
    UnitItem {
        id: it.id,
        board_unit_id: it.board_unit_id,
        item_id: it.item_id.clone(),
        equip_index: it.equip_index,
    }
}

fn is_swept(u: &BoardUnit, mid: u64, owner: Option<Identity>) -> (r: bool)
    ensures
        r == swept(*u, mid, owner),
{
    u.match_id == mid && match owner {
        Some(o) => u.player_identity == o,
        None => true,
    }
}

/// The units that are not swept, in their order.
fn kept_units(us: &Vec<BoardUnit>, mid: u64, owner: Option<Identity>) -> (r: Vec<BoardUnit>)
    requires
        forall|a: int, b: int| 0 <= a < b < us@.len() ==> (#[trigger] us@[a]).id != (#[trigger] us@[b]).id,
    ensures
        forall|a: int, b: int| 0 <= a < b < r@.len() ==> (#[trigger] r@[a]).id != (#[trigger] r@[b]).id,
        forall|x: BoardUnit| #[trigger] r@.contains(x) <==> us@.contains(x) && !swept(x, mid, owner),
{
    let mut out: Vec<BoardUnit> = Vec::new();
    let mut i: usize = 0;
    while i < us.len()
        invariant
            i <= us@.len(),
            forall|a: int, b: int| 0 <= a < b < us@.len() ==> (#[trigger] us@[a]).id != (#[trigger] us@[b]).id,
            forall|a: int, b: int| 0 <= a < b < out@.len() ==> (#[trigger] out@[a]).id != (#[trigger] out@[b]).id,
            forall|a: int| 0 <= a < out@.len() ==> exists|t: int| 0 <= t < i && #[trigger] out@[a] == us@[t],
            forall|x: BoardUnit| out@.contains(x) <==> us@.take(i as int).contains(x) && !swept(x, mid, owner),
        decreases us@.len() - i,
    {
        let ghost prev = out@;
        assert(us@.take(i as int + 1) =~= us@.take(i as int).push(us@[i as int]));
        if !is_swept(&us[i], mid, owner) {
            let u = copy_unit(&us[i]);
            out.push(u);
            assert forall|a: int, b: int| 0 <= a < b < out@.len() implies (#[trigger] out@[a]).id != (#[trigger] out@[b]).id by {
                if b == prev.len() {
                    let t = choose|t: int| 0 <= t < i && #[trigger] prev[a] == us@[t];
                    assert(out@[a] == us@[t]);
                }
            }
            assert forall|a: int| 0 <= a < out@.len() implies exists|t: int| 0 <= t < i + 1 && #[trigger] out@[a] == us@[t] by {
                if a < prev.len() {
                    let t = choose|t: int| 0 <= t < i && #[trigger] prev[a] == us@[t];
                    assert(out@[a] == us@[t]);
                } else {
                    assert(out@[a] == us@[i as int]);
                }
            }
            assert forall|x: BoardUnit| out@.contains(x) <==> us@.take(i as int + 1).contains(x) && !swept(x, mid, owner) by {
                if x == us@[i as int] {
                    assert(out@[prev.len() as int] == x);
                    assert(us@.take(i as int + 1)[i as int] == x);
                }
                if out@.contains(x) && x != us@[i as int] {
                    let a = choose|a: int| 0 <= a < out@.len() && out@[a] == x;
                    assert(prev[a] == x);
                    assert(prev.contains(x));
                }
                if us@.take(i as int + 1).contains(x) && !swept(x, mid, owner) && x != us@[i as int] {
                    let a = choose|a: int| 0 <= a < i + 1 && #[trigger] us@.take(i as int + 1)[a] == x;
                    assert(us@.take(i as int)[a] == x);
                    assert(prev.contains(x));
                    let c = choose|c: int| 0 <= c < prev.len() && prev[c] == x;
                    assert(out@[c] == x);
                }
            }
        } else {
            assert forall|x: BoardUnit| out@.contains(x) <==> us@.take(i as int + 1).contains(x) && !swept(x, mid, owner) by {
                if us@.take(i as int + 1).contains(x) && !swept(x, mid, owner) {
                    let a = choose|a: int| 0 <= a < i + 1 && #[trigger] us@.take(i as int + 1)[a] == x;
                    assert(a < i);
                    assert(us@.take(i as int)[a] == x);
                }
            }
        }
        i = i + 1;
    }
    assert(us@.take(us@.len() as int) =~= us@);
    out
}

fn item_is_swept(us: &Vec<BoardUnit>, it: &UnitItem, mid: u64, owner: Option<Identity>) -> (r: bool)
    requires
        forall|a: int, b: int| 0 <= a < b < us@.len() ==> (#[trigger] us@[a]).id != (#[trigger] us@[b]).id,
    ensures
        r == item_swept(us@, *it, mid, owner),
{
    match find_unit(us, it.board_unit_id) {
        Some(j) => {
            proof {
                lemma_unit_of(us@, it.board_unit_id, j as int);
            }
            is_swept(&us[j], mid, owner)
        },
        None => false,
    }
}

/// The items whose owning unit in `owners` is not swept, in their order.
fn kept_items(owners: &Vec<BoardUnit>, us: &Vec<UnitItem>, mid: u64, owner: Option<Identity>) -> (r: Vec<UnitItem>)
    requires
        forall|a: int, b: int| 0 <= a < b < owners@.len() ==> (#[trigger] owners@[a]).id != (#[trigger] owners@[b]).id,
        forall|a: int, b: int| 0 <= a < b < us@.len() ==> (#[trigger] us@[a]).id != (#[trigger] us@[b]).id,
    ensures
        forall|a: int, b: int| 0 <= a < b < r@.len() ==> (#[trigger] r@[a]).id != (#[trigger] r@[b]).id,
        forall|x: UnitItem| #[trigger] r@.contains(x) <==> us@.contains(x) && !item_swept(owners@, x, mid, owner),
{
    let mut out: Vec<UnitItem> = Vec::new();
    let mut i: usize = 0;
    while i < us.len()
        invariant
            i <= us@.len(),
            forall|a: int, b: int| 0 <= a < b < owners@.len() ==> (#[trigger] owners@[a]).id != (#[trigger] owners@[b]).id,
            forall|a: int, b: int| 0 <= a < b < us@.len() ==> (#[trigger] us@[a]).id != (#[trigger] us@[b]).id,
            forall|a: int, b: int| 0 <= a < b < out@.len() ==> (#[trigger] out@[a]).id != (#[trigger] out@[b]).id,
            forall|a: int| 0 <= a < out@.len() ==> exists|t: int| 0 <= t < i && #[trigger] out@[a] == us@[t],
            forall|x: UnitItem| out@.contains(x) <==> us@.take(i as int).contains(x) && !item_swept(owners@, x, mid, owner),
        decreases us@.len() - i,
    {
        let ghost prev = out@;
        assert(us@.take(i as int + 1) =~= us@.take(i as int).push(us@[i as int]));
        if !item_is_swept(owners, &us[i], mid, owner) {
            let u = copy_item(&us[i]);
            out.push(u);
            assert forall|a: int, b: int| 0 <= a < b < out@.len() implies (#[trigger] out@[a]).id != (#[trigger] out@[b]).id by {
                if b == prev.len() {
                    let t = choose|t: int| 0 <= t < i && #[trigger] prev[a] == us@[t];
                    assert(out@[a] == us@[t]);
                }
            }
            assert forall|a: int| 0 <= a < out@.len() implies exists|t: int| 0 <= t < i + 1 && #[trigger] out@[a] == us@[t] by {
                if a < prev.len() {
                    let t = choose|t: int| 0 <= t < i && #[trigger] prev[a] == us@[t];
                    assert(out@[a] == us@[t]);
                } else {
                    assert(out@[a] == us@[i as int]);
                }
            }
            assert forall|x: UnitItem| out@.contains(x) <==> us@.take(i as int + 1).contains(x) && !item_swept(owners@, x, mid, owner) by {
                if x == us@[i as int] {
                    assert(out@[prev.len() as int] == x);
                    assert(us@.take(i as int + 1)[i as int] == x);
                }
                if out@.contains(x) && x != us@[i as int] {
                    let a = choose|a: int| 0 <= a < out@.len() && out@[a] == x;
                    assert(prev[a] == x);
                    assert(prev.contains(x));
                }
                if us@.take(i as int + 1).contains(x) && !item_swept(owners@, x, mid, owner) && x != us@[i as int] {
                    let a = choose|a: int| 0 <= a < i + 1 && #[trigger] us@.take(i as int + 1)[a] == x;
                    assert(us@.take(i as int)[a] == x);
                    assert(prev.contains(x));
                    let c = choose|c: int| 0 <= c < prev.len() && prev[c] == x;
                    assert(out@[c] == x);
                }
            }
        } else {
            assert forall|x: UnitItem| out@.contains(x) <==> us@.take(i as int + 1).contains(x) && !item_swept(owners@, x, mid, owner) by {
                if us@.take(i as int + 1).contains(x) && !item_swept(owners@, x, mid, owner) {
                    let a = choose|a: int| 0 <= a < i + 1 && #[trigger] us@.take(i as int + 1)[a] == x;
                    assert(a < i);
                    assert(us@.take(i as int)[a] == x);
                }
            }
        }
        i = i + 1;
    }
    assert(us@.take(us@.len() as int) =~= us@);
    out
}

/// Removes the swept units, and with them every item they own.
pub(crate) fn sweep_board(db: &mut Db, mid: u64, owner: Option<Identity>)
    requires
        forall|a: int, b: int| 0 <= a < b < old(db).units@.len() ==> (#[trigger] old(db).units@[a]).id != (#[trigger] old(db).units@[b]).id,
        forall|a: int, b: int| 0 <= a < b < old(db).items@.len() ==> (#[trigger] old(db).items@[a]).id != (#[trigger] old(db).items@[b]).id,
    ensures
        final(db).players == old(db).players,
        final(db).queue == old(db).queue,
        final(db).matches == old(db).matches,
        final(db).next_unit_id == old(db).next_unit_id,
        final(db).next_item_id == old(db).next_item_id,
        forall|a: int, b: int| 0 <= a < b < final(db).units@.len() ==> (#[trigger] final(db).units@[a]).id != (#[trigger] final(db).units@[b]).id,
        forall|a: int, b: int| 0 <= a < b < final(db).items@.len() ==> (#[trigger] final(db).items@[a]).id != (#[trigger] final(db).items@[b]).id,
        forall|x: BoardUnit| #[trigger] final(db).units@.contains(x) <==> old(db).units@.contains(x) && !swept(x, mid, owner),
        forall|x: UnitItem| #[trigger] final(db).items@.contains(x) <==> old(db).items@.contains(x) && !item_swept(old(db).units@, x, mid, owner),
{
    let items = kept_items(&db.units, &db.items, mid, owner);
    let units = kept_units(&db.units, mid, owner);
    db.items = items;
    db.units = units;
}

/// Sweeping keeps the unit and item tables consistent, provided every kept
/// unit still has its live match in `new_ms`.
pub(crate) proof fn lemma_sweep_consistent(
    old_ms: Seq<Match>,
    new_ms: Seq<Match>,
    old_us: Seq<BoardUnit>,
    new_us: Seq<BoardUnit>,
    old_its: Seq<UnitItem>,
    new_its: Seq<UnitItem>,
    next_u: u64,
    next_i: u64,
    mid: u64,
    owner: Option<Identity>,
)
    requires
        units_ok(old_ms, old_us, next_u),
        items_ok(old_us, old_its, next_i),
        forall|a: int, b: int| 0 <= a < b < new_us.len() ==> (#[trigger] new_us[a]).id != (#[trigger] new_us[b]).id,
        forall|a: int, b: int| 0 <= a < b < new_its.len() ==> (#[trigger] new_its[a]).id != (#[trigger] new_its[b]).id,
        forall|x: BoardUnit| #[trigger] new_us.contains(x) <==> old_us.contains(x) && !swept(x, mid, owner),
        forall|x: UnitItem| #[trigger] new_its.contains(x) <==> old_its.contains(x) && !item_swept(old_us, x, mid, owner),
        forall|i: int| 0 <= i < old_us.len() && !swept(#[trigger] old_us[i], mid, owner)
            ==> match_with(new_ms, old_us[i].match_id, old_us[i].player_identity),
    ensures
        units_ok(new_ms, new_us, next_u),
        items_ok(new_us, new_its, next_i),
{
    assert forall|i: int| 0 <= i < new_us.len() implies (#[trigger] new_us[i]).id < next_u
        && match_with(new_ms, new_us[i].match_id, new_us[i].player_identity) by {
        assert(new_us.contains(new_us[i]));
        let t = choose|t: int| 0 <= t < old_us.len() && old_us[t] == new_us[i];
    }
    assert forall|i: int| 0 <= i < new_its.len() implies (#[trigger] new_its[i]).id < next_i
        && has_unit(new_us, new_its[i].board_unit_id) by {
        let it = new_its[i];
        assert(new_its.contains(it));
        let t = choose|t: int| 0 <= t < old_its.len() && old_its[t] == it;
        assert(has_unit(old_us, it.board_unit_id));
        let k = choose|k: int| 0 <= k < old_us.len() && (#[trigger] old_us[k]).id == it.board_unit_id;
        lemma_unit_of(old_us, it.board_unit_id, k);
        assert(old_us.contains(old_us[k]));
        assert(new_us.contains(old_us[k]));
        let c = choose|c: int| 0 <= c < new_us.len() && new_us[c] == old_us[k];
        assert(new_us[c].id == it.board_unit_id);
    }
}

/// Removes every unit that `caller` placed in match `match_id`, each with its
/// items. The match must be live and `caller` one of its participants; the
/// phase is not checked.
pub fn clear_board_state(db: &mut Db, caller: Identity, match_id: u64) -> (r: Result<(), ReducerError>)
    requires
        old(db).wf(),
    ensures
        final(db).wf(),
        r == match_access(old(db).matches@, match_id, caller),
        r is Err ==> *final(db) == *old(db),
        r is Ok ==> {
            &&& final(db).players == old(db).players
            &&& final(db).queue == old(db).queue
            &&& final(db).matches == old(db).matches
            &&& final(db).next_unit_id == old(db).next_unit_id
            &&& final(db).next_item_id == old(db).next_item_id
            &&& forall|x: BoardUnit| #[trigger] final(db).units@.contains(x)
                <==> old(db).units@.contains(x) && !swept(x, match_id, Some(caller))
            &&& forall|x: UnitItem| #[trigger] final(db).items@.contains(x)
                <==> old(db).items@.contains(x) && !item_swept(old(db).units@, x, match_id, Some(caller))
        },
{
    match access_match(&db.matches, match_id, caller) {
        Err(e) => Err(e),
        Ok(_) => {
            sweep_board(db, match_id, Some(caller));
            proof {
                lemma_sweep_consistent(
                    old(db).matches@, db.matches@, old(db).units@, db.units@, old(db).items@, db.items@,
                    db.next_unit_id, db.next_item_id, match_id, Some(caller),
                );
            }
            Ok(())
        },
    }
}

/// Whether `caller` may change its board in match `mid`: as for
/// `match_access`, and the match must be in preparation.
pub open spec fn board_access(ms: Seq<Match>, mid: u64, caller: Identity) -> Result<(), ReducerError> {
    if match_access(ms, mid, caller) is Err {
        match_access(ms, mid, caller)
    } else if match_of(ms, mid).state != MatchState::Preparation {
        Err(ReducerError::InvalidPhase)
    } else {
        Ok(())
    }
}

/// Places a new unit for `caller` in match `match_id` under a fresh id.
/// Units accumulate: placing never replaces one.
pub fn update_board_state(
    db: &mut Db,
    caller: Identity,
    match_id: u64,
    unit_name: String,
    tier: u8,
    position_x: i32,
    position_y: i32,
    on_bench: bool,
) -> (r: Result<(), ReducerError>)
    requires
        old(db).wf(),
        old(db).next_unit_id < u64::MAX,
    ensures
        final(db).wf(),
        r == board_access(old(db).matches@, match_id, caller),
        r is Err ==> *final(db) == *old(db),
        r is Ok ==> {
            &&& final(db).players == old(db).players
            &&& final(db).queue == old(db).queue
            &&& final(db).matches == old(db).matches
            &&& final(db).items == old(db).items
            &&& final(db).next_item_id == old(db).next_item_id
            &&& final(db).next_unit_id == old(db).next_unit_id + 1
            &&& final(db).units@ == old(db).units@.push(
                BoardUnit {
                    id: old(db).next_unit_id,
                    match_id,
                    player_identity: caller,
                    unit_name,
                    tier,
                    position_x,
                    position_y,
                    on_bench,
                },
            )
        },
{
    let j = match access_match(&db.matches, match_id, caller) {
        Err(e) => return Err(e),
        Ok(j) => j,
    };
    if db.matches[j].state != MatchState::Preparation {
        return Err(ReducerError::InvalidPhase);
    }
    let id = db.next_unit_id;
    let unit = BoardUnit {
        id,
        match_id,
        player_identity: caller,
        unit_name,
        tier,
        position_x,
        position_y,
        on_bench,
    };
    let ghost us = db.units@;
    db.units.push(unit);
    db.next_unit_id = id + 1;
    proof {
        assert(match_with(db.matches@, match_id, caller)) by {
            assert(db.matches@[j as int].match_id == match_id);
        }
        assert forall|i: int| 0 <= i < db.items@.len() implies has_unit(db.units@, (#[trigger] db.items@[i]).board_unit_id) by {
            let k = choose|k: int| 0 <= k < us.len() && (#[trigger] us[k]).id == db.items@[i].board_unit_id;
            assert(db.units@[k] == us[k]);
        }
    }
    Ok(())
}

/// Attaches an item to unit `board_unit_id`, which must exist and belong to
/// `caller`. Neither the number of items nor the slot is limited.
pub fn add_unit_item(
    db: &mut Db,
    caller: Identity,
    board_unit_id: u64,
    item_id: String,
    equip_index: u8,
) -> (r: Result<(), ReducerError>)
    requires
        old(db).wf(),
        old(db).next_item_id < u64::MAX,
    ensures
        final(db).wf(),
        !has_unit(old(db).units@, board_unit_id) ==> r == Err::<(), ReducerError>(ReducerError::UnitNotFound),
        has_unit(old(db).units@, board_unit_id) && unit_of(old(db).units@, board_unit_id).player_identity != caller
            ==> r == Err::<(), ReducerError>(ReducerError::NotOwner),
        r is Ok <==> has_unit(old(db).units@, board_unit_id) && unit_of(old(db).units@, board_unit_id).player_identity == caller,
        r is Err ==> *final(db) == *old(db),
        r is Ok ==> {
            &&& final(db).players == old(db).players
            &&& final(db).queue == old(db).queue
            &&& final(db).matches == old(db).matches
            &&& final(db).units == old(db).units
            &&& final(db).next_unit_id == old(db).next_unit_id
            &&& final(db).next_item_id == old(db).next_item_id + 1
            &&& final(db).items@ == old(db).items@.push(
                UnitItem { id: old(db).next_item_id, board_unit_id, item_id, equip_index },
            )
        },
{
    let j = match find_unit(&db.units, board_unit_id) {
        None => return Err(ReducerError::UnitNotFound),
        Some(j) => j,
    };
    proof {
        lemma_unit_of(db.units@, board_unit_id, j as int);
    }
    if db.units[j].player_identity != caller {
        return Err(ReducerError::NotOwner);
    }
    let id = db.next_item_id;
    db.items.push(UnitItem { id, board_unit_id, item_id, equip_index });
    db.next_item_id = id + 1;
    Ok(())
}

} // verus!
