//! Completion of an action: its effects, stamped at the completion time, and the
//! release of everything it held.
use vstd::prelude::*;

use crate::actions::plan;
use crate::actions::plan::ActionPlan;
use crate::actions::plan::HoldKinds;
use crate::actions::plan::Plan;
use crate::actions::tape::Effect;
use crate::actions::tape::StockOp;
use crate::actions::tile_cards;
use crate::cards::cards;
use crate::cards::cards::Card;
use crate::cards::env::Env;
use crate::cards::env::HoldKind;
use crate::cards::gate_api;
use crate::cards::gate_api::GateError;
use crate::cards::micro::Micro;
use crate::content;
use crate::history;
use crate::packed;
use crate::pending_actions;
use crate::players::players;
use crate::players::players::PlayerError;
use crate::regions::cards as tiles;
use crate::regions::cards::TileError;
use crate::regions::zones;
use crate::tables::Db;
use crate::tables::Tables;

verus! {

/// Why a completion cannot be emitted.
#[derive(Clone, Copy, Debug, PartialEq, Eq, Structural)]
pub enum CommitError {
    /// No definition has the key of a created card.
    UnknownCard,
    ZoneMissing { zone_id: u32 },
    Tile(TileError),
    /// No blueprint has the key to unlock.
    UnknownBlueprint,
    Unlock(GateError),
    Faction(PlayerError),
}

/// The stock after an operation, within `0..=3`.
pub open spec fn stock_after(current: u8, op: StockOp, delta: u8) -> u8 {
    match op {
        StockOp::Sub => if current > delta {
            (current - delta) as u8
        } else {
            0
        },
        StockOp::Add => if current + delta > 3 {
            3
        } else {
            (current + delta) as u8
        },
        StockOp::Assign => if delta > 3 {
            3
        } else {
            delta
        },
    }
}

fn apply_stock_op(current: u8, op: StockOp, delta: u8) -> (next: u8)
    ensures
        next == stock_after(current, op, delta),
{
    match op {
        StockOp::Sub => {
            if current > delta {
                current - delta
            } else {
                0
            }
        },
        StockOp::Add => {
            if current as u16 + delta as u16 > 3 {
                3
            } else {
                current + delta
            }
        },
        StockOp::Assign => {
            if delta > 3 {
                3
            } else {
                delta
            }
        },
    }
}

/// Outcome of changing a tile's stock: the tile is promoted first.
pub open spec fn stock_modified(
    e: Env,
    db: Db,
    zone_id: u32,
    row: u8,
    col: u8,
    slot: int,
    op: StockOp,
    delta: u8,
    t: u64,
) -> (Db, Result<(), CommitError>) {
    match history::latest(db.zones, zone_id) {
        None => (db, Err(CommitError::ZoneMissing { zone_id })),
        Some(z) => {
            let p = tile_cards::promotion(e, db, z.macro_zone, col, row, t);
            match p.1 {
                Err(err) => (p.0, Err(CommitError::Tile(err))),
                Ok(tile) => {
                    let next = stock_after(
                        tiles::stock_value(e.bk, tile.flags_bk, slot),
                        op,
                        delta,
                    );
                    (
                        cards::edited(
                            e,
                            p.0,
                            tile.card_id,
                            t,
                            tile_cards::restocked(e, slot, next),
                        ),
                        Ok(()),
                    )
                },
            }
        },
    }
}

fn modify_tile_stock(
    e: &Env,
    tb: &mut Tables,
    zone_id: u32,
    row: u8,
    col: u8,
    slot: usize,
    op: StockOp,
    delta: u8,
    time_ms: u64,
) -> (r: Result<(), CommitError>)
    requires
        e.wf(),
    ensures
        (final(tb)@, r) == stock_modified(
            *e,
            old(tb)@,
            zone_id,
            row,
            col,
            slot as int,
            op,
            delta,
            time_ms,
        ),
{
    let z = match zones::latest(&tb.zones, zone_id) {
        None => {
            return Err(CommitError::ZoneMissing { zone_id });
        },
        Some(z) => z,
    };
    match tile_cards::find_or_create_tile_card(e, tb, z.macro_zone, col, row, time_ms) {
        Err(err) => Err(CommitError::Tile(err)),
        Ok(tile) => {
            let current: u8 = tiles::tile_stock(&e.bk, tile.flags_bk, slot);
            let next: u8 = apply_stock_op(current, op, delta);
            tile_cards::set_tile_stock(e, tb, tile.card_id, time_ms, slot, next);
            Ok(())
        },
    }
}

/// A new card as a deferred member of a host's stack. A host that is gone leaves the
/// card unanchored on the world surface.
pub open spec fn deferred_card(e: Env, db: Db, def: u16, host: u32) -> Card {
    match cards::current(e, db, host) {
        Some(h) => cards::fresh_card(
            e,
            cards::next_id(db),
            h.macro_zone,
            Micro::Stacked { root: host, branch: packed::STACK_STATE_DEFERRED, index: 0 },
            h.owner_id,
            def,
            0,
            0,
        ),
        None => cards::fresh_card(
            e,
            cards::next_id(db),
            packed::macro_zone_key(0, packed::WORLD_LAYER, 0, 0),
            Micro::Stacked { root: 0, branch: packed::STACK_STATE_DEFERRED, index: 0 },
            0,
            def,
            0,
            0,
        ),
    }
}

/// The database after creating a card as a deferred member of a host's stack.
pub open spec fn deferred_created(e: Env, db: Db, def: u16, host: u32, t: u64) -> Db {
    cards::after_write(e, cards::id_taken(db), deferred_card(e, db, def, host), t)
}

/// Outcome of one effect at the completion time. A destroyed card is marked with
/// the release of its holds, not here.
#[verifier::opaque]
pub open spec fn effect_done(e: Env, db: Db, x: Effect, t: u64) -> (Db, Result<(), CommitError>) {
    match x {
        Effect::Destroy { card_id } => (db, Ok(())),
        Effect::Create { def_key, owner_id } => match content::packed_by_key(
            e.catalog.definitions@,
            def_key@,
        ) {
            None => (db, Err(CommitError::UnknownCard)),
            Some(def) => (
                players::spawned(
                    e,
                    db,
                    t,
                    packed::macro_zone_key(owner_id, packed::INVENTORY_LAYER, 0, 0),
                    packed::INVENTORY_LAYER,
                    owner_id,
                    def,
                    0,
                ),
                Ok(()),
            ),
        },
        Effect::ModifyTileStock { zone_id, row, col, slot, op, delta } => stock_modified(
            e,
            db,
            zone_id,
            row,
            col,
            slot as int,
            op,
            delta,
            t,
        ),
        Effect::UnlockBlueprint { blueprint_key, target_card_id } => match content::blueprint_by_key(
            e.catalog.blueprints@,
            blueprint_key@,
        ) {
            None => (db, Err(CommitError::UnknownBlueprint)),
            Some(id) => {
                let u = gate_api::unlocked(db, target_card_id, id);
                (
                    u.0,
                    match u.1 {
                        Ok(()) => Ok(()),
                        Err(err) => Err(CommitError::Unlock(err)),
                    },
                )
            },
        },
        Effect::SetPlayerFaction { player_id, faction } => {
            let f = players::faction_set(db, player_id, t, faction);
            (
                f.0,
                match f.1 {
                    Ok(()) => Ok(()),
                    Err(err) => Err(CommitError::Faction(err)),
                },
            )
        },
        Effect::CreateDeferred { def_key, host_card_id } => match content::packed_by_key(
            e.catalog.definitions@,
            def_key@,
        ) {
            None => (db, Err(CommitError::UnknownCard)),
            Some(def) => (deferred_created(e, db, def, host_card_id, t), Ok(())),
        },
    }
}

fn apply_effect(e: &Env, tb: &mut Tables, x: &Effect, time_ms: u64) -> (r: Result<(), CommitError>)
    requires
        e.wf(),
    ensures
        (final(tb)@, r) == effect_done(*e, old(tb)@, *x, time_ms),
{
    proof {
        reveal(effect_done);
    }
    match x {
        Effect::Destroy { .. } => Ok(()),
        Effect::Create { def_key, owner_id } => {
            let def: u16 = match e.catalog.find_packed_by_key(def_key) {
                None => {
                    return Err(CommitError::UnknownCard);
                },
                Some(d) => d,
            };
            let card_id: u32 = cards::next_card_id(tb);
            let _ = cards::create_at(
                e,
                tb,
                card_id,
                time_ms,
                packed::pack_macro_zone_full(*owner_id, packed::INVENTORY_LAYER, 0, 0),
                Micro::snap(0, 0, e.loose_kind_for_surface(packed::INVENTORY_LAYER)),
                *owner_id,
                def,
                0,
                0,
            );
            Ok(())
        },
        Effect::ModifyTileStock { zone_id, row, col, slot, op, delta } => modify_tile_stock(
            e,
            tb,
            *zone_id,
            *row,
            *col,
            *slot,
            *op,
            *delta,
            time_ms,
        ),
        Effect::UnlockBlueprint { blueprint_key, target_card_id } => {
            match e.catalog.find_blueprint(blueprint_key) {
                None => Err(CommitError::UnknownBlueprint),
                Some(id) => match gate_api::unlock_blueprint(tb, *target_card_id, id) {
                    Ok(()) => Ok(()),
                    Err(err) => Err(CommitError::Unlock(err)),
                },
            }
        },
        Effect::SetPlayerFaction { player_id, faction } => {
            match players::set_faction(tb, *player_id, time_ms, *faction) {
                Ok(()) => Ok(()),
                Err(err) => Err(CommitError::Faction(err)),
            }
        },
        Effect::CreateDeferred { def_key, host_card_id } => {
            let def: u16 = match e.catalog.find_packed_by_key(def_key) {
                None => {
                    return Err(CommitError::UnknownCard);
                },
                Some(d) => d,
            };
            let host: Option<Card> = cards::latest(e, tb, *host_card_id);
            let card_id: u32 = cards::next_card_id(tb);
            let _ = match host {
                Some(h) => cards::create_at(
                    e,
                    tb,
                    card_id,
                    time_ms,
                    h.macro_zone,
                    Micro::deferred(*host_card_id),
                    h.owner_id,
                    def,
                    0,
                    0,
                ),
                None => cards::create_at(
                    e,
                    tb,
                    card_id,
                    time_ms,
                    packed::pack_macro_zone_full(0, packed::WORLD_LAYER, 0, 0),
                    Micro::deferred(0),
                    0,
                    def,
                    0,
                    0,
                ),
            };
            Ok(())
        },
    }
}

/// Outcome of the effects in order. The first error ends them; what was written
/// before it stays, for the caller to discard.
pub open spec fn effects_done(e: Env, db: Db, xs: Seq<Effect>, t: u64) -> (
    Db,
    Result<(), CommitError>,
)
    decreases xs.len(),
{
    if xs.len() == 0 {
        (db, Ok(()))
    } else {
        let before = effects_done(e, db, xs.drop_last(), t);
        match before.1 {
            Err(_) => before,
            Ok(()) => effect_done(e, before.0, xs.last(), t),
        }
    }
}

proof fn lemma_effects_stop(e: Env, db: Db, xs: Seq<Effect>, t: u64, n: int)
    requires
        0 <= n <= xs.len(),
        effects_done(e, db, xs.take(n), t).1 is Err,
    ensures
        effects_done(e, db, xs, t) == effects_done(e, db, xs.take(n), t),
    decreases xs.len() - n,
{
    if n < xs.len() {
        let next = xs.take(n + 1);
        assert(next.drop_last() =~= xs.take(n));
        lemma_effects_stop(e, db, xs, t, n + 1);
    } else {
        assert(xs.take(n) =~= xs);
    }
}

fn apply_effects(e: &Env, tb: &mut Tables, xs: &Vec<Effect>, time_ms: u64) -> (r: Result<
    (),
    CommitError,
>)
    requires
        e.wf(),
    ensures
        final(tb)@ == effects_done(*e, old(tb)@, xs@, time_ms).0,
        r == effects_done(*e, old(tb)@, xs@, time_ms).1,
{
    let ghost db0 = tb@;
    let mut i: usize = 0;
    assert(xs@.take(0) =~= Seq::empty());
    while i < xs.len()
        invariant
            i <= xs.len(),
            e.wf(),
            db0 == old(tb)@,
            tb@ == effects_done(*e, db0, xs@.take(i as int), time_ms).0,
            effects_done(*e, db0, xs@.take(i as int), time_ms).1 == Ok::<(), CommitError>(()),
        decreases xs.len() - i,
    {
        proof {
            let next = xs@.take(i + 1);
            assert(next.drop_last() =~= xs@.take(i as int));
            assert(next.last() == xs@[i as int]);
        }
        let ghost before = tb@;
        let done: Result<(), CommitError> = apply_effect(e, tb, &xs[i], time_ms);
        proof {
            let part = effects_done(*e, db0, xs@.take(i as int), time_ms);
            assert(part.1 is Ok);
            assert(effects_done(*e, db0, xs@.take(i + 1), time_ms) == effect_done(
                *e,
                before,
                xs@[i as int],
                time_ms,
            ));
        }
        match done {
            Ok(u) => {
                assert(u == ());
            },
            Err(err) => {
                proof {
                    lemma_effects_stop(*e, db0, xs@, time_ms, i + 1);
                }
                return Err(err);
            },
        }
        i = i + 1;
    }
    assert(xs@.take(xs.len() as int) =~= xs@);
    Ok(())
}

// ---- participants --------------------------------------------------
/// `ids` with `id` added, in ascending order and without doubles.
pub open spec fn id_joined(ids: Seq<u32>, id: u32) -> Seq<u32>
    decreases ids.len(),
{
    if ids.len() == 0 || ids.last() < id {
        ids.push(id)
    } else if ids.last() == id {
        ids
    } else {
        id_joined(ids.drop_last(), id).push(ids.last())
    }
}

pub open spec fn row_ids(ids: Seq<u32>, row: Seq<u32>) -> Seq<u32>
    decreases row.len(),
{
    if row.len() == 0 {
        ids
    } else {
        let before = row_ids(ids, row.drop_last());
        if row.last() == 0 {
            before
        } else {
            id_joined(before, row.last())
        }
    }
}

pub open spec fn rows_ids(ids: Seq<u32>, rows: Seq<Vec<u32>>) -> Seq<u32>
    decreases rows.len(),
{
    if rows.len() == 0 {
        ids
    } else {
        row_ids(rows_ids(ids, rows.drop_last()), rows.last()@)
    }
}

/// The cards that take part in an action, in ascending order: its root and every
/// bound card.
pub open spec fn participants(bindings: Seq<Vec<u32>>, root: u32) -> Seq<u32> {
    rows_ids(
        if root != 0 {
            seq![root]
        } else {
            Seq::empty()
        },
        bindings,
    )
}

fn join_id(ids: &mut Vec<u32>, id: u32)
    ensures
        final(ids)@ == id_joined(old(ids)@, id),
{
    let ghost all = ids@;
    let mut j: usize = ids.len();
    assert(all.take(j as int) =~= all);
    assert(id_joined(all, id) + all.skip(j as int) =~= id_joined(all, id));
    while j > 0 && ids[j - 1] > id
        invariant
            j <= ids.len(),
            ids@ == all,
            id_joined(all, id) == id_joined(all.take(j as int), id) + all.skip(j as int),
        decreases j,
    {
        proof {
            let t = all.take(j as int);
            assert(t.last() == all[j - 1]);
            assert(t.drop_last() =~= all.take(j - 1));
            assert(id_joined(t, id) + all.skip(j as int) =~= id_joined(t.drop_last(), id)
                + all.skip(j - 1));
        }
        j = j - 1;
    }
    let ghost t = all.take(j as int);
    assert(j > 0 ==> t.last() == all[j - 1]);
    if j > 0 && ids[j - 1] == id {
        assert(t + all.skip(j as int) =~= all);
    } else {
        ids.insert(j, id);
        assert(id_joined(t, id) == t.push(id));
        assert(ids@ =~= id_joined(t, id) + all.skip(j as int));
    }
}

pub fn find_participants(bindings: &Vec<Vec<u32>>, root: u32) -> (ids: Vec<u32>)
    ensures
        ids@ == participants(bindings@, root),
{
    let mut ids: Vec<u32> = Vec::new();
    if root != 0 {
        ids.push(root);
    }
    let ghost start = if root != 0 {
        seq![root]
    } else {
        Seq::<u32>::empty()
    };
    assert(ids@ =~= start);
    let mut i: usize = 0;
    assert(bindings@.take(0) =~= Seq::empty());
    while i < bindings.len()
        invariant
            i <= bindings.len(),
            ids@ == rows_ids(start, bindings@.take(i as int)),
        decreases bindings.len() - i,
    {
        proof {
            let next = bindings@.take(i + 1);
            assert(next.drop_last() =~= bindings@.take(i as int));
            assert(next.last() == bindings@[i as int]);
        }
        let row = &bindings[i];
        let ghost before = ids@;
        let mut j: usize = 0;
        assert(row@.take(0) =~= Seq::empty());
        while j < row.len()
            invariant
                j <= row.len(),
                ids@ == row_ids(before, row@.take(j as int)),
            decreases row.len() - j,
        {
            proof {
                let next = row@.take(j + 1);
                assert(next.drop_last() =~= row@.take(j as int));
                assert(next.last() == row@[j as int]);
            }
            let id: u32 = row[j];
            if id != 0 {
                join_id(&mut ids, id);
            }
            j = j + 1;
        }
        assert(row@.take(row.len() as int) =~= row@);
        i = i + 1;
    }
    assert(bindings@.take(bindings.len() as int) =~= bindings@);
    ids
}

/// Some effect destroys the card.
pub open spec fn consumed(xs: Seq<Effect>, id: u32) -> bool {
    exists|i: int|
        0 <= i < xs.len() && (#[trigger] xs[i] matches Effect::Destroy { card_id } && card_id
            == id)
}

fn is_consumed(xs: &Vec<Effect>, id: u32) -> (r: bool)
    ensures
        r == consumed(xs@, id),
{
    let mut i: usize = 0;
    while i < xs.len()
        invariant
            i <= xs.len(),
            forall|j: int|
                0 <= j < i ==> !(#[trigger] xs@[j] matches Effect::Destroy { card_id } && card_id
                    == id),
        decreases xs.len() - i,
    {
        if let Effect::Destroy { card_id } = &xs[i] {
            if *card_id == id {
                assert(xs@[i as int] matches Effect::Destroy { card_id } && card_id == id);
                return true;
            }
        }
        i = i + 1;
    }
    false
}

/// A participant at the completion: dead where it was consumed, without position
/// assertions, and with its progress style.
pub open spec fn completed(e: Env, dies: bool, style: u8) -> spec_fn(Card) -> Card {
    |c: Card|
        gate_api::finalized(
            e,
            style,
            if dies {
                Card { flags_state: c.flags_state | e.state.dead, ..c }
            } else {
                c
            },
        )
}

/// The database after giving back, at `t`, what the action held on a card.
pub open spec fn holds_released(e: Env, db: Db, id: u32, k: HoldKinds, t: u64) -> Db {
    let a = cards::held(e, db, id, t, HoldKind::Touch, false);
    let b = if k.slot_hold {
        cards::held(e, a, id, t, HoldKind::SlotHold, false)
    } else {
        a
    };
    let c = if k.position_hold {
        cards::held(e, b, id, t, HoldKind::PositionHold, false)
    } else {
        b
    };
    if k.slot_share {
        cards::held(e, c, id, t, HoldKind::SlotShare, false)
    } else {
        c
    }
}

/// The database after finishing one participant: its row is completed, and the
/// holds listed for it are given back.
pub open spec fn finished(e: Env, db: Db, p: Plan, id: u32, t: u64) -> Db {
    let style = if p.styles.contains_key(id) {
        p.styles[id]
    } else {
        0
    };
    let d = cards::edited(e, db, id, t, completed(e, consumed(p.pending, id), style));
    match plan::listed(p.holds, id) {
        None => d,
        Some(k) => holds_released(e, d, id, k, t),
    }
}

pub open spec fn all_finished(e: Env, db: Db, p: Plan, ids: Seq<u32>, t: u64) -> Db
    decreases ids.len(),
{
    if ids.len() == 0 {
        db
    } else {
        finished(e, all_finished(e, db, p, ids.drop_last(), t), p, ids.last(), t)
    }
}

/// Outcome of completing an action that started at `start_ms`: its effects, then
/// every participant, then its registry row.
pub open spec fn committed(
    e: Env,
    db: Db,
    p: Plan,
    bindings: Seq<Vec<u32>>,
    root: u32,
    start_ms: u64,
    dedup_key: u64,
) -> (Db, Result<(), CommitError>) {
    let t = (start_ms + plan::length_ms(p)) as u64;
    let d = effects_done(e, db, p.pending, t);
    match d.1 {
        Err(_) => d,
        Ok(()) => {
            let f = all_finished(e, d.0, p, participants(bindings, root), t);
            (
                Db { pending_actions: pending_actions::released(f.pending_actions, dedup_key), ..f },
                Ok(()),
            )
        },
    }
}

fn find_holds(h: &Vec<(u32, HoldKinds)>, id: u32) -> (k: Option<HoldKinds>)
    ensures
        k == plan::listed(h@, id),
{
    let mut i: usize = h.len();
    assert(h@.take(i as int) =~= h@);
    while i > 0
        invariant
            i <= h.len(),
            plan::listed(h@, id) == plan::listed(h@.take(i as int), id),
        decreases i,
    {
        proof {
            let t = h@.take(i as int);
            assert(t.last() == h@[i - 1]);
            assert(t.drop_last() =~= h@.take(i - 1));
        }
        if h[i - 1].0 == id {
            return Some(h[i - 1].1);
        }
        i = i - 1;
    }
    None
}

fn release_holds(e: &Env, tb: &mut Tables, id: u32, k: HoldKinds, time_ms: u64)
    requires
        e.wf(),
    ensures
        final(tb)@ == holds_released(*e, old(tb)@, id, k, time_ms),
{
    cards::release_hold(e, tb, id, time_ms, HoldKind::Touch);
    if k.slot_hold {
        cards::release_hold(e, tb, id, time_ms, HoldKind::SlotHold);
    }
    if k.position_hold {
        cards::release_hold(e, tb, id, time_ms, HoldKind::PositionHold);
    }
    if k.slot_share {
        cards::release_hold(e, tb, id, time_ms, HoldKind::SlotShare);
    }
}

fn finish(e: &Env, tb: &mut Tables, p: &ActionPlan, id: u32, time_ms: u64)
    requires
        e.wf(),
    ensures
        final(tb)@ == finished(*e, old(tb)@, p@, id, time_ms),
{
    let dies: bool = is_consumed(&p.pending, id);
    let style: u8 = match p.styles.get(&id) {
        Some(s) => *s,
        None => 0,
    };
    if let Some(found) = cards::prior_at(tb, id, time_ms) {
        let mut c = found;
        if dies {
            c.flags_state = c.flags_state | e.state.dead;
        }
        let _ = cards::write_at(e, tb, gate_api::finalize(e, style, c), time_ms);
    }
    match find_holds(&p.holds, id) {
        None => {},
        Some(k) => release_holds(e, tb, id, k, time_ms),
    }
}

fn finish_all(e: &Env, tb: &mut Tables, p: &ActionPlan, ids: &Vec<u32>, time_ms: u64)
    requires
        e.wf(),
    ensures
        final(tb)@ == all_finished(*e, old(tb)@, p@, ids@, time_ms),
{
    let ghost db0 = tb@;
    let mut i: usize = 0;
    assert(ids@.take(0) =~= Seq::empty());
    while i < ids.len()
        invariant
            i <= ids.len(),
            e.wf(),
            tb@ == all_finished(*e, db0, p@, ids@.take(i as int), time_ms),
        decreases ids.len() - i,
    {
        proof {
            let next = ids@.take(i + 1);
            assert(next.drop_last() =~= ids@.take(i as int));
            assert(next.last() == ids@[i as int]);
        }
        finish(e, tb, p, ids[i], time_ms);
        i = i + 1;
    }
    assert(ids@.take(ids.len() as int) =~= ids@);
}

/// Emit the completion of an action that started at `start_ms`.
pub fn commit(
    e: &Env,
    tb: &mut Tables,
    p: &ActionPlan,
    bindings: &Vec<Vec<u32>>,
    root: u32,
    start_ms: u64,
    dedup_key: u64,
) -> (r: Result<(), CommitError>)
    requires
        e.wf(),
        start_ms + plan::length_ms(p@) <= u64::MAX,
    ensures
        (final(tb)@, r) == committed(*e, old(tb)@, p@, bindings@, root, start_ms, dedup_key),
{
    let t: u64 = start_ms + p.duration_ms();
    match apply_effects(e, tb, &p.pending, t) {
        Err(err) => {
            return Err(err);
        },
        Ok(()) => {},
    }
    let ids: Vec<u32> = find_participants(bindings, root);
    finish_all(e, tb, p, &ids, t);
    pending_actions::release(&mut tb.pending_actions, dedup_key);
    Ok(())
}

} // verus!
