//! Garbage collection of a data shard.
//!
//! Tile-cards at rest first fold back into their zones. Then prior versions go,
//! the latest live row never; a dead latest row is retained for a while.
//! In-flight actions that were never released go once their grace has run out.
use vstd::prelude::*;

use crate::history;
use crate::packed;
use crate::pending_actions;
use crate::regions::demotion;
use crate::regions::demotion::Demotion;
use crate::regions::zones;
use crate::shard::cards;
use crate::shard::cards::Card;
use crate::shard::model;
use crate::shard::model::HoldField;
use crate::shard::tables::Db;
use crate::shard::tables::Env;
use crate::shard::tables::Tables;
use crate::shard::tiles;

verus! {

/// Retention of dead cards that the world owns.
pub const WORLD_DEAD_RETENTION_MS: u64 = 300_000;

/// Hard cap on the retention of any dead card: thirty days.
pub const MAX_DEAD_RETENTION_MS: u64 = 2_592_000_000;

// ---- dead rows -----------------------------------------------------
/// Time since a row came into force, `0` for a future row.
pub open spec fn age(c: Card, now_ms: u64) -> u64 {
    if now_ms > history::time(c) {
        (now_ms - history::time(c)) as u64
    } else {
        0
    }
}

/// A dead row may be reaped: past the hard cap always; not while an action claims
/// its slot; a world-owned one after a short retention; an owned one only past
/// the cap.
pub open spec fn reapable(e: Env, db: Db, c: Card, now_ms: u64) -> bool {
    if age(c, now_ms) > MAX_DEAD_RETENTION_MS {
        true
    } else if model::hold_value(e.layout, c.flags, HoldField::SlotClaim) > 0 {
        false
    } else {
        match cards::player_of(e, db, c.card_id) {
            Some(p) if p != cards::WORLD_PLAYER_ID => false,
            _ => age(c, now_ms) > WORLD_DEAD_RETENTION_MS,
        }
    }
}

/// Apply the retention policy to a dead card.
pub fn dead_row_reapable(e: &Env, tb: &Tables, card: &Card, now_ms: u64) -> (r: bool)
    requires
        e.wf(),
    ensures
        r == reapable(*e, tb@, *card, now_ms),
{
    let dead_at: u64 = packed::valid_at_time(card.valid_at);
    let age_ms: u64 = if now_ms > dead_at {
        now_ms - dead_at
    } else {
        0
    };
    if age_ms > MAX_DEAD_RETENTION_MS {
        return true;
    }
    if cards::slot_claim_count(e, card.flags) > 0 {
        return false;
    }
    let owner: u32 = match cards::owning_player(e, tb, card.card_id) {
        Some(p) => p,
        None => cards::WORLD_PLAYER_ID,
    };
    if owner == cards::WORLD_PLAYER_ID {
        return age_ms > WORLD_DEAD_RETENTION_MS;
    }
    false
}

pub open spec fn survives(e: Env, db: Db, now_ms: u64) -> spec_fn(Card) -> bool {
    |c: Card|
        history::is_newest(db.cards, c) && (!cards::is_dead(e, c) || !reapable(e, db, c, now_ms))
}

/// `db` after a sweep of the cards table: the newest row of each card stays,
/// unless it is dead and reapable.
pub open spec fn cards_swept(e: Env, db: Db, now_ms: u64) -> Db {
    Db { cards: db.cards.filter(survives(e, db, now_ms)), ..db }
}

/// Sweep the cards table.
pub fn sweep_cards(e: &Env, tb: &mut Tables, now_ms: u64)
    requires
        e.wf(),
    ensures
        final(tb)@ == cards_swept(*e, old(tb)@, now_ms),
{
    let m = history::max_keys(&tb.cards);
    let ghost start = tb@;
    let ghost keep = survives(*e, start, now_ms);
    let mut kept: Vec<Card> = Vec::new();
    let mut i: usize = 0;
    proof {
        reveal(Seq::filter);
        assert(start.cards.take(0).filter(keep) =~= Seq::empty());
    }
    while i < tb.cards.len()
        invariant
            i <= tb.cards.len(),
            e.wf(),
            tb@ == start,
            keep == survives(*e, start, now_ms),
            kept@ == start.cards.take(i as int).filter(keep),
            forall|id: u32|
                #![trigger m@.contains_key(id)]
                #![trigger history::max_key(start.cards, id)]
                (m@.contains_key(id) <==> history::max_key(start.cards, id) is Some) && (
                m@.contains_key(id) ==> history::max_key(start.cards, id) == Some(m@[id])),
        decreases tb.cards.len() - i,
    {
        let row = tb.cards[i];
        proof {
            history::filter_take_step(start.cards, i as int, keep);
            assert(m@.contains_key(row.card_id) <==> history::max_key(
                start.cards,
                row.card_id,
            ) is Some);
        }
        let newest: bool = match m.get(&row.card_id) {
            Some(k) => *k == row.valid_at,
            None => false,
        };
        if newest && (row.flags & e.state.dead == 0 || !dead_row_reapable(e, tb, &row, now_ms)) {
            kept.push(row);
        }
        i = i + 1;
    }
    assert(start.cards.take(start.cards.len() as int) =~= start.cards);
    tb.cards = kept;
}

// ---- demotion ------------------------------------------------------
/// A row is a tile-card at rest: its card's newest row, in force by now, loose,
/// with a clean state, no holds and nothing in stock that a tile cannot keep,
/// over a zone of the same owner.
pub open spec fn at_rest(e: Env, db: Db, c: Card) -> bool {
    &&& history::is_newest(db.cards, c)
    &&& history::time(c) <= e.now_ms
    &&& packed::card_type(c.packed_definition) == tiles::TILE_CARD_TYPE
    &&& !cards::is_member(c)
    &&& c.flags & e.blocks_demotion == 0
    &&& !model::held(e.layout, c.flags)
    &&& c.stock & !model::STOCK_ZONE_SAVE_MASK == 0
    &&& zones::latest_on(db.zones, c.macro_zone) matches Some(z) && z.owner_id == c.owner_id
}

/// The fold of a tile-card at rest, dated back to when its row came into force.
pub open spec fn fold_of(db: Db, c: Card) -> Demotion {
    let f = packed::micro_loose_fields(c.micro_location);
    Demotion {
        zone_id: zones::latest_on(db.zones, c.macro_zone)->0.zone_id,
        card_id: c.card_id,
        row: f.1,
        col: f.0,
        tile: (
            packed::def_id(c.packed_definition),
            model::stock_value(c.stock, 0),
            model::stock_value(c.stock, 1),
        ),
        at: history::time(c),
    }
}

/// The folds of all tile-cards at rest among `rows`.
pub open spec fn folds(e: Env, db: Db, rows: Seq<Card>) -> Seq<Demotion>
    decreases rows.len(),
{
    if rows.len() == 0 {
        Seq::empty()
    } else {
        let before = folds(e, db, rows.drop_last());
        if at_rest(e, db, rows.last()) {
            before.push(fold_of(db, rows.last()))
        } else {
            before
        }
    }
}

/// The database after the demotion sweep.
pub open spec fn tile_cards_demoted(e: Env, db: Db) -> Db {
    let ds = folds(e, db, db.cards);
    let d = demotion::demoted(db.cards, db.zone_state(), ds, demotion::zone_order(ds));
    Db { cards: d.0, ..db.with_zone_state(d.1) }
}

fn find_folds(e: &Env, tb: &Tables) -> (ds: Vec<Demotion>)
    requires
        e.wf(),
    ensures
        ds@ == folds(*e, tb@, tb@.cards),
{
    let m = history::max_keys(&tb.cards);
    let mut ds: Vec<Demotion> = Vec::new();
    let mut i: usize = 0;
    while i < tb.cards.len()
        invariant
            i <= tb.cards.len(),
            e.wf(),
            ds@ == folds(*e, tb@, tb@.cards.take(i as int)),
            forall|id: u32|
                #![trigger m@.contains_key(id)]
                #![trigger history::max_key(tb@.cards, id)]
                (m@.contains_key(id) <==> history::max_key(tb@.cards, id) is Some) && (
                m@.contains_key(id) ==> history::max_key(tb@.cards, id) == Some(m@[id])),
        decreases tb.cards.len() - i,
    {
        let c = tb.cards[i];
        proof {
            let next = tb@.cards.take(i + 1);
            assert(next.drop_last() =~= tb@.cards.take(i as int));
            assert(next.last() == c);
            assert(m@.contains_key(c.card_id) <==> history::max_key(tb@.cards, c.card_id) is Some);
        }
        i = i + 1;
        let newest: bool = match m.get(&c.card_id) {
            Some(k) => *k == c.valid_at,
            None => false,
        };
        let at: u64 = packed::valid_at_time(c.valid_at);
        let d: (u8, u16) = packed::unpack_definition(c.packed_definition);
        if newest && at <= e.now_ms && d.0 == tiles::TILE_CARD_TYPE && !cards::micro_is_card(&c)
            && c.flags & e.blocks_demotion == 0 && !model::has_active_holds(&e.layout, c.flags)
            && c.stock & !model::STOCK_ZONE_SAVE_MASK == 0 {
            if let Some(z) = zones::latest_for(&tb.zones, c.macro_zone) {
                if z.owner_id == c.owner_id {
                    let cell: (u8, u8) = packed::micro_loose_cell(c.micro_location);
                    ds.push(
                        Demotion {
                            zone_id: z.zone_id,
                            card_id: c.card_id,
                            row: cell.1,
                            col: cell.0,
                            tile: (d.1, model::stock(c.stock, 0), model::stock(c.stock, 1)),
                            at,
                        },
                    );
                }
            }
        }
    }
    assert(tb@.cards.take(tb.cards.len() as int) =~= tb@.cards);
    ds
}

/// Fold tile-cards at rest back into their zones.
pub fn sweep_tile_card_demotions(e: &Env, tb: &mut Tables)
    requires
        e.wf(),
    ensures
        final(tb)@ == tile_cards_demoted(*e, old(tb)@),
{
    let ds: Vec<Demotion> = find_folds(e, tb);
    demotion::demote(&mut tb.cards, &mut tb.zones, &mut tb.next_sequence, &ds);
}

/// `db` after a periodic sweep.
pub open spec fn swept(e: Env, db: Db) -> Db {
    let d = cards_swept(e, tile_cards_demoted(e, db), e.now_ms);
    Db {
        souls: history::swept(d.souls),
        zones: history::swept(d.zones),
        card_shards: history::swept(d.card_shards),
        pending_actions: d.pending_actions.filter(pending_actions::not_stale(e.now_ms)),
        ..d
    }
}

/// Periodic sweep: demotions first, so that the zone rows they write survive;
/// then cards by the retention rules, and souls, zones and shard references down
/// to their newest rows. Regions hold one row each and stay.
pub fn gc_sweep(e: &Env, tb: &mut Tables)
    requires
        e.wf(),
    ensures
        final(tb)@ == swept(*e, old(tb)@),
{
    sweep_tile_card_demotions(e, tb);
    sweep_cards(e, tb, e.now_ms);
    history::sweep(&mut tb.souls);
    history::sweep(&mut tb.zones);
    history::sweep(&mut tb.card_shards);
    pending_actions::sweep_stale(&mut tb.pending_actions, e.now_ms);
}

// ---- laws ----------------------------------------------------------
/// A sweep never takes a live newest row, always takes a prior version, and
/// always takes a dead row past the hard cap; a dead row that an action claims
/// stays until then.
pub proof fn sweep_retention(e: Env, db: Db, now_ms: u64, c: Card)
    requires
        db.cards.contains(c),
    ensures
        history::is_newest(db.cards, c) && !cards::is_dead(e, c) ==> cards_swept(
            e,
            db,
            now_ms,
        ).cards.contains(c),
        !history::is_newest(db.cards, c) ==> !cards_swept(e, db, now_ms).cards.contains(c),
        cards::is_dead(e, c) && age(c, now_ms) > MAX_DEAD_RETENTION_MS ==> !cards_swept(
            e,
            db,
            now_ms,
        ).cards.contains(c),
        history::is_newest(db.cards, c) && age(c, now_ms) <= MAX_DEAD_RETENTION_MS
            && model::hold_value(e.layout, c.flags, HoldField::SlotClaim) > 0 ==> cards_swept(
            e,
            db,
            now_ms,
        ).cards.contains(c),
{
    let keep = survives(e, db, now_ms);
    history::filter_members(db.cards, keep);
    let out = cards_swept(e, db, now_ms).cards;
    if out.contains(c) {
        let i = choose|i: int| 0 <= i < out.len() && out[i] == c;
        assert(keep(out[i]));
    }
    let j = choose|j: int| 0 <= j < db.cards.len() && db.cards[j] == c;
    assert(keep(db.cards[j]) ==> out.contains(c));
}

/// A tile-card that is held, stacked, not yet in force or of a stock that a tile
/// cannot keep stays, with all its rows, through the demotion sweep.
pub proof fn tile_cards_in_use_stay(e: Env, db: Db, row: Card)
    requires
        db.cards.contains(row),
        forall|i: int|
            0 <= i < db.cards.len() && (#[trigger] db.cards[i]).card_id == row.card_id ==> !at_rest(
                e,
                db,
                db.cards[i],
            ),
    ensures
        tile_cards_demoted(e, db).cards.contains(row),
{
    let ds = folds(e, db, db.cards);
    lemma_folds_of(e, db, db.cards, row.card_id);
    demotion::demotion_spares_others(
        db.cards,
        db.zone_state(),
        ds,
        demotion::zone_order(ds),
        row,
    );
}

proof fn lemma_folds_of(e: Env, db: Db, rows: Seq<Card>, card_id: u32)
    requires
        forall|i: int|
            0 <= i < rows.len() && (#[trigger] rows[i]).card_id == card_id ==> !at_rest(
                e,
                db,
                rows[i],
            ),
    ensures
        forall|i: int|
            0 <= i < folds(e, db, rows).len() ==> (#[trigger] folds(e, db, rows)[i]).card_id
                != card_id,
    decreases rows.len(),
{
    if rows.len() > 0 {
        let init = rows.drop_last();
        assert forall|i: int| 0 <= i < init.len() && (#[trigger] init[i]).card_id == card_id implies !at_rest(
            e,
            db,
            init[i],
        ) by {
            assert(init[i] == rows[i]);
        }
        lemma_folds_of(e, db, init, card_id);
        assert(rows[rows.len() - 1] == rows.last());
        let before = folds(e, db, init);
        let out = folds(e, db, rows);
        assert forall|i: int| 0 <= i < out.len() implies (#[trigger] out[i]).card_id != card_id by {
            if i < before.len() {
                assert(out[i] == before[i]);
            }
        }
    }
}

/// A dead newest row is kept up to thirty days; for that long, it is kept while an action
/// claims it or a player owns it, and otherwise five minutes.
pub proof fn dead_cards_wait_for_their_player(e: Env, db: Db, now_ms: u64, c: Card)
    requires
        db.cards.contains(c),
        history::is_newest(db.cards, c),
        cards::is_dead(e, c),
    ensures
        cards_swept(e, db, now_ms).cards.contains(c) <==> now_ms - history::time(c) <= 2_592_000_000
            && (model::hold_value(e.layout, c.flags, HoldField::SlotClaim) > 0 || (
        cards::player_of(e, db, c.card_id) matches Some(p) && p != 0) || now_ms - history::time(c)
            <= 300_000),
{
    let keep = survives(e, db, now_ms);
    history::filter_members(db.cards, keep);
    let out = cards_swept(e, db, now_ms).cards;
    if out.contains(c) {
        let i = choose|i: int| 0 <= i < out.len() && out[i] == c;
        assert(keep(out[i]));
    }
    let j = choose|j: int| 0 <= j < db.cards.len() && db.cards[j] == c;
    assert(keep(db.cards[j]) ==> out.contains(c));
}

/// Every tile-card at rest folds, and nothing else does.
pub proof fn cards_at_rest_fold(e: Env, db: Db, rows: Seq<Card>, d: Demotion)
    ensures
        folds(e, db, rows).contains(d) <==> exists|i: int|
            0 <= i < rows.len() && at_rest(e, db, #[trigger] rows[i]) && d == fold_of(db, rows[i]),
    decreases rows.len(),
{
    if rows.len() > 0 {
        let init = rows.drop_last();
        let before = folds(e, db, init);
        let out = folds(e, db, rows);
        cards_at_rest_fold(e, db, init, d);
        assert(rows[rows.len() - 1] == rows.last());
        if before.contains(d) {
            let i = choose|i: int|
                0 <= i < init.len() && at_rest(e, db, #[trigger] init[i]) && d == fold_of(
                    db,
                    init[i],
                );
            assert(rows[i] == init[i]);
            let k = choose|k: int| 0 <= k < before.len() && before[k] == d;
            assert(out[k] == d);
        } else {
            assert(forall|i: int| 0 <= i < init.len() ==> #[trigger] init[i] == rows[i]);
            if out.contains(d) {
                let k = choose|k: int| 0 <= k < out.len() && out[k] == d;
                if k < before.len() {
                    assert(before[k] == d);
                }
            }
            if at_rest(e, db, rows.last()) && d == fold_of(db, rows.last()) {
                assert(out[before.len() as int] == d);
            }
            assert forall|i: int|
                0 <= i < rows.len() && at_rest(e, db, #[trigger] rows[i]) && d == fold_of(
                    db,
                    rows[i],
                ) implies out.contains(d) by {
                if i < init.len() {
                    assert(init[i] == rows[i]);
                }
            }
        }
    }
}

} // verus!
