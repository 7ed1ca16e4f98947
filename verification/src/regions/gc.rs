//! Garbage collection of the positional database.
//!
//! No table has dead rows: the newest row per identity stays, prior versions go.
//! Tile-cards at rest first fold back into their zones.
use vstd::prelude::*;

use crate::cards::env;
use crate::cards::env::HoldKind;
use crate::cards::flags::BkFlags;
use crate::history;
use crate::packed;
use crate::regions::cards;
use crate::regions::cards::Card;
use crate::regions::demotion;
use crate::regions::demotion::Demotion;
use crate::regions::regions;
use crate::regions::tables::Db;
use crate::regions::tables::Env;
use crate::regions::tables::Tables;
use crate::regions::zones;

verus! {

/// Some hold count of a flag word is not zero.
pub open spec fn held(bk: BkFlags, flags_bk: u32) -> bool {
    exists|kind: HoldKind| env::field_value(flags_bk, #[trigger] bk.spec_count_field(kind)) > 0
}

/// Test whether some hold count of a flag word is not zero.
pub fn has_active_holds(bk: &BkFlags, flags_bk: u32) -> (r: bool)
    requires
        bk.wf(),
    ensures
        r == held(*bk, flags_bk),
{
    let r: bool = env::read_field(flags_bk, bk.count_field(HoldKind::Touch)) > 0
        || env::read_field(flags_bk, bk.count_field(HoldKind::SlotHold)) > 0 || env::read_field(
        flags_bk,
        bk.count_field(HoldKind::SlotShare),
    ) > 0 || env::read_field(flags_bk, bk.count_field(HoldKind::PositionHold)) > 0
        || env::read_field(flags_bk, bk.count_field(HoldKind::DropHold)) > 0 || env::read_field(
        flags_bk,
        bk.count_field(HoldKind::Server),
    ) > 0;
    proof {
        if held(*bk, flags_bk) {
            let kind = choose|kind: HoldKind|
                env::field_value(flags_bk, #[trigger] bk.spec_count_field(kind)) > 0;
            match kind {
                HoldKind::Touch => {},
                HoldKind::SlotHold => {},
                HoldKind::SlotShare => {},
                HoldKind::PositionHold => {},
                HoldKind::DropHold => {},
                HoldKind::Server => {},
            }
        }
    }
    r
}

/// A row is a tile-card at rest: its card's newest row, in force by now, loose,
/// with a clean state and no holds, over a zone of the same owner.
pub open spec fn at_rest(e: Env, db: Db, c: Card) -> bool {
    &&& history::is_newest(db.cards, c)
    &&& history::time(c) <= e.now_ms
    &&& packed::card_type(c.packed_definition) == cards::TILE_CARD_TYPE
    &&& c.flags_bk & e.bk.micro_is_card == 0
    &&& c.flags_state & e.blocks_demotion == 0
    &&& !held(e.bk, c.flags_bk)
    &&& zones::latest_on(db.zones, c.macro_zone) matches Some(z) && z.owner_id == c.owner_id
}

/// The fold of a tile-card at rest.
pub open spec fn fold_of(e: Env, db: Db, c: Card) -> Demotion {
    let f = packed::micro_loose_fields(c.micro_location);
    Demotion {
        zone_id: zones::latest_on(db.zones, c.macro_zone)->0.zone_id,
        card_id: c.card_id,
        row: f.1,
        col: f.0,
        tile: (
            packed::def_id(c.packed_definition),
            cards::stock_value(e.bk, c.flags_bk, 0),
            cards::stock_value(e.bk, c.flags_bk, 1),
        ),
        at: e.now_ms,
    }
}

/// The folds of all tile-cards at rest among `rows`.
pub open spec fn folds(e: Env, db: Db, rows: Seq<Card>) -> Seq<Demotion>
    decreases rows.len(),
{
    if rows.len() == 0 {
        Seq::empty()
    } else {
        let before = folds(e, db, rows.drop_last());
        if at_rest(e, db, rows.last()) {
            before.push(fold_of(e, db, rows.last()))
        } else {
            before
        }
    }
}

/// The database after the demotion sweep.
pub open spec fn tile_cards_demoted(e: Env, db: Db) -> Db {
    let ds = folds(e, db, db.cards);
    let d = demotion::demoted(db.cards, db.zone_state(), ds, demotion::zone_order(ds));
    Db { cards: d.0, ..db.with_zone_state(d.1) }
}

fn find_folds(e: &Env, tb: &Tables) -> (ds: Vec<Demotion>)
    requires
        e.bk.wf(),
    ensures
        ds@ == folds(*e, tb@, tb@.cards),
{
    let m = history::max_keys(&tb.cards);
    let mut ds: Vec<Demotion> = Vec::new();
    let mut i: usize = 0;
    while i < tb.cards.len()
        invariant
            i <= tb.cards.len(),
            e.bk.wf(),
            ds@ == folds(*e, tb@, tb@.cards.take(i as int)),
            forall|id: u32|
                #![trigger m@.contains_key(id)]
                #![trigger history::max_key(tb@.cards, id)]
                (m@.contains_key(id) <==> history::max_key(tb@.cards, id) is Some) && (
                m@.contains_key(id) ==> history::max_key(tb@.cards, id) == Some(m@[id])),
        decreases tb.cards.len() - i,
    {
        let c = tb.cards[i];
        proof {
            let next = tb@.cards.take(i + 1);
            assert(next.drop_last() =~= tb@.cards.take(i as int));
            assert(next.last() == c);
            assert(m@.contains_key(c.card_id) <==> history::max_key(tb@.cards, c.card_id) is Some);
        }
        i = i + 1;
        let newest: bool = match m.get(&c.card_id) {
            Some(k) => *k == c.valid_at,
            None => false,
        };
        let d: (u8, u16) = packed::unpack_definition(c.packed_definition);
        if newest && packed::valid_at_time(c.valid_at) <= e.now_ms && d.0 == cards::TILE_CARD_TYPE
            && c.flags_bk & e.bk.micro_is_card == 0 && c.flags_state & e.blocks_demotion == 0
            && !has_active_holds(&e.bk, c.flags_bk) {
            if let Some(z) = zones::latest_for(&tb.zones, c.macro_zone) {
                if z.owner_id == c.owner_id {
                    let cell: (u8, u8) = packed::micro_loose_cell(c.micro_location);
                    ds.push(
                        Demotion {
                            zone_id: z.zone_id,
                            card_id: c.card_id,
                            row: cell.1,
                            col: cell.0,
                            tile: (
                                d.1,
                                cards::tile_stock(&e.bk, c.flags_bk, 0),
                                cards::tile_stock(&e.bk, c.flags_bk, 1),
                            ),
                            at: e.now_ms,
                        },
                    );
                }
            }
        }
    }
    assert(tb@.cards.take(tb.cards.len() as int) =~= tb@.cards);
    ds
}

/// Fold tile-cards at rest back into their zones.
pub fn sweep_tile_card_demotions(e: &Env, tb: &mut Tables)
    requires
        e.bk.wf(),
    ensures
        final(tb)@ == tile_cards_demoted(*e, old(tb)@),
{
    let ds: Vec<Demotion> = find_folds(e, tb);
    demotion::demote(&mut tb.cards, &mut tb.zones, &mut tb.next_sequence, &ds);
}

/// Periodic sweep: demotions first, so that the zone rows they write survive;
/// then every table goes down to its newest rows.
pub fn gc_sweep(e: &Env, tb: &mut Tables)
    requires
        e.bk.wf(),
    ensures
        ({
            let d = tile_cards_demoted(*e, old(tb)@);
            final(tb)@ == (Db {
                cards: history::swept(d.cards),
                zones: history::swept(d.zones),
                regions: d.regions.filter(regions::newest_in(d.regions)),
                card_shards: history::swept(d.card_shards),
                ..d
            })
        }),
{
    sweep_tile_card_demotions(e, tb);
    history::sweep(&mut tb.cards);
    regions::sweep_regions(&mut tb.regions);
    history::sweep(&mut tb.zones);
    history::sweep(&mut tb.card_shards);
}

/// A tile-card that is held, stacked, or not yet in force keeps all its rows
/// through the demotion sweep.
pub proof fn tile_cards_in_use_stay(e: Env, db: Db, row: Card)
    requires
        db.cards.contains(row),
        forall|i: int|
            0 <= i < db.cards.len() && (#[trigger] db.cards[i]).card_id == row.card_id ==> !at_rest(
                e,
                db,
                db.cards[i],
            ),
    ensures
        tile_cards_demoted(e, db).cards.contains(row),
{
    let ds = folds(e, db, db.cards);
    lemma_folds_of(e, db, db.cards, row.card_id);
    demotion::demotion_spares_others(
        db.cards,
        db.zone_state(),
        ds,
        demotion::zone_order(ds),
        row,
    );
}

proof fn lemma_folds_of(e: Env, db: Db, rows: Seq<Card>, card_id: u32)
    requires
        forall|i: int|
            0 <= i < rows.len() && (#[trigger] rows[i]).card_id == card_id ==> !at_rest(
                e,
                db,
                rows[i],
            ),
    ensures
        forall|i: int|
            0 <= i < folds(e, db, rows).len() ==> (#[trigger] folds(e, db, rows)[i]).card_id
                != card_id,
    decreases rows.len(),
{
    if rows.len() > 0 {
        let init = rows.drop_last();
        assert forall|i: int| 0 <= i < init.len() && (#[trigger] init[i]).card_id == card_id implies !at_rest(
            e,
            db,
            init[i],
        ) by {
            assert(init[i] == rows[i]);
        }
        lemma_folds_of(e, db, init, card_id);
        assert(rows[rows.len() - 1] == rows.last());
        let before = folds(e, db, init);
        let out = folds(e, db, rows);
        assert forall|i: int| 0 <= i < out.len() implies (#[trigger] out[i]).card_id != card_id by {
            if i < before.len() {
                assert(out[i] == before[i]);
            }
        }
    }
}

/// Every tile-card at rest folds, and nothing else does.
pub proof fn cards_at_rest_fold(e: Env, db: Db, rows: Seq<Card>, d: Demotion)
    ensures
        folds(e, db, rows).contains(d) <==> exists|i: int|
            0 <= i < rows.len() && at_rest(e, db, #[trigger] rows[i]) && d == fold_of(
                e,
                db,
                rows[i],
            ),
    decreases rows.len(),
{
    if rows.len() > 0 {
        let init = rows.drop_last();
        let before = folds(e, db, init);
        let out = folds(e, db, rows);
        cards_at_rest_fold(e, db, init, d);
        assert(rows[rows.len() - 1] == rows.last());
        if before.contains(d) {
            let i = choose|i: int|
                0 <= i < init.len() && at_rest(e, db, #[trigger] init[i]) && d == fold_of(
                    e,
                    db,
                    init[i],
                );
            assert(rows[i] == init[i]);
            let k = choose|k: int| 0 <= k < before.len() && before[k] == d;
            assert(out[k] == d);
        } else {
            assert(forall|i: int| 0 <= i < init.len() ==> #[trigger] init[i] == rows[i]);
            if out.contains(d) {
                let k = choose|k: int| 0 <= k < out.len() && out[k] == d;
                if k < before.len() {
                    assert(before[k] == d);
                }
            }
            if at_rest(e, db, rows.last()) && d == fold_of(e, db, rows.last()) {
                assert(out[before.len() as int] == d);
            }
            assert forall|i: int|
                0 <= i < rows.len() && at_rest(e, db, #[trigger] rows[i]) && d == fold_of(
                    e,
                    db,
                    rows[i],
                ) implies out.contains(d) by {
                if i < init.len() {
                    assert(init[i] == rows[i]);
                }
            }
        }
    }
}

} // verus!
