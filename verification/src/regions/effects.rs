//! What tile and zone operations come to: the rows that a reader finds after them.
use vstd::prelude::*;

use crate::actions::outcomes as stocks;
use crate::cards::env;
use crate::cards::env::HoldKind;
use crate::cards::flags::BkFlags;
use crate::cards::micro;
use crate::cards::micro::Micro;
use crate::cards::outcomes;
use crate::content;
use crate::content::CardDefinition;
use crate::content::Catalog;
use crate::history;
use crate::packed;
use crate::regions::cards;
use crate::regions::cards::Card;
use crate::regions::demotion;
use crate::regions::demotion::Demotion;
use crate::regions::gate_api;
use crate::regions::gc;
use crate::regions::regions;
use crate::regions::regions::Region;
use crate::regions::regions::RegionState;
use crate::regions::tables::Db;
use crate::regions::tables::Env;
use crate::regions::world_gen;
use crate::regions::zones;
use crate::regions::zones::Zone;
use crate::regions::zones::ZoneState;
use crate::tile_words;
use crate::tile_words::Tile;
use crate::time::TimeDrift;

verus! {

// ---- tile-cards ----------------------------------------------------
/// The placement and the two tile stocks have bits of their own.
pub open spec fn laid_out(bk: BkFlags) -> bool {
    &&& micro::laid_out(bk)
    &&& stocks::stocks_laid_out(bk)
    &&& env::shaped(cards::stock_field(bk, 0))
    &&& env::shaped(cards::stock_field(bk, 1))
}

/// The tile-card carries a tile: it stands loose on the cell of the zone on that
/// surface, of that definition and with those stocks.
pub open spec fn carries(
    bk: BkFlags,
    c: Card,
    surface: u8,
    macro_zone: u64,
    q: u8,
    r: u8,
    tile: Tile,
) -> bool {
    &&& outcomes::lies_on(c.macro_zone, macro_zone, surface)
    &&& c.packed_definition == tile.0
    &&& stocks::first_stock(bk, c.flags_bk) == tile.1
    &&& stocks::second_stock(bk, c.flags_bk) == tile.2
    &&& micro::decoded(c.micro_location, c.flags_bk, bk) matches Micro::Loose {
        local_q,
        local_r,
        ..
    } && local_q == q && local_r == r
}

proof fn lemma_tile_card_in_force(
    bk: BkFlags,
    rows: Seq<Card>,
    candidates: Seq<Card>,
    location: u64,
    q: u8,
    r: u8,
    t: u64,
)
    ensures
        cards::tile_card_at(bk, rows, candidates, location, q, r, t) matches Some(c)
            ==> history::prior_at(rows, c.card_id, t) == Some(c) && cards::stands_on(
            bk,
            c,
            location,
            q,
            r,
        ),
    decreases candidates.len(),
{
    if candidates.len() > 0 {
        lemma_tile_card_in_force(bk, rows, candidates.skip(1), location, q, r, t);
        history::prior_at_is_greatest(rows, candidates[0].card_id, t);
    }
}

/// A tile that is promoted is found as a card that carries it, as a reader saw the
/// tile: from its card where it had one, else from the zone.
pub proof fn promoted_tiles_are_carried(
    e: Env,
    db: Db,
    surface: u8,
    macro_zone: u64,
    q: u8,
    r: u8,
    t: u64,
    view: Tile,
)
    requires
        laid_out(e.bk),
        e.snap_hex <= e.bk.stack_state_max,
        t < packed::TIME_RADIX,
        history::distinct_versions(db.cards),
        cards::tile_view(e, db, surface, macro_zone, q, r, t) == Some(view),
        view.1 <= 3,
        view.2 <= 3,
    ensures
        ({
            let p = cards::promotion(e, db, surface, macro_zone, q, r, t);
            &&& history::distinct_versions(p.0.cards)
            &&& p.1 matches Ok(c) && history::prior_at(p.0.cards, c.card_id, t) == Some(c)
                && carries(e.bk, c, surface, macro_zone, q, r, view)
        }),
{
    let location = packed::on_surface(macro_zone, surface);
    let f0 = cards::stock_field(e.bk, 0);
    let f1 = cards::stock_field(e.bk, 1);
    let w0 = choose|w: u32| env::well_shaped(f0, w);
    let w1 = choose|w: u32| env::well_shaped(f1, w);
    outcomes::lemma_lies_on(macro_zone, surface);
    lemma_tile_card_in_force(e.bk, db.cards, db.cards, location, q, r, t);
    match cards::tile_card(e, db, surface, macro_zone, q, r, t) {
        Some(c) => {
            env::field_read_over_write(c.flags_bk, f0, w0, 0);
            env::field_read_over_write(c.flags_bk, f1, w1, 0);
        },
        None => {
            let z = zones::latest_on(db.zones, location)->0;
            let taken = cards::id_taken(db);
            let c = cards::promoted(e, db, location, q, r, z.owner_id, view);
            let row = cards::stamped(taken, c, t);
            let m = Micro::Loose { local_q: q, local_r: r, x: 0, y: 0, kind: e.snap_hex };
            let a = env::with_field(0, f0, view.1 as u32);
            let b = env::with_field(a, f1, view.2 as u32);
            env::field_read_over_write(0, f0, w0, view.1 as u32);
            env::field_read_over_write(a, f1, w1, view.2 as u32);
            env::write_is_confined(a, f1, view.2 as u32, f0.mask);
            micro::placement_round_trip(m, b, e.bk);
            micro::placement_marks_members(m, b, e.bk, f0.mask);
            micro::placement_marks_members(m, b, e.bk, f1.mask);
            packed::valid_at_round_trip(t, taken.next_sequence);
            history::read_over_write(db.cards, row, t);
            history::store_keeps_distinct(db.cards, row, t);
        },
    }
}

/// The tile in a zone is found at the row and column of the cell, with the card type of
/// the zone.
pub proof fn zone_tiles_are_read_by_row_and_column(db: Db, location: u64, q: u8, r: u8, z: Zone)
    requires
        zones::latest_on(db.zones, location) == Some(z),
        q < 8,
        r < 8,
    ensures
        ({
            let lane = tile_words::lane(zones::words(z)[(8 * r + q) / 4], (8 * r + q) % 4);
            match cards::zone_tile(db, location, q, r) {
                Ok(t) => lane / 16 != 0 && t.0 % 4096 == lane / 16 && t.0 / 4096
                    == z.packed_definition / 16 && t.1 == lane / 4 % 4 && t.2 == lane % 4,
                Err(_) => lane / 16 == 0,
            }
        }),
{
    let i = 8 * r + q;
    assert(i == r * 8 + q);
    let lane = tile_words::lane(zones::words(z)[i / 4], i % 4);
    packed::definition_round_trip(z.packed_definition / 16, lane / 16);
}

/// A stock after an operation: less for the first, more for the second, set by the
/// third, from none to three.
pub open spec fn stock_becomes(was: int, op: u8, delta: u8) -> int {
    let want = if op == 0 {
        was - delta
    } else if op == 1 {
        was + delta
    } else {
        delta as int
    };
    if want < 0 {
        0
    } else if want > 3 {
        3
    } else {
        want
    }
}

/// A stock request adds up: the stock named, as a reader saw the tile, goes up, down or
/// to the amount given, from none to three. The other stock, the definition and the
/// place stay.
pub proof fn stock_requests_add_up(
    e: Env,
    db: Db,
    t: u64,
    surface: u8,
    macro_zone: u64,
    q: u8,
    r: u8,
    slot: u8,
    op: u8,
    delta: u8,
    view: Tile,
)
    requires
        laid_out(e.bk),
        e.snap_hex <= e.bk.stack_state_max,
        t < packed::TIME_RADIX,
        history::distinct_versions(db.cards),
        cards::tile_view(e, db, surface, macro_zone, q, r, t) == Some(view),
        view.1 <= 3,
        view.2 <= 3,
        slot < 2,
        op < 3,
    ensures
        ({
            let out = gate_api::stock_modified(
                e,
                db,
                t,
                surface,
                macro_zone,
                q,
                r,
                slot,
                op,
                delta,
            );
            let id = cards::promotion(e, db, surface, macro_zone, q, r, t).1->Ok_0.card_id;
            let first = if slot == 0 {
                stock_becomes(view.1 as int, op, delta)
            } else {
                view.1 as int
            };
            let second = if slot == 1 {
                stock_becomes(view.2 as int, op, delta)
            } else {
                view.2 as int
            };
            &&& out.1 is Ok
            &&& history::prior_at(out.0.cards, id, t) matches Some(n) && carries(
                e.bk,
                n,
                surface,
                macro_zone,
                q,
                r,
                (view.0, first as u8, second as u8),
            )
        }),
{
    promoted_tiles_are_carried(e, db, surface, macro_zone, q, r, t, view);
    let p = cards::promotion(e, db, surface, macro_zone, q, r, t);
    let c = p.1->Ok_0;
    let f0 = cards::stock_field(e.bk, 0);
    let f1 = cards::stock_field(e.bk, 1);
    let was = if slot == 0 {
        view.1
    } else {
        view.2
    };
    let next = stock_becomes(was as int, op, delta) as u8;
    assert(gate_api::stock_after(was, op, delta) == Some(next));
    lemma_stock_set(e.bk, c.flags_bk, slot as int, next);
    let n = cards::restocked(e, c, slot as int, next);
    let row = cards::stamped(p.0, n, t);
    packed::valid_at_round_trip(t, p.0.next_sequence);
    history::prior_at_is_greatest(p.0.cards, c.card_id, t);
    history::read_over_write(p.0.cards, row, t);
}

proof fn lemma_stock_set(bk: BkFlags, word: u32, slot: int, value: u8)
    requires
        laid_out(bk),
        slot == 0 || slot == 1,
        value <= 3,
    ensures
        ({
            let out = cards::with_stock(bk, word, slot, value);
            &&& stocks::first_stock(bk, out) == if slot == 0 {
                value as u32
            } else {
                stocks::first_stock(bk, word)
            }
            &&& stocks::second_stock(bk, out) == if slot == 1 {
                value as u32
            } else {
                stocks::second_stock(bk, word)
            }
            &&& out & bk.micro_is_card == word & bk.micro_is_card
            &&& out & bk.stack_state_mask == word & bk.stack_state_mask
            &&& out & bk.stack_index_mask == word & bk.stack_index_mask
        }),
{
    let f0 = cards::stock_field(bk, 0);
    let f1 = cards::stock_field(bk, 1);
    let w0 = choose|w: u32| env::well_shaped(f0, w);
    let w1 = choose|w: u32| env::well_shaped(f1, w);
    env::field_read_over_write(word, f0, w0, value as u32);
    env::field_read_over_write(word, f1, w1, value as u32);
    let stack = micro::stack_mask(bk);
    if slot == 0 {
        env::write_is_confined(word, f0, value as u32, f1.mask);
        env::write_is_confined(word, f0, value as u32, stack);
    } else {
        env::write_is_confined(word, f1, value as u32, f0.mask);
        env::write_is_confined(word, f1, value as u32, stack);
    }
    stocks::lemma_stack_fields(
        word,
        cards::with_stock(bk, word, slot, value),
        bk.micro_is_card,
        bk.stack_state_mask,
        bk.stack_index_mask,
    );
}

/// A hold that is taken on a tile counts one more on the tile's card, and is refused
/// only where it is exclusive and the card is held so already.
pub proof fn tile_holds_count_one(
    e: Env,
    db: Db,
    surface: u8,
    macro_zone: u64,
    q: u8,
    r: u8,
    kind: HoldKind,
    t: u64,
    mid: Db,
    c: Card,
    width: u32,
)
    requires
        t < packed::TIME_RADIX,
        cards::promotion(e, db, surface, macro_zone, q, r, t) == (
            mid,
            Ok::<Card, cards::TileError>(c),
        ),
        history::distinct_versions(mid.cards),
        env::well_shaped(e.bk.spec_count_field(kind), width),
    ensures
        ({
            let out = cards::hold_acquired(e, db, surface, macro_zone, q, r, kind, t);
            let f = e.bk.spec_count_field(kind);
            let was = env::field_value(c.flags_bk, f);
            &&& out.1 is Err <==> kind == HoldKind::SlotHold && was > 0
            &&& out.1 is Ok ==> (history::prior_at(out.0.cards, c.card_id, t) matches Some(n)
                && env::field_value(n.flags_bk, f) == (if was < f.max {
                was + 1
            } else {
                f.max as int
            }) && n.flags_bk & !f.mask == c.flags_bk & !f.mask && n.macro_zone == c.macro_zone
                && n.packed_definition == c.packed_definition)
        }),
{
    let f = e.bk.spec_count_field(kind);
    let v = env::field_value(c.flags_bk, f);
    let n = cards::hold_stepped(e, c, kind, true);
    let up = if v < f.max {
        (v + 1) as u32
    } else {
        f.max
    };
    env::field_read_over_write(c.flags_bk, f, width, up);
    let row = cards::stamped(mid, n, t);
    packed::valid_at_round_trip(t, mid.next_sequence);
    history::read_over_write(mid.cards, row, t);
}

// ---- zones ---------------------------------------------------------
/// A tile that is written is found at its row and column from then on, cut to the
/// widths of a tile. The other tiles of the zone, and every other zone, stay.
pub proof fn written_tiles_are_found(
    s: ZoneState,
    zone_id: u32,
    t: u64,
    row: u8,
    col: u8,
    tile: Tile,
    z: Zone,
    row2: int,
    col2: int,
    other: u32,
)
    requires
        t < packed::TIME_RADIX,
        row < 8,
        col < 8,
        0 <= row2 < 8,
        0 <= col2 < 8,
        history::distinct_versions(s.rows),
        history::key_free(s.rows, packed::valid_at_key(t, s.seq)),
        history::prior_at(s.rows, zone_id, t) == Some(z),
    ensures
        ({
            let out = zones::tile_written(s, zone_id, t, row, col, tile).0.rows;
            &&& history::prior_at(out, zone_id, t) matches Some(n) && zones::tile_of(n, row2, col2)
                == (if row2 == row && col2 == col {
                ((tile.0 % 4096) as u16, (tile.1 % 4) as u8, (tile.2 % 4) as u8)
            } else {
                zones::tile_of(z, row2, col2)
            }) && n.macro_zone == z.macro_zone && n.owner_id == z.owner_id && n.packed_definition
                == z.packed_definition
            &&& other != zone_id ==> history::prior_at(out, other, t) == history::prior_at(
                s.rows,
                other,
                t,
            )
        }),
{
    history::prior_at_is_greatest(s.rows, zone_id, t);
    let was = zones::tile_of(z, row as int, col as int);
    if was != tile_words::masked(tile) {
        let n = zones::with_tile(z, row as int, col as int, tile);
        let st = zones::stamped(s, n, t);
        let w = zones::zone_written(s, n, t);
        zones::tile_read_over_write(z, row as int, col as int, tile, row2, col2);
        packed::valid_at_round_trip(t, s.seq);
        history::read_over_write(s.rows, st, t);
        if other != zone_id {
            history::write_leaves_the_rest(s.rows, st, t, other, t);
        }
        lemma_carrying_is_unseen(w.rows, zone_id, t, row as int, col as int, was, tile, zone_id);
        lemma_carrying_is_unseen(w.rows, zone_id, t, row as int, col as int, was, tile, other);
        assert(zones::tile_of(st, row2, col2) == zones::tile_of(n, row2, col2));
    }
}

proof fn lemma_carrying_is_unseen(
    rows: Seq<Zone>,
    zone_id: u32,
    t: u64,
    row: int,
    col: int,
    was: Tile,
    now: Tile,
    id: u32,
)
    ensures
        history::prior_at(zones::carried(rows, zone_id, t, row, col, was, now), id, t)
            == history::prior_at(rows, id, t),
{
    zones::carrying_is_confined(rows, zone_id, t, row, col, was, now);
    let out = zones::carried(rows, zone_id, t, row, col, was, now);
    assert forall|j: int| 0 <= j < rows.len() implies (#[trigger] out[j] == rows[j] || (
    rows[j].zone_id == out[j].zone_id && rows[j].valid_at == out[j].valid_at && history::time(
        rows[j],
    ) > t)) by {
        let o = zones::carried(rows, zone_id, t, row, col, was, now)[j];
    }
    lemma_later_differences_are_unseen(rows, out, id, t);
}

proof fn lemma_later_differences_are_unseen(a: Seq<Zone>, b: Seq<Zone>, id: u32, t: u64)
    requires
        a.len() == b.len(),
        forall|j: int|
            0 <= j < a.len() ==> (#[trigger] b[j] == a[j] || (a[j].zone_id == b[j].zone_id
                && a[j].valid_at == b[j].valid_at && history::time(a[j]) > t)),
    ensures
        history::prior_at(b, id, t) == history::prior_at(a, id, t),
    decreases a.len(),
{
    if a.len() > 0 {
        let x = a.drop_last();
        let y = b.drop_last();
        assert forall|j: int| 0 <= j < x.len() implies (#[trigger] y[j] == x[j] || (x[j].zone_id
            == y[j].zone_id && x[j].valid_at == y[j].valid_at && history::time(x[j]) > t)) by {
            assert(b[j] == y[j] && a[j] == x[j]);
        }
        lemma_later_differences_are_unseen(x, y, id, t);
        assert(b[b.len() - 1] == b.last() && a[a.len() - 1] == a.last());
    }
}

/// A zone that is spawned on request lies at the location asked for, belongs to the
/// container of the location, or to the world on the world's surface, and has the tiles
/// asked for as far as they lie within the region's distance of the origin, and no
/// others.
pub proof fn requested_zones_have_the_tiles_in_reach(
    s: RegionState,
    t: u64,
    macro_zone: u64,
    tiles: Seq<u64>,
    region: Region,
    lr: u8,
    lc: u8,
)
    requires
        t < packed::TIME_RADIX,
        tiles.len() == 16,
        lr < 7,
        lc < 7,
        regions::latest_row(s.regions, packed::governing_region(macro_zone).0) == Some(region),
        zones::latest_on(s.zones, macro_zone) is None,
        region.zone_presence & (1u64 << packed::governing_region(macro_zone).1) != 0,
    ensures
        ({
            let out = regions::zone_requested(s, Ok::<u64, TimeDrift>(t), macro_zone, tiles);
            let c = packed::zone_coords(macro_zone);
            let q = 7 * c.0 + lc;
            let r = 7 * c.1 + lr;
            &&& out.1 is Ok
            &&& exists|z: Zone| #[trigger]
                out.0.zones.contains(z) && z.macro_zone == macro_zone && history::time(z) == t
                    && z.owner_id == (if macro_zone / 0x100_0000 % 0x100 == 64 {
                    0
                } else {
                    macro_zone / 0x1_0000_0000
                }) && zones::tile_of(z, lr as int, lc as int) == if regions_reach(
                    q,
                    r,
                    region.distance as int,
                ) {
                    tile_words::tile(tiles, lr * 8 + lc)
                } else {
                    (0u16, 0u8, 0u8)
                }
        }),
{
    let z = lemma_spawned_zone(s, t, macro_zone, tiles, region.distance, lr, lc);
    let after = regions::spawned(s, macro_zone, tiles, region.distance, t);
    let out = regions::zone_requested(s, Ok::<u64, TimeDrift>(t), macro_zone, tiles);
    assert(out.0.zones == after.zones);
    assert(out.0.zones.contains(z));
}

#[verifier::spinoff_prover]
proof fn lemma_spawned_zone(
    s: RegionState,
    t: u64,
    macro_zone: u64,
    tiles: Seq<u64>,
    distance: u16,
    lr: u8,
    lc: u8,
) -> (z: Zone)
    requires
        t < packed::TIME_RADIX,
        tiles.len() == 16,
        lr < 7,
        lc < 7,
    ensures
        regions::spawned(s, macro_zone, tiles, distance, t).zones.contains(z),
        z.macro_zone == macro_zone,
        history::time(z) == t,
        z.owner_id == (if macro_zone / 0x100_0000 % 0x100 == 64 {
            0
        } else {
            macro_zone / 0x1_0000_0000
        }),
        ({
            let c = packed::zone_coords(macro_zone);
            zones::tile_of(z, lr as int, lc as int) == if regions_reach(
                7 * c.0 + lc,
                7 * c.1 + lr,
                distance as int,
            ) {
                tile_words::tile(tiles, lr * 8 + lc)
            } else {
                (0u16, 0u8, 0u8)
            }
        }),
{
    let c = packed::zone_coords(macro_zone);
    let d = distance as int;
    let w = regions::clipped(regions::supplied(tiles), c.0, c.1, d, 49);
    regions::lemma_clip(regions::supplied(tiles), c.0, c.1, d, 49, lr, lc);
    assert(regions::supplied(tiles) =~= tiles);
    let st = ZoneState { rows: s.zones, seq: s.seq };
    let fresh = zones::fresh_zone(
        zones::fresh_zone_id(s.zones),
        macro_zone,
        packed::zone_definition_word(regions::TILE_ZONE_TYPE),
        regions::zone_owner(macro_zone),
        w,
    );
    let z = zones::stamped(st, fresh, t);
    packed::valid_at_round_trip(t, s.seq);
    history::stored_members(s.zones, z, t);
    assert(zones::words(z) =~= w);
    z
}

/// The hex lies within `d` steps of the origin.
pub open spec fn regions_reach(q: int, r: int, d: int) -> bool {
    -d <= q <= d && -d <= r <= d && -d <= q + r <= d
}

/// The inventory of a soul is a region of its own, whose only zone is the first. Once
/// it is seeded, seeding it again changes nothing.
pub proof fn inventories_are_seeded_once(rows: Seq<Region>, seq: u16, soul: u32, t: u64, again: u64)
    requires
        t < packed::TIME_RADIX,
        regions::latest_row(rows, packed::macro_zone_key(soul, 1, 0, 0)) is None,
    ensures
        ({
            let once = regions::inventory_seeded(rows, seq, soul, t);
            &&& once.0.last().macro_region / 0x1_0000_0000 == soul
            &&& once.0.last().macro_region % 0x1_0000_0000 == 0x100_0000
            &&& once.0.last().zone_presence == 1
            &&& once.0.last().zone_available == 0
            &&& once.0.last().valid_at / 0x1_0000 == t
            &&& regions::latest_row(once.0, packed::macro_zone_key(soul, 1, 0, 0)) is Some
            &&& regions::inventory_seeded(once.0, once.1, soul, again) == once
        }),
{
    let key = packed::macro_zone_key(soul, 1, 0, 0);
    assert(key == soul * 0x1_0000_0000 + 0x100_0000);
    packed::valid_at_round_trip(t, seq);
    let once = regions::inventory_seeded(rows, seq, soul, t);
    assert(once.0.last().macro_region == key);
}

/// An edit of a zone is found from its time on, and changes one thing: the location, the
/// definition, the owner, or the tiles of one row. Every other zone stays.
pub proof fn zone_edits_change_one_thing(
    s: ZoneState,
    zone_id: u32,
    t: u64,
    z: Zone,
    macro_zone: u64,
    packed_definition: u8,
    owner_id: u32,
    row: u8,
    tiles: Seq<Tile>,
    row2: int,
    col2: int,
)
    requires
        t < packed::TIME_RADIX,
        row < 8,
        tiles.len() == 8,
        0 <= row2 < 8,
        0 <= col2 < 8,
        history::distinct_versions(s.rows),
        history::latest(s.rows, zone_id) == Some(z),
    ensures
        ({
            let at = |f: spec_fn(Zone) -> Zone|
                history::prior_at(zones::latest_edited(s, zone_id, t, f).0.rows, zone_id, t);
            &&& at(zones::relocated(macro_zone)) matches Some(n) && n.macro_zone == macro_zone
                && n.owner_id == z.owner_id && n.packed_definition == z.packed_definition
                && zones::words(n) == zones::words(z)
            &&& at(zones::retyped(packed_definition)) matches Some(n) && n.packed_definition
                == packed_definition && n.macro_zone == z.macro_zone && n.owner_id == z.owner_id
                && zones::words(n) == zones::words(z)
            &&& at(zones::given_to(owner_id)) matches Some(n) && n.owner_id == owner_id
                && n.macro_zone == z.macro_zone && n.packed_definition == z.packed_definition
                && zones::words(n) == zones::words(z)
            &&& at(zones::with_row(row, tiles)) matches Some(n) && n.macro_zone == z.macro_zone
                && n.owner_id == z.owner_id && zones::tile_of(n, row2, col2) == if row2 == row {
                (
                    (tiles[col2].0 % 4096) as u16,
                    (tiles[col2].1 % 4) as u8,
                    (tiles[col2].2 % 4) as u8,
                )
            } else {
                zones::tile_of(z, row2, col2)
            }
        }),
{
    history::prior_at_is_greatest(s.rows, zone_id, u64::MAX);
    packed::valid_at_round_trip(t, s.seq);
    let a = zones::stamped(s, zones::relocated(macro_zone)(z), t);
    let b = zones::stamped(s, zones::retyped(packed_definition)(z), t);
    let c = zones::stamped(s, zones::given_to(owner_id)(z), t);
    let d = zones::stamped(s, zones::with_row(row, tiles)(z), t);
    history::read_over_write(s.rows, a, t);
    history::read_over_write(s.rows, b, t);
    history::read_over_write(s.rows, c, t);
    history::read_over_write(s.rows, d, t);
    assert(zones::words(a) =~= zones::words(z));
    assert(zones::words(b) =~= zones::words(z));
    assert(zones::words(c) =~= zones::words(z));
    let w = tile_words::with_row_prefix(zones::words(z), row as int, tiles, 8);
    tile_words::row_read_over_write(zones::words(z), row as int, tiles, 8, row2 * 8 + col2);
    assert(zones::words(d) =~= w);
}

// ---- demotion ------------------------------------------------------
/// A tile-card at rest leaves its tile behind when it folds into its zone: whoever reads
/// the cell from the folded zone sees the definition and the stocks that the card had.
pub proof fn folded_cards_leave_their_tile(
    e: Env,
    db: Db,
    c: Card,
    z: Zone,
    cells: Seq<Demotion>,
    after: Db,
    q: u8,
    r: u8,
    s0: u8,
    s1: u8,
)
    requires
        gc::at_rest(e, db, c),
        zones::latest_on(db.zones, c.macro_zone) == Some(z),
        z.packed_definition / 16 == 7,
        c.packed_definition / 4096 == 7,
        c.packed_definition % 4096 != 0,
        stocks::first_stock(e.bk, c.flags_bk) == s0,
        stocks::second_stock(e.bk, c.flags_bk) == s1,
        s0 <= 3,
        s1 <= 3,
        (q as int, r as int) == outcomes::cell_of(c.micro_location),
        ({
            let folded = demotion::with_cells(z, cells.push(gc::fold_of(e, db, c)));
            zones::latest_on(after.zones, c.macro_zone) matches Some(n) && zones::words(n)
                == zones::words(folded) && n.packed_definition == z.packed_definition
        }),
    ensures
        gc::fold_of(e, db, c).zone_id == z.zone_id,
        gc::fold_of(e, db, c).card_id == c.card_id,
        gc::fold_of(e, db, c).at == e.now_ms,
        cards::zone_tile(after, c.macro_zone, q, r) == Ok::<Tile, cards::TileError>(
            (c.packed_definition, s0, s1),
        ),
{
    let f = gc::fold_of(e, db, c);
    demotion::folded_tile_reads_back(z, cells.push(f));
    let n = zones::latest_on(after.zones, c.macro_zone)->0;
    let folded = demotion::with_cells(z, cells.push(f));
    assert(zones::tile_of(n, r as int, q as int) == zones::tile_of(folded, r as int, q as int));
    assert(f.tile == ((c.packed_definition % 4096) as u16, s0, s1));
}

/// A hold on a tile-card that is given back counts one less, and none below none.
pub proof fn tile_holds_are_given_back(e: Env, c: Card, kind: HoldKind, width: u32)
    requires
        env::well_shaped(e.bk.spec_count_field(kind), width),
    ensures
        ({
            let f = e.bk.spec_count_field(kind);
            let was = env::field_value(c.flags_bk, f);
            let n = cards::hold_stepped(e, c, kind, false);
            &&& env::field_value(n.flags_bk, f) == if was > 0 {
                was - 1
            } else {
                0
            }
            &&& n.flags_bk & !f.mask == c.flags_bk & !f.mask
            &&& n.card_id == c.card_id && n.macro_zone == c.macro_zone && n.packed_definition
                == c.packed_definition
        }),
{
    let f = e.bk.spec_count_field(kind);
    let v = env::field_value(c.flags_bk, f);
    env::field_read_over_write(c.flags_bk, f, width, 0);
    env::field_read_over_write(
        c.flags_bk,
        f,
        width,
        if v > 0 {
            (v - 1) as u32
        } else {
            0
        },
    );
}

// ---- the world -----------------------------------------------------
/// The region that the world starts with is the one at the origin of the world's
/// surface, owned by nobody.
pub proof fn the_world_starts_at_its_origin()
    ensures
        regions::world_region() == 64 * 0x100_0000,
        packed::owner(regions::world_region()) == 0,
        packed::zone_coords(regions::world_region()) == (0i32, 0i32),
{
    packed::macro_zone_round_trip(0, 64, 0, 0);
}

/// Biomes are numbered from one; without a match the last one counts. The base tile is
/// the definition number of the biome's tile.
pub proof fn biomes_are_numbered_from_one(bases: Seq<Option<u16>>, k: int, p: u16)
    requires
        0 <= k < bases.len() < u16::MAX,
        bases[k] == Some(p),
    ensures
        world_gen::biome_base(bases, (k + 1) as u16) == p % 4096,
        k == bases.len() - 1 ==> world_gen::biome_base(bases, 0) == p % 4096,
{
}

/// The neighbours that match a group are counted one by one.
pub proof fn matching_neighbours_are_counted(a: Seq<u8>, b: Seq<u8>, group: u8, g: u8)
    ensures
        world_gen::matches_in(a + b, group) == world_gen::matches_in(a, group)
            + world_gen::matches_in(b, group),
        world_gen::matches_in(seq![g], group) == if g == group {
            1nat
        } else {
            0nat
        },
    decreases b.len(),
{
    assert(seq![g].drop_last() =~= Seq::<u8>::empty());
    assert(world_gen::matches_in(Seq::empty(), group) == 0);
    if b.len() == 0 {
        assert(a + b =~= a);
    } else {
        assert((a + b).drop_last() =~= a + b.drop_last());
        matching_neighbours_are_counted(a, b.drop_last(), group, g);
    }
}

/// A tile that is chosen for a hex has the stocks of the first candidate of its
/// definition; where no candidate fits, it is the bare tile of the biome.
pub proof fn chosen_tiles_have_their_candidates_stocks(
    candidates: Seq<world_gen::TileCandidate>,
    fallback: u16,
    i: int,
)
    requires
        0 <= i < candidates.len(),
        forall|j: int|
            0 <= j < i ==> (#[trigger] candidates[j]).definition_id != candidates[i].definition_id,
    ensures
        world_gen::chosen(candidates, candidates[i].definition_id, fallback) == (
            candidates[i].definition_id,
            candidates[i].stock0,
            candidates[i].stock1,
        ),
        world_gen::chosen(Seq::empty(), candidates[i].definition_id, fallback) == (
            fallback,
            0u8,
            0u8,
        ),
{
    lemma_stocks_of(candidates, i);
}

proof fn lemma_stocks_of(candidates: Seq<world_gen::TileCandidate>, i: int)
    requires
        0 <= i < candidates.len(),
        forall|j: int|
            0 <= j < i ==> (#[trigger] candidates[j]).definition_id != candidates[i].definition_id,
    ensures
        world_gen::stocks_of(candidates, candidates[i].definition_id) == (
            candidates[i].stock0,
            candidates[i].stock1,
        ),
    decreases candidates.len(),
{
    if i > 0 {
        let rest = candidates.skip(1);
        assert(rest[i - 1] == candidates[i]);
        assert forall|j: int| 0 <= j < i - 1 implies (#[trigger] rest[j]).definition_id
            != candidates[i].definition_id by {
            assert(rest[j] == candidates[j + 1]);
        }
        assert(candidates[0].definition_id != candidates[i].definition_id);
        lemma_stocks_of(rest, i - 1);
    }
}

/// A tile starts with the defaults of its definition's first two stocks, and with none
/// where the definition keeps no such stock or is unknown.
pub proof fn tiles_start_with_their_defaults(c: Catalog, def: u16, d: CardDefinition)
    requires
        content::definition(c.definitions@, def) == Some(d),
    ensures
        d.stock@.len() >= 2 ==> zones::default_stocks(c, def) == (
            d.stock@[0].default,
            d.stock@[1].default,
        ),
        d.stock@.len() == 1 ==> zones::default_stocks(c, def) == (d.stock@[0].default, 0u8),
        d.stock@.len() == 0 ==> zones::default_stocks(c, def) == (0u8, 0u8),
{
}

/// A seeded zone lies where it was asked for, belongs to whom it was asked for, and shows
/// the empty tile on every cell, or with a disk asked for on the cells at most three
/// steps from the middle only.
pub proof fn seeded_zones_show_the_empty_tile(
    c: Catalog,
    before: ZoneState,
    after: ZoneState,
    r: Result<Zone, zones::NoEmptyTile>,
    macro_zone: u64,
    owner_id: u32,
    t: u64,
    disk: bool,
    empty: u16,
    row: int,
    col: int,
)
    requires
        t < packed::TIME_RADIX,
        zones::seeding(c, before, after, r, macro_zone, owner_id, t, disk),
        content::packed_by_key(c.definitions@, "empty"@) == Some(empty),
        history::distinct_versions(before.rows),
        0 <= row < 8,
        0 <= col < 8,
    ensures
        r matches Ok(z) && z.macro_zone == macro_zone && z.owner_id == owner_id
            && z.packed_definition / 16 == empty / 4096 && history::prior_at(
            after.rows,
            z.zone_id,
            t,
        ) == Some(z) && zones::tile_of(z, row, col) == if !disk || regions_reach(
            col - 3,
            row - 3,
            3,
        ) {
            (
                (empty % 4096) as u16,
                (zones::default_stocks(c, empty).0 % 4) as u8,
                (zones::default_stocks(c, empty).1 % 4) as u8,
            )
        } else {
            (0u16, 0u8, 0u8)
        },
{
    let z = r->Ok_0;
    packed::valid_at_round_trip(t, before.seq);
    history::read_over_write(before.rows, z, t);
    packed::definition_round_trip((empty / 4096) as u8, empty % 4096);
    assert(zones::tile_of(z, row, col) == if !disk || zones::in_footprint(row, col) {
        tile_words::masked(zones::seed_tile(c, empty))
    } else {
        (0u16, 0u8, 0u8)
    });
}

/// A sweep of the regions keeps of each region the row with the greatest key.
pub proof fn region_sweeps_keep_the_newest(rows: Seq<Region>, i: int, j: int)
    requires
        0 <= i < rows.len(),
        0 <= j < rows.len(),
        rows[i].macro_region == rows[j].macro_region,
    ensures
        regions::newest_in(rows)(rows[i]) ==> rows[j].valid_at <= rows[i].valid_at,
        (forall|k: int|
            0 <= k < rows.len() && (#[trigger] rows[k]).macro_region == rows[i].macro_region
                ==> rows[k].valid_at <= rows[i].valid_at) ==> regions::newest_in(rows)(rows[i]),
{
    lemma_max_key(rows, rows[i].macro_region);
    let m = regions::max_key(rows, rows[i].macro_region);
    assert(m is Some);
    let k = choose|k: int|
        0 <= k < rows.len() && (#[trigger] rows[k]).macro_region == rows[i].macro_region
            && rows[k].valid_at == m->0;
}

proof fn lemma_max_key(rows: Seq<Region>, macro_region: u64)
    ensures
        match regions::max_key(rows, macro_region) {
            None => forall|k: int|
                0 <= k < rows.len() ==> (#[trigger] rows[k]).macro_region != macro_region,
            Some(m) => (forall|k: int|
                0 <= k < rows.len() && (#[trigger] rows[k]).macro_region == macro_region
                    ==> rows[k].valid_at <= m) && exists|k: int|
                0 <= k < rows.len() && (#[trigger] rows[k]).macro_region == macro_region
                    && rows[k].valid_at == m,
        },
    decreases rows.len(),
{
    if rows.len() > 0 {
        let init = rows.drop_last();
        lemma_max_key(init, macro_region);
        assert(rows[rows.len() - 1] == rows.last());
        assert(forall|k: int| 0 <= k < init.len() ==> init[k] == rows[k]);
        if let Some(m) = regions::max_key(init, macro_region) {
            let k = choose|k: int|
                0 <= k < init.len() && (#[trigger] init[k]).macro_region == macro_region
                    && init[k].valid_at == m;
            assert(rows[k] == init[k]);
        }
        assert forall|k: int|
            0 <= k < rows.len() && (#[trigger] rows[k]).macro_region == macro_region
                && regions::max_key(rows, macro_region) is Some implies rows[k].valid_at
            <= regions::max_key(rows, macro_region)->0 by {
            if k < init.len() {
                assert(init[k] == rows[k]);
            }
        }
    }
}

/// A zone that its region does not permit is not spawned: nothing changes without a
/// governing region, nor where the zone's slot is not among those present.
pub proof fn zones_out_of_presence_are_not_spawned(
    s: RegionState,
    t: u64,
    macro_zone: u64,
    tiles: Seq<u64>,
)
    ensures
        regions::latest_row(s.regions, packed::governing_region(macro_zone).0) is None
            ==> regions::zone_requested(s, Ok::<u64, TimeDrift>(t), macro_zone, tiles) == (
            s,
            Ok::<(), TimeDrift>(()),
        ),
        regions::latest_row(s.regions, packed::governing_region(macro_zone).0) matches Some(g) ==> (
        g.zone_presence & (1u64 << packed::governing_region(macro_zone).1) == 0
            ==> regions::zone_requested(s, Ok::<u64, TimeDrift>(t), macro_zone, tiles) == (
            s,
            Ok::<(), TimeDrift>(()),
        )),
{
}

/// A zone that is spawned on request is marked in its region: the region's newest row has
/// the bit of the zone's slot among those available, and the others as they were.
pub proof fn spawned_zones_are_marked(
    s: RegionState,
    t: u64,
    macro_zone: u64,
    tiles: Seq<u64>,
    region: Region,
    other: u8,
)
    requires
        regions::latest_row(s.regions, packed::governing_region(macro_zone).0) == Some(region),
        region.zone_presence & (1u64 << packed::governing_region(macro_zone).1) != 0,
        region.zone_available & (1u64 << packed::governing_region(macro_zone).1) == 0,
        packed::governing_region(macro_zone).1 < 49,
        other < 49,
    ensures
        ({
            let out = regions::zone_requested(s, Ok::<u64, TimeDrift>(t), macro_zone, tiles).0;
            let bit = packed::governing_region(macro_zone).1;
            let n = out.regions.last();
            &&& n.macro_region == region.macro_region
            &&& n.zone_presence == region.zone_presence
            &&& n.distance == region.distance
            &&& n.zone_available & (1u64 << other as u64) != 0 <==> other == bit
                || region.zone_available & (1u64 << other as u64) != 0
        }),
{
    let bit = packed::governing_region(macro_zone).1;
    outcomes::lemma_bit_joined(region.zone_available, bit as u64, other as u64);
}

/// A new zone takes an id above that of every zone, until the ids run out.
pub proof fn new_zones_take_a_new_id(rows: Seq<Zone>, i: int)
    requires
        0 <= i < rows.len(),
        zones::max_zone_id(rows) < u32::MAX,
    ensures
        rows[i].zone_id < zones::fresh_zone_id(rows),
    decreases rows.len(),
{
    if i < rows.len() - 1 {
        let init = rows.drop_last();
        assert(init[i] == rows[i]);
        new_zones_take_a_new_id(init, i);
    }
}

/// The zone found at a location is one that lies there, and no row there is newer.
pub proof fn zones_are_found_by_their_newest_row(rows: Seq<Zone>, macro_zone: u64, i: int)
    requires
        0 <= i < rows.len(),
        rows[i].macro_zone == macro_zone,
    ensures
        zones::latest_on(rows, macro_zone) matches Some(z) && z.macro_zone == macro_zone
            && history::time(rows[i]) <= history::time(z) && rows.contains(z),
    decreases rows.len(),
{
    let init = rows.drop_last();
    crate::regions::outcomes::lemma_latest_member(rows, macro_zone);
    if i < init.len() {
        assert(init[i] == rows[i]);
        zones_are_found_by_their_newest_row(init, macro_zone, i);
    }
}

/// The presence of a region's disk has the slot of every zone with a tile within the
/// distance of the origin, and of no other.
pub proof fn presences_cover_the_disk(
    bits: u64,
    macro_region: u64,
    distance: u16,
    slot: u8,
    lc: u8,
    lr: u8,
)
    requires
        regions::is_presence(bits, macro_region, distance),
        slot < 64,
        lc < 7,
        lr < 7,
    ensures
        slot >= 49 ==> bits & (1u64 << slot) == 0,
        slot < 49 && tile_of_slot_in_reach(
            macro_region,
            slot,
            lc,
            lr,
            distance,
        ) ==> bits & (1u64 << slot) != 0,
        bits & (1u64 << slot) != 0 ==> exists|a: u8, b: u8|
            a < 7 && b < 7 && #[trigger] tile_of_slot_in_reach(macro_region, slot, a, b, distance),
{
    let c = packed::zone_coords(macro_region);
    let z = packed::zone_at_slot(c.0, c.1, slot);
    let d = distance as int;
    assert(regions::has_slot(bits, slot) == regions::slot_in_reach(macro_region, slot, d));
    assert forall|a: u8, b: u8| a < 7 && b < 7 implies (#[trigger] regions::cell_in_reach(
        z.0 as i32,
        z.1 as i32,
        a,
        b,
        d,
    )) == tile_of_slot_in_reach(macro_region, slot, a, b, distance) by {}
    if regions::has_slot(bits, slot) {
        let (a, b) = choose|a: u8, b: u8|
            a < 7 && b < 7 && #[trigger] regions::cell_in_reach(z.0 as i32, z.1 as i32, a, b, d);
        assert(tile_of_slot_in_reach(macro_region, slot, a, b, distance));
    }
    if slot < 49 && tile_of_slot_in_reach(macro_region, slot, lc, lr, distance) {
        assert(regions::cell_in_reach(z.0 as i32, z.1 as i32, lc, lr, d));
    }
}

/// The tile in column `lc` and row `lr` of the zone at a slot lies within the distance of
/// the origin; slots count the zones of the region row by row, seven to a row.
pub open spec fn tile_of_slot_in_reach(
    macro_region: u64,
    slot: u8,
    lc: u8,
    lr: u8,
    distance: u16,
) -> bool {
    let c = packed::zone_coords(macro_region);
    regions_reach(
        7 * (7 * c.0 + slot % 7) + lc,
        7 * (7 * c.1 + slot / 7) + lr,
        distance as int,
    )
}

/// The neighbours of a hex are six different hexes, each one step away.
pub proof fn neighbours_are_one_step_away(i: int, j: int)
    requires
        0 <= i < 6,
        0 <= j < 6,
    ensures
        ({
            let n = world_gen::neighbour_offset(i);
            &&& n != (0int, 0int)
            &&& regions_reach(n.0, n.1, 1)
            &&& i != j ==> n != world_gen::neighbour_offset(j)
        }),
{
}

} // verus!
