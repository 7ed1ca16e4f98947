//! How packed words are laid out: which bits hold what.
use vstd::prelude::*;

use crate::history::Version;
use crate::packed;
use crate::pending_actions;
use crate::pending_actions::PendingAction;
use crate::schedule_delete;
use crate::tile_words;
use crate::tile_words::Tile;

verus! {

/// A 12-bit field as a signed number.
pub open spec fn signed(v: int) -> int {
    if v < 0x800 {
        v
    } else {
        v - 0x1000
    }
}

// ---- locations and cells -------------------------------------------
/// A location key holds, from the top: the owner in 32 bits, the surface in 8, and the
/// coordinates `q` and `r` in 12 each.
pub proof fn locations_are_laid_out(m: u64)
    ensures
        packed::owner(m) == m / 0x1_0000_0000,
        packed::surface(m) == m / 0x100_0000 % 0x100,
        packed::zone_coords(m).0 == signed(m as int / 0x1000 % 0x1000),
        packed::zone_coords(m).1 == signed(m as int % 0x1000),
{
}

/// A loose cell word holds, from the top: the cell `q` and `r` in 3 bits each, the offsets
/// `x` and `y` in 12 each, and two empty bits.
pub proof fn cells_are_laid_out(m: u32, q: u8, r: u8, x: i16, y: i16)
    requires
        q < 8,
        r < 8,
        -2048 <= x < 2048,
        -2048 <= y < 2048,
    ensures
        ({
            let f = packed::micro_loose_fields(m);
            &&& f.0 == m / 0x2000_0000
            &&& f.1 == m / 0x400_0000 % 8
            &&& f.2 == signed(m as int / 0x4000 % 0x1000)
            &&& f.3 == signed(m as int / 4 % 0x1000)
        }),
        ({
            let w = packed::micro_loose_word(q, r, x, y);
            &&& w / 0x2000_0000 == q
            &&& w / 0x400_0000 % 8 == r
            &&& signed(w as int / 0x4000 % 0x1000) == x
            &&& signed(w as int / 4 % 0x1000) == y
            &&& w % 4 == 0
        }),
{
    packed::micro_loose_round_trip(q, r, x, y);
}

/// A card id holds, from the top: the database in one bit, the shard in 11, and the local
/// number in 20.
pub proof fn card_ids_are_laid_out(db: u8, shard: u16, local: u32)
    requires
        db < 2,
        shard < 0x800,
        local < 0x10_0000,
    ensures
        packed::card_id_word(db, shard, local) == db * 0x8000_0000 + shard * 0x10_0000 + local,
        packed::card_local(packed::card_id_word(db, shard, local)) == local,
        packed::card_shard(packed::card_id_word(db, shard, local)) == shard,
{
    packed::card_id_round_trip(db, shard, local);
}

/// A definition holds the card type in its top 4 bits and its number below; a key of a
/// version holds the time above 16 bits of sequence.
pub proof fn definitions_and_keys_are_laid_out(p: u16, t: u64, seq: u16)
    requires
        t < packed::TIME_RADIX,
    ensures
        packed::card_type(p) == p / 4096,
        packed::def_id(p) == p % 4096,
        packed::definition_word((p / 4096) as u8, (p % 4096) as u16) == p,
        packed::valid_at_key(t, seq) == t * 0x1_0000 + seq,
        packed::time_of(packed::valid_at_key(t, seq)) == t,
{
}

/// The region of a zone is seven zones wide and high: the zone's coordinates are seven
/// times the region's and a rest below seven, and its slot counts the rests row by row.
pub proof fn regions_are_seven_by_seven(m: u64)
    ensures
        ({
            let g = packed::governing_region(m);
            let z = packed::zone_coords(m);
            let r = packed::zone_coords(g.0);
            let dq = z.0 - 7 * r.0;
            let dr = z.1 - 7 * r.1;
            &&& 0 <= dq < 7
            &&& 0 <= dr < 7
            &&& g.1 == 7 * dr + dq
            &&& packed::owner(g.0) == packed::owner(m)
            &&& packed::surface(g.0) == packed::surface(m)
        }),
{
    let z = packed::zone_coords(m);
    packed::macro_zone_round_trip(
        packed::owner(m),
        packed::surface(m),
        (z.0 / 7) as i32,
        (z.1 / 7) as i32,
    );
}

/// The slots of a region count its zones row by row.
pub proof fn slots_count_row_by_row(q: i32, r: i32, slot: u8)
    requires
        slot < 49,
    ensures
        ({
            let z = packed::zone_at_slot(q, r, slot);
            &&& 0 <= z.0 - 7 * q < 7
            &&& 0 <= z.1 - 7 * r < 7
            &&& slot == 7 * (z.1 - 7 * r) + (z.0 - 7 * q)
        }),
{
}

// ---- tiles ---------------------------------------------------------
/// The tiles of a zone stand four to a word, the first in the lowest 16 bits; a tile has
/// its definition in 12 bits and its two stocks in 2 each, the second lowest.
pub proof fn tiles_are_laid_out(words: Seq<u64>, k: int)
    requires
        0 <= k < 16,
        k < words.len(),
    ensures
        tile_words::tile(words, 4 * k).0 == words[k] % 0x1_0000 / 16,
        tile_words::tile(words, 4 * k).1 == words[k] / 4 % 4,
        tile_words::tile(words, 4 * k).2 == words[k] % 4,
        tile_words::tile(words, 4 * k + 1).0 == words[k] / 0x1_0000 % 0x1_0000 / 16,
        tile_words::tile(words, 4 * k + 2).0 == words[k] / 0x1_0000_0000 % 0x1_0000 / 16,
        tile_words::tile(words, 4 * k + 3).0 == words[k] / 0x1_0000_0000_0000 / 16,
{
    assert((4 * k) / 4 == k && (4 * k) % 4 == 0);
    assert((4 * k + 1) / 4 == k && (4 * k + 1) % 4 == 1);
    assert((4 * k + 2) / 4 == k && (4 * k + 2) % 4 == 2);
    assert((4 * k + 3) / 4 == k && (4 * k + 3) % 4 == 3);
    let w = words[k];
    assert((w % 0x1_0000) / 4 % 4 == w / 4 % 4);
    assert((w % 0x1_0000) % 4 == w % 4);
}

/// A stock of a tile that is replaced reads back, and the other stock and the definition
/// stay.
pub proof fn tile_stocks_are_kept_apart(t: Tile, value: u8)
    ensures
        tile_words::with_stock(t, 0, value) == (t.0, value, t.2),
        tile_words::with_stock(t, 1, value) == (t.0, t.1, value),
        tile_words::stock_of(tile_words::with_stock(t, 0, value), 0) == value,
        tile_words::stock_of(tile_words::with_stock(t, 0, value), 1) == tile_words::stock_of(t, 1),
        tile_words::stock_of(tile_words::with_stock(t, 1, value), 1) == value,
        tile_words::stock_of(tile_words::with_stock(t, 1, value), 0) == tile_words::stock_of(t, 0),
        tile_words::stock_of(t, 0) == t.1,
        tile_words::stock_of(t, 1) == t.2,
{
}

// ---- sweeps --------------------------------------------------------
/// A sweep that a write schedules, when it fires, takes every version of the card from
/// before that write, and none from then on.
pub proof fn sweeps_take_what_came_before_the_write<R: Version>(row: R, id: u32, written: u64)
    requires
        written / 0x1_0000 + schedule_delete::DELETE_DELAY_MS <= u64::MAX,
    ensures
        ({
            let fires = schedule_delete::fire_time(written);
            let cut = schedule_delete::cutoff(fires);
            &&& fires == written / 0x1_0000 + schedule_delete::DELETE_DELAY_MS
            &&& schedule_delete::kept_by::<R>(id, cut)(row) <==> row.spec_entity() != id
                || row.spec_key() / 0x1_0000 >= written / 0x1_0000
        }),
{
}

/// An action in flight goes stale once its completion is longer ago than the grace, and
/// not before.
pub proof fn actions_go_stale_after_the_grace(r: PendingAction, now_ms: u64)
    ensures
        pending_actions::not_stale(now_ms)(r) <==> now_ms - r.completion_ms
            <= pending_actions::STALE_GRACE_MS,
{
}

} // verus!
