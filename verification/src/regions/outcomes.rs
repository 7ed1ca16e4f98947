//! What generation and tile writes come to: the terrain that a reader finds.
use vstd::prelude::*;

use crate::history;
use crate::packed;
use crate::regions::world_gen;
use crate::regions::zones;
use crate::regions::zones::Zone;
use crate::regions::zones::ZoneState;
use crate::tile_words;
use crate::tile_words::Tile;

verus! {

// ---- reads by location ---------------------------------------------
/// Rows of other places can go, or come, without a reader of a place noticing.
proof fn lemma_other_places(rows: Seq<Zone>, keep: spec_fn(Zone) -> bool, m: u64)
    requires
        forall|i: int| 0 <= i < rows.len() && (#[trigger] rows[i]).macro_zone == m ==> keep(rows[i]),
    ensures
        zones::latest_on(rows.filter(keep), m) == zones::latest_on(rows, m),
    decreases rows.len(),
{
    reveal(Seq::filter);
    if rows.len() > 0 {
        let init = rows.drop_last();
        assert forall|i: int| 0 <= i < init.len() && (#[trigger] init[i]).macro_zone == m implies keep(
            init[i],
        ) by {
            assert(init[i] == rows[i]);
        }
        lemma_other_places(init, keep, m);
        assert(rows[rows.len() - 1] == rows.last());
        if keep(rows.last()) {
            assert(init.filter(keep).push(rows.last()).drop_last() =~= init.filter(keep));
        }
    }
}

/// The row found at a location lies there; where none is found, none lies there.
pub proof fn lemma_latest_member(rows: Seq<Zone>, m: u64)
    ensures
        match zones::latest_on(rows, m) {
            Some(z) => rows.contains(z) && z.macro_zone == m,
            None => forall|i: int| 0 <= i < rows.len() ==> (#[trigger] rows[i]).macro_zone != m,
        },
    decreases rows.len(),
{
    if rows.len() > 0 {
        let init = rows.drop_last();
        lemma_latest_member(init, m);
        assert(rows[rows.len() - 1] == rows.last());
        if let Some(z) = zones::latest_on(init, m) {
            let k = choose|k: int| 0 <= k < init.len() && init[k] == z;
            assert(rows[k] == z);
        }
        assert forall|i: int| 0 <= i < rows.len() && zones::latest_on(rows, m) is None implies (
        #[trigger] rows[i]).macro_zone != m by {
            if i < init.len() {
                assert(init[i] == rows[i]);
            }
        }
    }
}

/// A row that is no older than the others at its place is the one found there, and
/// readers of other places find what they found before.
proof fn lemma_stored_on(rows: Seq<Zone>, row: Zone, t: u64, m: u64)
    requires
        history::time(row) == t,
        forall|i: int| 0 <= i < rows.len() ==> history::time(#[trigger] rows[i]) <= t,
        forall|i: int|
            0 <= i < rows.len() && (#[trigger] rows[i]).zone_id == row.zone_id ==> rows[i].macro_zone
                == row.macro_zone,
        history::key_free(rows, row.valid_at),
    ensures
        zones::latest_on(history::stored(rows, row, t), m) == if m == row.macro_zone {
            Some(row)
        } else {
            zones::latest_on(rows, m)
        },
{
    let a = history::without_version(rows, row.zone_id, t);
    let b = history::without_key(a, row.valid_at);
    let out = b.push(row);
    assert(out.drop_last() =~= b);
    history::filter_members(rows, history::not_version::<Zone>(row.zone_id, t));
    history::filter_members(a, history::not_key::<Zone>(row.valid_at));
    if m == row.macro_zone {
        lemma_latest_member(b, m);
        if let Some(z) = zones::latest_on(b, m) {
            let k = choose|k: int| 0 <= k < b.len() && b[k] == z;
            assert(a.contains(b[k]));
            let j = choose|j: int| 0 <= j < a.len() && a[j] == b[k];
            assert(rows.contains(a[j]));
            let i = choose|i: int| 0 <= i < rows.len() && rows[i] == a[j];
            assert(history::time(rows[i]) <= t);
        }
    } else {
        lemma_other_places(rows, history::not_version::<Zone>(row.zone_id, t), m);
        assert forall|i: int| 0 <= i < a.len() && (#[trigger] a[i]).macro_zone == m implies (
        history::not_key::<Zone>(row.valid_at))(a[i]) by {
            assert(rows.contains(a[i]));
        }
        lemma_other_places(a, history::not_key::<Zone>(row.valid_at), m);
    }
}

// ---- generated terrain ---------------------------------------------
/// The location key of the world zone `(q, r)`: the world owner, the world surface and
/// the two coordinates in twelve bits each.
pub open spec fn world_key(q: int, r: int) -> int {
    64 * 0x100_0000 + (q % 4096) * 4096 + r % 4096
}

/// Every zone keeps to one place, and was last written before `now`.
pub open spec fn settled_before(rows: Seq<Zone>, now: u64) -> bool {
    &&& forall|i: int| 0 <= i < rows.len() ==> history::time(#[trigger] rows[i]) < now
    &&& forall|i: int, j: int|
        #![trigger rows[i], rows[j]]
        0 <= i < rows.len() && 0 <= j < rows.len() && rows[i].zone_id == rows[j].zone_id
            ==> rows[i].macro_zone == rows[j].macro_zone
}

/// What holds after `n` zones were written at `now`.
spec fn in_progress(s0: ZoneState, s: (ZoneState, u32), n: int, now: u64) -> bool {
    let rows = s.0.rows;
    &&& forall|i: int| 0 <= i < rows.len() ==> history::time(#[trigger] rows[i]) <= now
    &&& forall|i: int, j: int|
        #![trigger rows[i], rows[j]]
        0 <= i < rows.len() && 0 <= j < rows.len() && rows[i].zone_id == rows[j].zone_id
            ==> rows[i].macro_zone == rows[j].macro_zone
    &&& forall|i: int| 0 <= i < rows.len() ==> (#[trigger] rows[i]).zone_id < s.1
    &&& s.1 <= zones::fresh_zone_id(s0.rows) + n
    &&& s.0.seq == (s0.seq + n) % 0x1_0000
    &&& forall|i: int|
        0 <= i < rows.len() && history::time(#[trigger] rows[i]) == now ==> exists|k: int|
            0 <= k < n && rows[i].valid_at % 0x1_0000 == #[trigger] ((s0.seq + k) % 0x1_0000)
}

proof fn lemma_max_zone_id(rows: Seq<Zone>, i: int)
    requires
        0 <= i < rows.len(),
    ensures
        rows[i].zone_id <= zones::max_zone_id(rows),
    decreases rows.len(),
{
    if i < rows.len() - 1 {
        assert(rows.drop_last()[i] == rows[i]);
        lemma_max_zone_id(rows.drop_last(), i);
    }
}

proof fn lemma_terrain_step(
    s0: ZoneState,
    cells: Seq<(i16, i16)>,
    words: Seq<[u64; 16]>,
    now: u64,
    m: u64,
)
    requires
        cells.len() > 0,
        now < packed::TIME_RADIX,
        cells.len() <= 0x1_0000,
        zones::max_zone_id(s0.rows) + cells.len() < u32::MAX,
        in_progress(
            s0,
            world_gen::terrain(s0, cells.drop_last(), words, now),
            cells.len() - 1,
            now,
        ),
    ensures
        ({
            let before = world_gen::terrain(s0, cells.drop_last(), words, now);
            let after = world_gen::terrain(s0, cells, words, now);
            let here = world_gen::world_zone(cells.last().0, cells.last().1);
            &&& in_progress(s0, after, cells.len() as int, now)
            &&& m != here ==> zones::latest_on(after.0.rows, m) == zones::latest_on(
                before.0.rows,
                m,
            )
            &&& m == here ==> (zones::latest_on(after.0.rows, m) matches Some(z) && z.macro_zone
                == here && zones::words(z) == words[cells.len() - 1]@)
        }),
{
    let before = world_gen::terrain(s0, cells.drop_last(), words, now);
    let after = world_gen::terrain(s0, cells, words, now);
    let here = world_gen::world_zone(cells.last().0, cells.last().1);
    let w = words[cells.len() - 1]@;
    let s = before.0;
    let rows = s.rows;
    let n = cells.len() - 1;
    packed::valid_at_round_trip(now, s.seq);
    lemma_latest_member(rows, here);
    let zone = match zones::latest_on(rows, here) {
        Some(z) => zones::with_words(history::latest(rows, z.zone_id)->0, w),
        None => zones::fresh_zone(
            before.1,
            here,
            packed::zone_definition_word(world_gen::TILE_ZONE_TYPE),
            0,
            w,
        ),
    };
    if let Some(z) = zones::latest_on(rows, here) {
        let k = choose|k: int| 0 <= k < rows.len() && rows[k] == z;
        history::prior_at_is_greatest(rows, z.zone_id, u64::MAX);
        assert(history::covers(rows[k], z.zone_id, u64::MAX));
        let l = history::latest(rows, z.zone_id)->0;
        let j = choose|j: int| 0 <= j < rows.len() && rows[j] == l;
        assert(rows[j].zone_id == rows[k].zone_id);
        assert(l.macro_zone == here);
    }
    assert(zone.macro_zone == here);
    assert(zones::words(zone) =~= w);
    let row = zones::stamped(s, zone, now);
    assert(zones::words(row) =~= w);
    assert(after.0 == zones::zone_written(s, zone, now));
    assert(row.valid_at % 0x1_0000 == s.seq);
    assert forall|i: int| 0 <= i < rows.len() implies (#[trigger] rows[i]).valid_at
        != row.valid_at by {
        if rows[i].valid_at == row.valid_at {
            assert(history::time(rows[i]) == now);
            let k = choose|k: int|
                0 <= k < n && rows[i].valid_at % 0x1_0000 == #[trigger] ((s0.seq + k) % 0x1_0000);
            assert((s0.seq + k) % 0x1_0000 == (s0.seq + n) % 0x1_0000);
            assert(false);
        }
    }
    assert forall|i: int| 0 <= i < rows.len() && (#[trigger] rows[i]).zone_id == row.zone_id implies rows[i].macro_zone
        == row.macro_zone by {
        if let Some(z) = zones::latest_on(rows, here) {
            let k = choose|k: int| 0 <= k < rows.len() && rows[k] == z;
            assert(rows[i].zone_id == rows[k].zone_id) by {
                history::prior_at_is_greatest(rows, z.zone_id, u64::MAX);
            }
        }
    }
    lemma_stored_on(rows, row, now, m);
    history::stored_members(rows, row, now);
    let out = after.0.rows;
    assert forall|i: int| 0 <= i < out.len() implies (#[trigger] out[i]) == row || rows.contains(
        out[i],
    ) by {
        assert(out.contains(out[i]));
    }
    assert forall|i: int, j: int|
        #![trigger out[i], out[j]]
        0 <= i < out.len() && 0 <= j < out.len() && out[i].zone_id == out[j].zone_id implies out[i].macro_zone
        == out[j].macro_zone by {
        if out[i] != row {
            let a = choose|a: int| 0 <= a < rows.len() && rows[a] == out[i];
            if out[j] != row {
                let b = choose|b: int| 0 <= b < rows.len() && rows[b] == out[j];
                assert(rows[a].zone_id == rows[b].zone_id);
            } else {
                assert(rows[a].zone_id == row.zone_id);
            }
        } else if out[j] != row {
            let b = choose|b: int| 0 <= b < rows.len() && rows[b] == out[j];
            assert(rows[b].zone_id == row.zone_id);
        }
    }
    assert(after.1 <= before.1 + 1);
    assert(zones::fresh_zone_id(s0.rows) <= zones::max_zone_id(s0.rows) + 1);
    assert(before.1 < u32::MAX);
    assert forall|i: int| 0 <= i < out.len() implies (#[trigger] out[i]).zone_id < after.1 by {
        if out[i] != row {
            let a = choose|a: int| 0 <= a < rows.len() && rows[a] == out[i];
            assert(rows[a].zone_id < before.1);
        } else if let Some(z) = zones::latest_on(rows, here) {
            history::prior_at_is_greatest(rows, z.zone_id, u64::MAX);
            let k = choose|k: int| 0 <= k < rows.len() && rows[k] == z;
            assert(rows[k].zone_id < before.1);
        }
    }
    assert forall|i: int|
        0 <= i < out.len() && history::time(#[trigger] out[i]) == now implies exists|k: int|
        0 <= k < n + 1 && out[i].valid_at % 0x1_0000 == #[trigger] ((s0.seq + k) % 0x1_0000) by {
        if out[i] == row {
            assert(out[i].valid_at % 0x1_0000 == (s0.seq + n) % 0x1_0000);
        } else {
            let a = choose|a: int| 0 <= a < rows.len() && rows[a] == out[i];
            assert(history::time(rows[a]) == now);
            let k = choose|k: int|
                0 <= k < n && rows[a].valid_at % 0x1_0000 == #[trigger] ((s0.seq + k) % 0x1_0000);
            assert(out[i].valid_at % 0x1_0000 == (s0.seq + k) % 0x1_0000);
        }
    }
    assert forall|i: int| 0 <= i < out.len() implies history::time(#[trigger] out[i]) <= now by {
        if out[i] != row {
            let a = choose|a: int| 0 <= a < rows.len() && rows[a] == out[i];
            assert(history::time(rows[a]) <= now);
        }
    }
    assert(after.0.seq == (s0.seq + (n + 1)) % 0x1_0000);
}

proof fn lemma_terrain(
    s0: ZoneState,
    cells: Seq<(i16, i16)>,
    words: Seq<[u64; 16]>,
    now: u64,
    m: u64,
)
    requires
        now < packed::TIME_RADIX,
        settled_before(s0.rows, now),
        cells.len() <= 0x1_0000,
        zones::max_zone_id(s0.rows) + cells.len() < u32::MAX,
    ensures
        in_progress(s0, world_gen::terrain(s0, cells, words, now), cells.len() as int, now),
        ({
            let after = world_gen::terrain(s0, cells, words, now).0.rows;
            ||| zones::latest_on(after, m) == zones::latest_on(s0.rows, m) && forall|i: int|
                0 <= i < cells.len() ==> world_gen::world_zone(
                    (#[trigger] cells[i]).0,
                    cells[i].1,
                ) != m
            ||| exists|i: int|
                0 <= i < cells.len() && world_gen::world_zone(
                    (#[trigger] cells[i]).0,
                    cells[i].1,
                ) == m && (zones::latest_on(after, m) matches Some(z) && z.macro_zone == m
                    && zones::words(z) == words[i]@)
        }),
    decreases cells.len(),
{
    if cells.len() == 0 {
        assert forall|i: int| 0 <= i < s0.rows.len() implies (#[trigger] s0.rows[i]).zone_id
            < zones::fresh_zone_id(s0.rows) by {
            lemma_max_zone_id(s0.rows, i);
        }
    } else {
        let init = cells.drop_last();
        lemma_terrain(s0, init, words, now, m);
        lemma_terrain_step(s0, cells, words, now, m);
        let here = world_gen::world_zone(cells.last().0, cells.last().1);
        assert(cells[cells.len() - 1] == cells.last());
        let after = world_gen::terrain(s0, cells, words, now).0.rows;
        if m != here {
            let before = world_gen::terrain(s0, init, words, now).0.rows;
            if exists|i: int|
                0 <= i < init.len() && world_gen::world_zone((#[trigger] init[i]).0, init[i].1) == m
                    && (zones::latest_on(before, m) matches Some(z) && z.macro_zone == m
                    && zones::words(z) == words[i]@) {
                let i = choose|i: int|
                    0 <= i < init.len() && world_gen::world_zone((#[trigger] init[i]).0, init[i].1)
                        == m && (zones::latest_on(before, m) matches Some(z) && z.macro_zone == m
                        && zones::words(z) == words[i]@);
                assert(cells[i] == init[i]);
            } else {
                assert forall|i: int| 0 <= i < cells.len() implies world_gen::world_zone(
                    (#[trigger] cells[i]).0,
                    cells[i].1,
                ) != m by {
                    if i < init.len() {
                        assert(init[i] == cells[i]);
                    }
                }
            }
        }
    }
}

/// The key under which a zone of the disk is stored is that of its coordinates.
proof fn lemma_world_key(q: i16, r: i16)
    requires
        -2048 <= q < 2048,
        -2048 <= r < 2048,
    ensures
        world_gen::world_zone(q, r) == world_key(q as int, r as int),
{
    let k = (q as int % 4096) * 4096 + (r as int % 4096);
    assert(packed::macro_zone_key(0, 0, q as i32, r as i32) == k);
    assert(k / 0x1_0000_0000 == 0);
    assert(k % 0x100_0000 == k);
}

proof fn lemma_keys_differ(q: int, r: int, p: int, s: int)
    requires
        -2048 <= q < 2048,
        -2048 <= r < 2048,
        -2048 <= p < 2048,
        -2048 <= s < 2048,
        world_key(q, r) == world_key(p, s),
    ensures
        q == p,
        r == s,
{
    assert(q % 4096 == p % 4096 && r % 4096 == s % 4096);
}

/// Generated terrain lies where it was picked: after the generation, the zone found at
/// the world coordinates `(q, r)` of the disk holds, in row `row` and column `col`, a
/// pick for the hex `(8q + col, 8r + row)`. Every other zone is as it was.
pub proof fn terrain_lies_where_it_was_picked<F: Fn(i32, i32, u64) -> Tile>(
    pick: F,
    s: ZoneState,
    radius: int,
    seed: u64,
    words: Seq<[u64; 16]>,
    now: u64,
    q: int,
    r: int,
    row: int,
    col: int,
)
    requires
        0 <= radius < 2048,
        world_gen::disk(radius).len() <= 0x1_0000,
        world_gen::picked(pick, world_gen::disk(radius), seed, words),
        now < packed::TIME_RADIX,
        settled_before(s.rows, now),
        zones::max_zone_id(s.rows) + world_gen::disk(radius).len() < u32::MAX,
        -2048 <= q < 2048,
        -2048 <= r < 2048,
        0 <= row < 8,
        0 <= col < 8,
    ensures
        ({
            let after = world_gen::terrain(s, world_gen::disk(radius), words, now).0.rows;
            let key = world_key(q, r) as u64;
            if -radius <= q <= radius && -radius <= r <= radius && -radius <= q + r <= radius {
                zones::latest_on(after, key) matches Some(z) && z.macro_zone == key
                    && world_gen::is_pick(
                    pick,
                    q * 8 + col,
                    r * 8 + row,
                    seed,
                    zones::tile_of(z, row, col),
                )
            } else {
                zones::latest_on(after, key) == zones::latest_on(s.rows, key)
            }
        }),
{
    let cells = world_gen::disk(radius);
    let key = world_key(q, r) as u64;
    lemma_terrain(s, cells, words, now, key);
    let after = world_gen::terrain(s, cells, words, now).0.rows;
    let inside = -radius <= q <= radius && -radius <= r <= radius && -radius <= q + r <= radius;
    world_gen::disk_is_complete(radius, q as i16, r as i16);
    assert(zones::hex_len(q, r) <= radius <==> inside);
    lemma_world_key(q as i16, r as i16);
    assert forall|i: int| 0 <= i < cells.len() implies ((world_gen::world_zone(
        (#[trigger] cells[i]).0,
        cells[i].1,
    ) == key) <==> cells[i] == (q as i16, r as i16)) by {
        let c = cells[i];
        world_gen::disk_is_complete(radius, c.0, c.1);
        assert(cells.contains((c.0, c.1))) by {
            assert(cells[i] == (c.0, c.1));
        }
        assert(-radius <= c.0 <= radius && -radius <= c.1 <= radius);
        lemma_world_key(c.0, c.1);
        if world_gen::world_zone(c.0, c.1) == key {
            lemma_keys_differ(q, r, c.0 as int, c.1 as int);
        }
    }
    if inside {
        let j = choose|j: int| 0 <= j < cells.len() && cells[j] == (q as i16, r as i16);
        assert(world_gen::world_zone(cells[j].0, cells[j].1) == key);
        let i = choose|i: int|
            0 <= i < cells.len() && world_gen::world_zone((#[trigger] cells[i]).0, cells[i].1)
                == key && (zones::latest_on(after, key) matches Some(z) && z.macro_zone == key
                && zones::words(z) == words[i]@);
        let z = zones::latest_on(after, key)->0;
        assert(world_gen::packs_picks(pick, cells[i].0, cells[i].1, seed, words[i]@));
        let slot = row * 8 + col;
        assert(slot % 8 == col && slot / 8 == row);
        assert(zones::tile_of(z, row, col) == tile_words::tile(words[i]@, slot));
    } else {
        if exists|i: int|
            0 <= i < cells.len() && world_gen::world_zone((#[trigger] cells[i]).0, cells[i].1)
                == key {
            let i = choose|i: int|
                0 <= i < cells.len() && world_gen::world_zone((#[trigger] cells[i]).0, cells[i].1)
                    == key;
            assert(cells.contains((q as i16, r as i16)));
        }
    }
}

} // verus!
