//! Regions: coarse spawn gating over the zone grid.
//!
//! A region governs a block of zones and carries two bits per zone: whether it
//! may be spawned, and whether it has been.
use vstd::prelude::*;

use crate::packed;
use crate::regions::zones;
use crate::regions::zones::Zone;
use crate::regions::zones::ZoneState;
use crate::tables;
use crate::tile_words;
use crate::time;
use crate::time::TimeDrift;

verus! {

/// The card type of tiles.
pub const TILE_ZONE_TYPE: u8 = 7;

/// How far ahead of the server a region request's time may be.
pub const FORWARD_GRACE_MS: u64 = 0;

/// A version of a region.
#[derive(Clone, Copy, Debug, PartialEq, Eq, Structural)]
pub struct Region {
    pub valid_at: u64,
    /// Identity: the layout of a zone key, in region units.
    pub macro_region: u64,
    /// Bit `i`: the zone at slot `i` may be spawned.
    pub zone_presence: u64,
    /// Bit `i`: the zone at slot `i` has been spawned.
    pub zone_available: u64,
    /// Disk radius in tiles around the owner's origin tile.
    pub distance: u16,
}

// ---- geometry ------------------------------------------------------
fn magnitude(x: i32) -> (a: i32)
    requires
        x > i32::MIN,
    ensures
        a == zones::abs(x as int),
{
    if x < 0 {
        -x
    } else {
        x
    }
}

/// Hex distance between two axial tile coordinates.
pub fn hex_dist(aq: i32, ar: i32, bq: i32, br: i32) -> (d: i32)
    requires
        -0x800_0000 <= aq <= 0x800_0000,
        -0x800_0000 <= ar <= 0x800_0000,
        -0x800_0000 <= bq <= 0x800_0000,
        -0x800_0000 <= br <= 0x800_0000,
    ensures
        d == zones::hex_len(aq - bq, ar - br),
{
    let dq: i32 = aq - bq;
    let dr: i32 = ar - br;
    (magnitude(dq) + magnitude(dr) + magnitude(dq + dr)) / 2
}

/// Hex distance is a metric.
pub proof fn hex_distance_is_a_metric(aq: int, ar: int, bq: int, br: int, cq: int, cr: int)
    ensures
        zones::hex_len(aq - bq, ar - br) == zones::hex_len(bq - aq, br - ar),
        zones::hex_len(aq - bq, ar - br) == 0 <==> aq == bq && ar == br,
        zones::hex_len(aq - cq, ar - cr) <= zones::hex_len(aq - bq, ar - br) + zones::hex_len(
            bq - cq,
            br - cr,
        ),
{
}

/// The cell `(lc, lr)` of zone `(zq, zr)` lies within `d` tiles of the origin.
pub open spec fn cell_in_reach(zq: i32, zr: i32, lc: u8, lr: u8, d: int) -> bool {
    zones::hex_len(packed::tile_coord(zq, lc), packed::tile_coord(zr, lr)) <= d
}

/// Some cell of a zone lies within `d` tiles of the origin.
pub open spec fn zone_in_reach(zq: i32, zr: i32, d: int) -> bool {
    exists|lc: u8, lr: u8| lc < 7 && lr < 7 && #[trigger] cell_in_reach(zq, zr, lc, lr, d)
}

/// The zone at a slot of a region lies within `d` tiles of the origin.
pub open spec fn slot_in_reach(macro_region: u64, slot: u8, d: int) -> bool {
    let c = packed::zone_coords(macro_region);
    let z = packed::zone_at_slot(c.0, c.1, slot);
    slot < 49 && zone_in_reach(z.0 as i32, z.1 as i32, d)
}

/// Bit `i` of a word.
pub open spec fn has_slot(bits: u64, slot: u8) -> bool {
    bits & (1u64 << slot) != 0
}

fn reaches_zone(zq: i32, zr: i32, d: i32) -> (r: bool)
    requires
        -0x10_0000 <= zq <= 0x10_0000,
        -0x10_0000 <= zr <= 0x10_0000,
    ensures
        r == zone_in_reach(zq, zr, d as int),
{
    let mut lr: u8 = 0;
    while lr < 7
        invariant
            lr <= 7,
            -0x10_0000 <= zq <= 0x10_0000,
            -0x10_0000 <= zr <= 0x10_0000,
            forall|a: u8, b: u8|
                a < 7 && b < lr ==> !#[trigger] cell_in_reach(zq, zr, a, b, d as int),
        decreases 7 - lr,
    {
        let mut lc: u8 = 0;
        while lc < 7
            invariant
                lr < 7,
                lc <= 7,
                -0x10_0000 <= zq <= 0x10_0000,
                -0x10_0000 <= zr <= 0x10_0000,
                forall|a: u8, b: u8|
                    a < 7 && (b < lr || (b == lr && a < lc)) ==> !#[trigger] cell_in_reach(
                        zq,
                        zr,
                        a,
                        b,
                        d as int,
                    ),
            decreases 7 - lc,
        {
            if hex_dist(packed::world_tile(zq, lc), packed::world_tile(zr, lr), 0, 0) <= d {
                assert(cell_in_reach(zq, zr, lc, lr, d as int));
                return true;
            }
            lc = lc + 1;
        }
        lr = lr + 1;
    }
    false
}

proof fn lemma_set_slot(bits: u64, slot: u8, other: u8)
    by (bit_vector)
    requires
        slot < 64,
        other < 64,
    ensures
        (bits | (1u64 << slot)) & (1u64 << other) != 0 <==> other == slot || bits & (1u64 << other)
            != 0,
        0u64 & (1u64 << other) == 0,
{
}

/// The slots of a region that a disk of `distance` tiles around the origin
/// touches.
pub fn presence_for_disk(macro_region: u64, distance: u16) -> (bits: u64)
    ensures
        forall|s: u8|
            s < 64 ==> #[trigger] has_slot(bits, s) == slot_in_reach(
                macro_region,
                s,
                distance as int,
            ),
{
    let c: (i32, i32) = packed::unpack_macro_zone(macro_region);
    let d: i32 = distance as i32;
    let mut bits: u64 = 0;
    let mut slot: u8 = 0;
    proof {
        assert forall|s: u8| s < 64 implies !#[trigger] has_slot(0, s) by {
            lemma_set_slot(0, 0, s);
        }
    }
    while slot < 49
        invariant
            slot <= 49,
            c == packed::zone_coords(macro_region),
            -2048 <= c.0 < 2048,
            -2048 <= c.1 < 2048,
            d == distance,
            forall|s: u8|
                s < 64 ==> #[trigger] has_slot(bits, s) == (s < slot && slot_in_reach(
                    macro_region,
                    s,
                    d as int,
                )),
        decreases 49 - slot,
    {
        let z: (i32, i32) = packed::zone_of_region_slot(c.0, c.1, slot);
        let ghost before = bits;
        if reaches_zone(z.0, z.1, d) {
            bits = bits | (1u64 << slot);
            assert forall|s: u8| s < 64 implies #[trigger] has_slot(bits, s) == (s < slot + 1
                && slot_in_reach(macro_region, s, d as int)) by {
                lemma_set_slot(before, slot, s);
                assert(has_slot(before, s) == (s < slot && slot_in_reach(
                    macro_region,
                    s,
                    d as int,
                )));
            }
        }
        slot = slot + 1;
    }
    bits
}

/// A wider disk touches every slot that a narrower one touches.
pub proof fn presence_is_monotone(macro_region: u64, slot: u8, d: u16, wider: u16)
    requires
        d <= wider,
        slot_in_reach(macro_region, slot, d as int),
    ensures
        slot_in_reach(macro_region, slot, wider as int),
{
    let c = packed::zone_coords(macro_region);
    let z = packed::zone_at_slot(c.0, c.1, slot);
    let (lc, lr) = choose|lc: u8, lr: u8|
        lc < 7 && lr < 7 && #[trigger] cell_in_reach(z.0 as i32, z.1 as i32, lc, lr, d as int);
    assert(cell_in_reach(z.0 as i32, z.1 as i32, lc, lr, wider as int));
}

// ---- rows ----------------------------------------------------------
pub open spec fn row_time(r: Region) -> u64 {
    packed::time_of(r.valid_at)
}

/// The latest row of a region.
pub open spec fn latest_row(rows: Seq<Region>, macro_region: u64) -> Option<Region>
    decreases rows.len(),
{
    if rows.len() == 0 {
        None
    } else {
        let before = latest_row(rows.drop_last(), macro_region);
        let row = rows.last();
        if row.macro_region == macro_region && (before matches Some(b) ==> row_time(b) <= row_time(
            row,
        )) {
            Some(row)
        } else {
            before
        }
    }
}

/// Find the latest row of a region.
pub fn latest_for(rows: &Vec<Region>, macro_region: u64) -> (found: Option<Region>)
    ensures
        found == latest_row(rows@, macro_region),
{
    let mut found: Option<Region> = None;
    let mut i: usize = 0;
    while i < rows.len()
        invariant
            i <= rows.len(),
            found == latest_row(rows@.take(i as int), macro_region),
        decreases rows.len() - i,
    {
        let row = rows[i];
        proof {
            let next = rows@.take(i + 1);
            assert(next.drop_last() =~= rows@.take(i as int));
            assert(next.last() == row);
        }
        if row.macro_region == macro_region {
            match found {
                Some(b) => {
                    if packed::valid_at_time(b.valid_at) <= packed::valid_at_time(row.valid_at) {
                        found = Some(row);
                    }
                },
                None => {
                    found = Some(row);
                },
            }
        }
        i = i + 1;
    }
    assert(rows@.take(rows.len() as int) =~= rows@);
    found
}

pub open spec fn kept_beside(row: Region, t: u64) -> spec_fn(Region) -> bool {
    |r: Region|
        !(r.macro_region == row.macro_region && row_time(r) == t) && r.valid_at != row.valid_at
}

/// `rows` after storing `row` as the version of its region at `t`.
pub open spec fn region_stored(rows: Seq<Region>, row: Region, t: u64) -> Seq<Region> {
    rows.filter(kept_beside(row, t)).push(row)
}

/// The tables that region requests read and write.
#[verifier::ext_equal]
pub struct RegionState {
    pub regions: Seq<Region>,
    pub zones: Seq<Zone>,
    pub seq: u16,
}

/// The state after writing a version of a region at `t`.
pub open spec fn region_written(s: RegionState, region: Region, t: u64) -> RegionState {
    RegionState {
        regions: region_stored(
            s.regions,
            Region { valid_at: packed::valid_at_key(t, s.seq), ..region },
            t,
        ),
        seq: tables::sequence_after(s.seq),
        ..s
    }
}

fn write_at(rows: &mut Vec<Region>, seq: &mut u16, region: Region, time_ms: u64)
    ensures
        final(rows)@ == region_stored(
            old(rows)@,
            Region { valid_at: packed::valid_at_key(time_ms, *old(seq)), ..region },
            time_ms,
        ),
        *final(seq) == tables::sequence_after(*old(seq)),
{
    let ghost all = rows@;
    let taken: u16 = tables::advance(seq);
    let mut row = region;
    row.valid_at = packed::pack_valid_at(time_ms, taken);
    let ghost keep = kept_beside(row, time_ms);
    let mut kept: Vec<Region> = Vec::new();
    let mut i: usize = 0;
    proof {
        reveal(Seq::filter);
        assert(all.take(0).filter(keep) =~= Seq::empty());
    }
    while i < rows.len()
        invariant
            i <= rows.len(),
            rows@ == all,
            keep == kept_beside(row, time_ms),
            kept@ == all.take(i as int).filter(keep),
        decreases rows.len() - i,
    {
        let r = rows[i];
        proof {
            crate::history::filter_take_step(all, i as int, keep);
        }
        if !(r.macro_region == row.macro_region && packed::valid_at_time(r.valid_at) == time_ms)
            && r.valid_at != row.valid_at {
            kept.push(r);
        }
        i = i + 1;
    }
    assert(all.take(all.len() as int) =~= all);
    kept.push(row);
    *rows = kept;
}

/// The key of the world's origin region.
pub open spec fn world_region() -> u64 {
    packed::macro_zone_key(0, packed::WORLD_LAYER, 0, 0)
}

/// A region before its first write.
pub open spec fn fresh_region(macro_region: u64, zone_presence: u64, distance: u16) -> Region {
    Region { valid_at: 0, macro_region, zone_presence, zone_available: 0, distance }
}

/// Seed the world's origin region with every zone spawnable; idempotent.
pub fn seed_world_region(rows: &mut Vec<Region>, seq: &mut u16, now_ms: u64)
    ensures
        match latest_row(old(rows)@, world_region()) {
            Some(_) => final(rows)@ == old(rows)@ && *final(seq) == *old(seq),
            None => {
                &&& final(rows)@ == region_stored(
                    old(rows)@,
                    Region {
                        valid_at: packed::valid_at_key(now_ms, *old(seq)),
                        ..fresh_region(world_region(), u64::MAX, u16::MAX)
                    },
                    now_ms,
                )
                &&& *final(seq) == tables::sequence_after(*old(seq))
            },
        },
{
    let macro_region: u64 = packed::pack_macro_region(0, packed::WORLD_LAYER, 0, 0);
    if latest_for(rows, macro_region).is_some() {
        return ;
    }
    let region = Region {
        valid_at: 0,
        macro_region,
        zone_presence: u64::MAX,
        zone_available: 0,
        distance: u16::MAX,
    };
    write_at(rows, seq, region, now_ms);
}

/// The region of a soul's inventory: only its zone (0, 0) may be spawned, and no
/// distance bounds the tiles of that zone.
pub open spec fn inventory_region(soul: u32) -> Region {
    fresh_region(packed::macro_zone_key(soul, packed::INVENTORY_LAYER, 0, 0), 1, u16::MAX)
}

/// The rows and the write sequence after seeding the inventory region of a soul,
/// which nothing changes where it exists.
pub open spec fn inventory_seeded(rows: Seq<Region>, seq: u16, soul: u32, t: u64) -> (
    Seq<Region>,
    u16,
) {
    let region = inventory_region(soul);
    if latest_row(rows, region.macro_region) is Some {
        (rows, seq)
    } else {
        (
            region_stored(rows, Region { valid_at: packed::valid_at_key(t, seq), ..region }, t),
            tables::sequence_after(seq),
        )
    }
}

/// Seed the inventory of a soul as a region of its own; idempotent. Its zone is
/// spawned on demand, as those of the world are.
pub fn seed_soul_inventory_region(rows: &mut Vec<Region>, seq: &mut u16, soul: u32, time_ms: u64)
    ensures
        (final(rows)@, *final(seq)) == inventory_seeded(old(rows)@, *old(seq), soul, time_ms),
{
    let macro_region: u64 = packed::pack_macro_region(soul, packed::INVENTORY_LAYER, 0, 0);
    if latest_for(rows, macro_region).is_some() {
        return ;
    }
    let region = Region {
        valid_at: 0,
        macro_region,
        zone_presence: 1,
        zone_available: 0,
        distance: u16::MAX,
    };
    write_at(rows, seq, region, time_ms);
}

/// The inventory region of a soul governs the inventory's zone (0, 0), and no other
/// slot of it may be spawned.
pub proof fn inventory_region_has_one_zone(soul: u32)
    ensures
        packed::governing_region(packed::macro_zone_key(soul, packed::INVENTORY_LAYER, 0, 0)) == (
            inventory_region(soul).macro_region,
            0u8,
        ),
        forall|s: u8| s < 64 ==> #[trigger] has_slot(inventory_region(soul).zone_presence, s) == (s
            == 0),
{
    packed::macro_zone_round_trip(soul, packed::INVENTORY_LAYER, 0, 0);
    assert forall|s: u8| s < 64 implies #[trigger] has_slot(1, s) == (s == 0) by {
        assert((1u64 & (1u64 << s) != 0) == (s == 0)) by (bit_vector)
            requires
                s < 64,
        ;
    }
}

/// `bits` is the presence word of a region with a disk of `distance` tiles.
pub open spec fn is_presence(bits: u64, macro_region: u64, distance: u16) -> bool {
    forall|s: u8|
        s < 64 ==> #[trigger] has_slot(bits, s) == slot_in_reach(
            macro_region,
            s,
            distance as int,
        )
}

/// Ensure that a region governs `macro_zone`. Nothing happens where one exists;
/// otherwise a region is written at the resolved time of the request, whose
/// presence is the disk of `distance` tiles.
pub fn ensure_region(
    rows: &mut Vec<Region>,
    seq: &mut u16,
    now_ms: u64,
    client_time_ms: u64,
    macro_zone: u64,
    distance: u16,
) -> (r: Result<(), TimeDrift>)
    ensures
        match latest_row(old(rows)@, packed::governing_region(macro_zone).0) {
            Some(_) => r is Ok && final(rows)@ == old(rows)@ && *final(seq) == *old(seq),
            None => match time::resolved(now_ms, client_time_ms, FORWARD_GRACE_MS) {
                Err(e) => r == Err::<(), TimeDrift>(e) && final(rows)@ == old(rows)@ && *final(seq)
                    == *old(seq),
                Ok(t) => {
                    let m = packed::governing_region(macro_zone).0;
                    &&& r is Ok
                    &&& *final(seq) == tables::sequence_after(*old(seq))
                    &&& exists|bits: u64|
                        {
                            &&& #[trigger] is_presence(bits, m, distance)
                            &&& final(rows)@ == region_stored(
                                old(rows)@,
                                Region {
                                    valid_at: packed::valid_at_key(t, *old(seq)),
                                    ..fresh_region(m, bits, distance)
                                },
                                t,
                            )
                        }
                },
            },
        },
{
    let g: (u64, u8) = packed::region_of_zone(macro_zone);
    if latest_for(rows, g.0).is_some() {
        return Ok(());
    }
    let bits: u64 = presence_for_disk(g.0, distance);
    match time::resolve(now_ms, client_time_ms, FORWARD_GRACE_MS) {
        Err(e) => Err(e),
        Ok(t) => {
            let region = Region {
                valid_at: 0,
                macro_region: g.0,
                zone_presence: bits,
                zone_available: 0,
                distance,
            };
            write_at(rows, seq, region, t);
            assert(is_presence(bits, g.0, distance));
            Ok(())
        },
    }
}

// ---- spawning ------------------------------------------------------
/// The tile words of a spawn request: the first sixteen given, padded with empty
/// words.
pub open spec fn supplied(tiles: Seq<u64>) -> Seq<u64> {
    Seq::new(
        16,
        |i: int|
            if i < tiles.len() {
                tiles[i]
            } else {
                0u64
            },
    )
}

/// `w` with the first `n` logical cells of the zone emptied where they lie
/// farther than `d` tiles from the origin.
pub open spec fn clipped(w: Seq<u64>, zq: i32, zr: i32, d: int, n: int) -> Seq<u64>
    decreases n,
{
    if n <= 0 {
        w
    } else {
        let before = clipped(w, zq, zr, d, n - 1);
        let lr = ((n - 1) / 7) as u8;
        let lc = ((n - 1) % 7) as u8;
        if cell_in_reach(zq, zr, lc, lr, d) {
            before
        } else {
            tile_words::with_tile(before, lr * 8 + lc, (0u16, 0u8, 0u8))
        }
    }
}

/// Clipping empties exactly the logical cells out of reach.
pub proof fn clip_keeps_the_disk(w: Seq<u64>, zq: i32, zr: i32, d: int, lr: u8, lc: u8)
    requires
        w.len() == 16,
        lr < 8,
        lc < 8,
    ensures
        tile_words::tile(clipped(w, zq, zr, d, 49), lr * 8 + lc) == if lr < 7 && lc < 7
            && !cell_in_reach(zq, zr, lc, lr, d) {
            (0u16, 0u8, 0u8)
        } else {
            tile_words::tile(w, lr * 8 + lc)
        },
{
    lemma_clip(w, zq, zr, d, 49, lr, lc);
}

/// The tiles after clipping the first `n` cells.
pub proof fn lemma_clip(w: Seq<u64>, zq: i32, zr: i32, d: int, n: int, lr: u8, lc: u8)
    requires
        w.len() == 16,
        0 <= n <= 49,
        lr < 8,
        lc < 8,
    ensures
        clipped(w, zq, zr, d, n).len() == 16,
        tile_words::tile(clipped(w, zq, zr, d, n), lr * 8 + lc) == if lr < 7 && lc < 7 && lr * 7
            + lc < n && !cell_in_reach(zq, zr, lc, lr, d) {
            (0u16, 0u8, 0u8)
        } else {
            tile_words::tile(w, lr * 8 + lc)
        },
    decreases n,
{
    if n > 0 {
        lemma_clip(w, zq, zr, d, n - 1, lr, lc);
        let before = clipped(w, zq, zr, d, n - 1);
        let r = ((n - 1) / 7) as u8;
        let c = ((n - 1) % 7) as u8;
        if !cell_in_reach(zq, zr, c, r, d) {
            tile_words::tile_read_over_write(before, r * 8 + c, (0u16, 0u8, 0u8), lr * 8 + lc);
        }
        assert(lr < 7 && lc < 7 && lr * 7 + lc == n - 1 ==> r == lr && c == lc);
        assert(r * 8 + c == lr * 8 + lc ==> r == lr && c == lc);
    }
}

fn zone_words(tiles: &Vec<u64>, zq: i32, zr: i32, d: i32) -> (w: [u64; 16])
    requires
        -0x10_0000 <= zq <= 0x10_0000,
        -0x10_0000 <= zr <= 0x10_0000,
    ensures
        w@ == clipped(supplied(tiles@), zq, zr, d as int, 49),
{
    let mut w: [u64; 16] = [0, 0, 0, 0, 0, 0, 0, 0, 0, 0, 0, 0, 0, 0, 0, 0];
    let mut i: usize = 0;
    while i < 16 && i < tiles.len()
        invariant
            i <= 16,
            i <= tiles.len(),
            forall|j: int|
                0 <= j < 16 ==> #[trigger] w@[j] == if j < i {
                    tiles@[j]
                } else {
                    0u64
                },
        decreases 16 - i,
    {
        w[i] = tiles[i];
        i = i + 1;
    }
    assert(w@ =~= supplied(tiles@));
    let mut n: u8 = 0;
    while n < 49
        invariant
            n <= 49,
            -0x10_0000 <= zq <= 0x10_0000,
            -0x10_0000 <= zr <= 0x10_0000,
            w@ == clipped(supplied(tiles@), zq, zr, d as int, n as int),
        decreases 49 - n,
    {
        let lr: u8 = n / 7;
        let lc: u8 = n % 7;
        if hex_dist(packed::world_tile(zq, lc), packed::world_tile(zr, lr), 0, 0) > d {
            tile_words::set_tile_full(&mut w, tile_words::tile_slot(lc, lr), 0, 0, 0);
        }
        n = n + 1;
    }
    w
}

/// The state after marking slot `bit` of a region as spawned; unchanged where the
/// region is gone or the bit is set.
pub open spec fn slot_marked(s: RegionState, macro_region: u64, bit: u8, t: u64) -> RegionState {
    match latest_row(s.regions, macro_region) {
        None => s,
        Some(region) => if region.zone_available & (1u64 << bit) != 0 {
            s
        } else {
            region_written(
                s,
                Region { zone_available: region.zone_available | (1u64 << bit), ..region },
                t,
            )
        },
    }
}

fn set_available_bit(
    rows: &mut Vec<Region>,
    seq: &mut u16,
    macro_region: u64,
    bit: u8,
    time_ms: u64,
    Ghost(zs): Ghost<Seq<Zone>>,
)
    requires
        bit < 64,
    ensures
        (RegionState { regions: final(rows)@, zones: zs, seq: *final(seq) }) == slot_marked(
            RegionState { regions: old(rows)@, zones: zs, seq: *old(seq) },
            macro_region,
            bit,
            time_ms,
        ),
{
    match latest_for(rows, macro_region) {
        None => {},
        Some(found) => {
            let mask: u64 = 1u64 << bit;
            if found.zone_available & mask != 0 {
                return ;
            }
            let mut region = found;
            region.zone_available = region.zone_available | mask;
            write_at(rows, seq, region, time_ms);
        },
    }
}

/// The owner of a spawned zone: the world on the world surface, else the
/// container.
pub open spec fn zone_owner(macro_zone: u64) -> u32 {
    if packed::surface(macro_zone) == packed::WORLD_LAYER {
        0
    } else {
        packed::owner(macro_zone)
    }
}

/// The state after spawning a zone from `tiles`, clipped to `distance`.
pub open spec fn spawned(s: RegionState, macro_zone: u64, tiles: Seq<u64>, distance: u16, t: u64) -> RegionState {
    let c = packed::zone_coords(macro_zone);
    let z = zones::zone_written(
        ZoneState { rows: s.zones, seq: s.seq },
        zones::fresh_zone(
            zones::fresh_zone_id(s.zones),
            macro_zone,
            packed::zone_definition_word(TILE_ZONE_TYPE),
            zone_owner(macro_zone),
            clipped(supplied(tiles), c.0, c.1, distance as int, 49),
        ),
        t,
    );
    RegionState { zones: z.rows, seq: z.seq, ..s }
}

/// Outcome of a spawn request: nothing without a governing region, for a zone
/// already spawned, or where presence does not permit it; else an error of the
/// time discipline; else the zone is spawned unless it exists, and its slot is
/// marked.
pub open spec fn zone_requested(
    s: RegionState,
    now: Result<u64, TimeDrift>,
    macro_zone: u64,
    tiles: Seq<u64>,
) -> (RegionState, Result<(), TimeDrift>) {
    let g = packed::governing_region(macro_zone);
    match latest_row(s.regions, g.0) {
        None => (s, Ok(())),
        Some(region) => {
            let exists_already = zones::latest_on(s.zones, macro_zone) is Some;
            if has_slot(region.zone_available, g.1) && exists_already {
                (s, Ok(()))
            } else if !has_slot(region.zone_presence, g.1) {
                (s, Ok(()))
            } else {
                match now {
                    Err(e) => (s, Err(e)),
                    Ok(t) => {
                        let after = if exists_already {
                            s
                        } else {
                            spawned(s, macro_zone, tiles, region.distance, t)
                        };
                        (slot_marked(after, g.0, g.1, t), Ok(()))
                    },
                }
            }
        },
    }
}

/// Request that the zone at `macro_zone` be spawned. `tiles` are the generated
/// tile words; the resolved time of the request stamps every new row.
pub fn request_zone(
    rows: &mut Vec<Region>,
    zone_rows: &mut Vec<Zone>,
    seq: &mut u16,
    now_ms: u64,
    client_time_ms: u64,
    macro_zone: u64,
    tiles: &Vec<u64>,
) -> (r: Result<(), TimeDrift>)
    ensures
        (
            RegionState { regions: final(rows)@, zones: final(zone_rows)@, seq: *final(seq) },
            r,
        ) == zone_requested(
            RegionState { regions: old(rows)@, zones: old(zone_rows)@, seq: *old(seq) },
            time::resolved(now_ms, client_time_ms, FORWARD_GRACE_MS),
            macro_zone,
            tiles@,
        ),
{
    let g: (u64, u8) = packed::region_of_zone(macro_zone);
    let mask: u64 = 1u64 << g.1;
    let region = match latest_for(rows, g.0) {
        None => {
            return Ok(());
        },
        Some(r) => r,
    };
    let row_exists: bool = zones::latest_for(zone_rows, macro_zone).is_some();
    if region.zone_available & mask != 0 && row_exists {
        return Ok(());
    }
    if region.zone_presence & mask == 0 {
        return Ok(());
    }
    let t: u64 = match time::resolve(now_ms, client_time_ms, FORWARD_GRACE_MS) {
        Err(e) => {
            return Err(e);
        },
        Ok(t) => t,
    };
    if !row_exists {
        let c: (i32, i32) = packed::unpack_macro_zone(macro_zone);
        let w: [u64; 16] = zone_words(tiles, c.0, c.1, region.distance as i32);
        let owner: u32 = if packed::surface_of(macro_zone) == packed::WORLD_LAYER {
            0
        } else {
            packed::owner_of(macro_zone)
        };
        let zone_id: u32 = zones::next_zone_id(zone_rows);
        let _ = zones::create_at(
            zone_rows,
            seq,
            zone_id,
            macro_zone,
            packed::pack_zone_definition(TILE_ZONE_TYPE),
            owner,
            &w,
            t,
        );
    }
    set_available_bit(rows, seq, g.0, g.1, t, Ghost(zone_rows@));
    Ok(())
}

proof fn lemma_latest_row_member(rows: Seq<Region>, macro_region: u64)
    ensures
        latest_row(rows, macro_region) matches Some(r) ==> rows.contains(r),
        latest_row(rows, macro_region) matches Some(r) ==> r.macro_region == macro_region
            && forall|i: int|
            0 <= i < rows.len() && (#[trigger] rows[i]).macro_region == macro_region ==> row_time(
                rows[i],
            ) <= row_time(r),
    decreases rows.len(),
{
    if rows.len() > 0 {
        let init = rows.drop_last();
        lemma_latest_row_member(init, macro_region);
        assert forall|i: int| 0 <= i < init.len() implies #[trigger] init[i] == rows[i] by {}
        if let Some(r) = latest_row(init, macro_region) {
            let k = choose|k: int| 0 <= k < init.len() && init[k] == r;
            assert(rows[k] == r);
        } else {
            lemma_no_latest_row(init, macro_region);
        }
        assert(rows[rows.len() - 1] == rows.last());
        assert forall|i: int| 0 <= i < rows.len() - 1 implies #[trigger] rows[i] == init[i] by {}
    }
}

proof fn lemma_no_latest_row(rows: Seq<Region>, macro_region: u64)
    requires
        latest_row(rows, macro_region) is None,
    ensures
        forall|i: int| 0 <= i < rows.len() ==> (#[trigger] rows[i]).macro_region != macro_region,
    decreases rows.len(),
{
    if rows.len() > 0 {
        lemma_no_latest_row(rows.drop_last(), macro_region);
        assert forall|i: int| 0 <= i < rows.len() implies (#[trigger] rows[i]).macro_region
            != macro_region by {
            if i < rows.len() - 1 {
                assert(rows[i] == rows.drop_last()[i]);
            }
        }
    }
}

/// A served spawn request leaves the zone present and its slot marked, so that
/// repeating it changes nothing, provided the region's rows are not later than
/// the request.
pub proof fn request_is_idempotent(
    s: RegionState,
    t: u64,
    later: Result<u64, TimeDrift>,
    macro_zone: u64,
    tiles: Seq<u64>,
    other_tiles: Seq<u64>,
)
    requires
        t < packed::TIME_RADIX,
        latest_row(s.regions, packed::governing_region(macro_zone).0) matches Some(r) ==> row_time(
            r,
        ) <= t,
    ensures
        ({
            let after = zone_requested(s, Ok(t), macro_zone, tiles).0;
            zone_requested(after, later, macro_zone, other_tiles) == (
                after,
                Ok::<(), TimeDrift>(()),
            )
        }),
{
    let g = packed::governing_region(macro_zone);
    packed::region_slot_round_trip(macro_zone);
    if let Some(region) = latest_row(s.regions, g.0) {
        let there = zones::latest_on(s.zones, macro_zone) is Some;
        if !(has_slot(region.zone_available, g.1) && there) && has_slot(
            region.zone_presence,
            g.1,
        ) {
            let mid = if there {
                s
            } else {
                spawned(s, macro_zone, tiles, region.distance, t)
            };
            assert(mid.regions == s.regions);
            assert(zones::latest_on(mid.zones, macro_zone) is Some) by {
                if !there {
                    let row = mid.zones.last();
                    assert(row.macro_zone == macro_zone);
                }
            }
            if !has_slot(region.zone_available, g.1) {
                let row = Region {
                    valid_at: packed::valid_at_key(t, mid.seq),
                    zone_available: region.zone_available | (1u64 << g.1),
                    ..region
                };
                lemma_latest_row_member(s.regions, g.0);
                packed::valid_at_round_trip(t, mid.seq);
                let kept = s.regions.filter(kept_beside(row, t));
                crate::history::filter_members(s.regions, kept_beside(row, t));
                lemma_latest_row_member(kept, g.0);
                if let Some(b) = latest_row(kept, g.0) {
                    let i = choose|i: int| 0 <= i < kept.len() && kept[i] == b;
                    assert(s.regions.contains(kept[i]));
                    let j = choose|j: int| 0 <= j < s.regions.len() && s.regions[j] == b;
                    assert(row_time(s.regions[j]) <= row_time(region));
                }
                let out = region_stored(s.regions, row, t);
                assert(out.drop_last() =~= kept);
                assert(out.last() == row);
                assert(latest_row(out, g.0) == Some(row));
                lemma_set_slot(region.zone_available, g.1, g.1);
            }
        }
    }
}

// ---- sweeping ------------------------------------------------------
/// The greatest key among the rows of a region.
pub open spec fn max_key(rows: Seq<Region>, macro_region: u64) -> Option<u64>
    decreases rows.len(),
{
    if rows.len() == 0 {
        None
    } else {
        let before = max_key(rows.drop_last(), macro_region);
        let row = rows.last();
        if row.macro_region == macro_region && (before matches Some(k) ==> row.valid_at > k) {
            Some(row.valid_at)
        } else {
            before
        }
    }
}

pub open spec fn newest_in(rows: Seq<Region>) -> spec_fn(Region) -> bool {
    |r: Region| max_key(rows, r.macro_region) == Some(r.valid_at)
}

fn newest_key(rows: &Vec<Region>, macro_region: u64) -> (k: Option<u64>)
    ensures
        k == max_key(rows@, macro_region),
{
    let mut k: Option<u64> = None;
    let mut i: usize = 0;
    while i < rows.len()
        invariant
            i <= rows.len(),
            k == max_key(rows@.take(i as int), macro_region),
        decreases rows.len() - i,
    {
        let row = rows[i];
        proof {
            let next = rows@.take(i + 1);
            assert(next.drop_last() =~= rows@.take(i as int));
            assert(next.last() == row);
        }
        if row.macro_region == macro_region {
            match k {
                Some(x) => {
                    if row.valid_at > x {
                        k = Some(row.valid_at);
                    }
                },
                None => {
                    k = Some(row.valid_at);
                },
            }
        }
        i = i + 1;
    }
    assert(rows@.take(rows.len() as int) =~= rows@);
    k
}

/// Reap every prior version: only the newest row of each region stays.
pub fn sweep_regions(rows: &mut Vec<Region>)
    ensures
        final(rows)@ == old(rows)@.filter(newest_in(old(rows)@)),
{
    let ghost all = rows@;
    let ghost keep = newest_in(all);
    let mut kept: Vec<Region> = Vec::new();
    let mut i: usize = 0;
    proof {
        reveal(Seq::filter);
        assert(all.take(0).filter(keep) =~= Seq::empty());
    }
    while i < rows.len()
        invariant
            i <= rows.len(),
            rows@ == all,
            keep == newest_in(all),
            kept@ == all.take(i as int).filter(keep),
        decreases rows.len() - i,
    {
        let r = rows[i];
        proof {
            crate::history::filter_take_step(all, i as int, keep);
        }
        if let Some(k) = newest_key(rows, r.macro_region) {
            if k == r.valid_at {
                kept.push(r);
            }
        }
        i = i + 1;
    }
    assert(all.take(all.len() as int) =~= all);
    *rows = kept;
}

} // verus!
