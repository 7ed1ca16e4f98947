//! Zones: versioned patches of packed tiles.
use vstd::prelude::*;

use crate::content;
use crate::content::Catalog;
use crate::history;
use crate::history::Version;
use crate::packed;
use crate::tables;
use crate::tile_words;
use crate::tile_words::Tile;

verus! {

/// A version of a zone.
#[derive(Clone, Copy, Debug, PartialEq, Eq, Structural)]
pub struct Zone {
    pub valid_at: u64,
    pub zone_id: u32,
    /// Location key `[owner:u32 | surface:u8 | q:i12 | r:i12]`.
    pub macro_zone: u64,
    pub packed_definition: u8,
    /// Container of every tile of this zone; `0` is the world.
    pub owner_id: u32,
    pub t0: u64,
    pub t1: u64,
    pub t2: u64,
    pub t3: u64,
    pub t4: u64,
    pub t5: u64,
    pub t6: u64,
    pub t7: u64,
    pub t8: u64,
    pub t9: u64,
    pub t10: u64,
    pub t11: u64,
    pub t12: u64,
    pub t13: u64,
    pub t14: u64,
    pub t15: u64,
}

impl Version for Zone {
    open spec fn spec_entity(self) -> u32 {
        self.zone_id
    }

    open spec fn spec_key(self) -> u64 {
        self.valid_at
    }

    fn entity(&self) -> (id: u32) {
        self.zone_id
    }

    fn key(&self) -> (k: u64) {
        self.valid_at
    }
}

/// The sixteen tile words of a zone.
pub open spec fn words(z: Zone) -> Seq<u64> {
    seq![
        z.t0,
        z.t1,
        z.t2,
        z.t3,
        z.t4,
        z.t5,
        z.t6,
        z.t7,
        z.t8,
        z.t9,
        z.t10,
        z.t11,
        z.t12,
        z.t13,
        z.t14,
        z.t15,
    ]
}

/// A zone with its tile words replaced.
pub open spec fn with_words(z: Zone, w: Seq<u64>) -> Zone {
    Zone {
        t0: w[0],
        t1: w[1],
        t2: w[2],
        t3: w[3],
        t4: w[4],
        t5: w[5],
        t6: w[6],
        t7: w[7],
        t8: w[8],
        t9: w[9],
        t10: w[10],
        t11: w[11],
        t12: w[12],
        t13: w[13],
        t14: w[14],
        t15: w[15],
        ..z
    }
}

/// The tile of a zone at `(row, col)`.
pub open spec fn tile_of(z: Zone, row: int, col: int) -> Tile {
    tile_words::tile(words(z), row * 8 + col)
}

/// A zone with the tile at `(row, col)` replaced.
pub open spec fn with_tile(z: Zone, row: int, col: int, t: Tile) -> Zone {
    with_words(z, tile_words::with_tile(words(z), row * 8 + col, t))
}

/// A written tile reads back, cut to its widths; every other tile, and
/// everything else about the zone, stays.
pub proof fn tile_read_over_write(z: Zone, row: int, col: int, t: Tile, row2: int, col2: int)
    requires
        0 <= row < 8,
        0 <= col < 8,
        0 <= row2 < 8,
        0 <= col2 < 8,
    ensures
        tile_of(with_tile(z, row, col, t), row2, col2) == if row2 == row && col2 == col {
            tile_words::masked(t)
        } else {
            tile_of(z, row2, col2)
        },
        with_words(with_tile(z, row, col, t), words(z)) == z,
{
    let w = tile_words::with_tile(words(z), row * 8 + col, t);
    assert(w.len() == 16);
    assert(words(with_words(z, w)) =~= w);
    tile_words::tile_read_over_write(words(z), row * 8 + col, t, row2 * 8 + col2);
}

impl Zone {
    /// The sixteen tile words.
    pub fn tiles(&self) -> (w: [u64; 16])
        ensures
            w@ == words(*self),
    {
        let w: [u64; 16] = [
            self.t0,
            self.t1,
            self.t2,
            self.t3,
            self.t4,
            self.t5,
            self.t6,
            self.t7,
            self.t8,
            self.t9,
            self.t10,
            self.t11,
            self.t12,
            self.t13,
            self.t14,
            self.t15,
        ];
        assert(w@ =~= words(*self));
        w
    }

    /// Replace all tile words.
    pub fn set_tiles(&mut self, tiles: &[u64; 16])
        ensures
            *final(self) == with_words(*old(self), tiles@),
    {
        self.t0 = tiles[0];
        self.t1 = tiles[1];
        self.t2 = tiles[2];
        self.t3 = tiles[3];
        self.t4 = tiles[4];
        self.t5 = tiles[5];
        self.t6 = tiles[6];
        self.t7 = tiles[7];
        self.t8 = tiles[8];
        self.t9 = tiles[9];
        self.t10 = tiles[10];
        self.t11 = tiles[11];
        self.t12 = tiles[12];
        self.t13 = tiles[13];
        self.t14 = tiles[14];
        self.t15 = tiles[15];
    }

    /// One row of tiles; `None` out of range.
    pub fn tile_row(&self, row: u8) -> (r: Option<[Tile; 8]>)
        ensures
            row >= 8 ==> r is None,
            row < 8 ==> (r matches Some(tiles) && forall|c: int|
                0 <= c < 8 ==> #[trigger] tiles@[c] == tile_of(*self, row as int, c)),
    {
        if row >= 8 {
            return None;
        }
        Some(tile_words::tile_row(&self.tiles(), row as usize))
    }

    /// One tile; `None` out of range.
    pub fn tile_at(&self, row: u8, col: u8) -> (t: Option<Tile>)
        ensures
            t == if row >= 8 || col >= 8 {
                None
            } else {
                Some(tile_of(*self, row as int, col as int))
            },
    {
        if row >= 8 || col >= 8 {
            return None;
        }
        Some(tile_words::tile_full(&self.tiles(), tile_words::tile_slot(col, row)))
    }

    /// One tile's definition id; `None` out of range.
    pub fn tile_def_id_at(&self, row: u8, col: u8) -> (d: Option<u16>)
        ensures
            d == if row >= 8 || col >= 8 {
                None
            } else {
                Some(tile_of(*self, row as int, col as int).0)
            },
    {
        if row >= 8 || col >= 8 {
            return None;
        }
        Some(tile_words::tile_def_id(&self.tiles(), tile_words::tile_slot(col, row)))
    }

    /// One stock of a tile; `None` out of range.
    pub fn tile_stock_at(&self, row: u8, col: u8, slot: usize) -> (v: Option<u8>)
        ensures
            v == if row >= 8 || col >= 8 || slot >= 2 {
                None
            } else {
                Some(
                    tile_words::stock_of(tile_of(*self, row as int, col as int), slot as int),
                )
            },
    {
        if row >= 8 || col >= 8 || slot >= tile_words::ZONE_TILE_STOCK_SLOTS {
            return None;
        }
        Some(tile_words::tile_stock(&self.tiles(), tile_words::tile_slot(col, row), slot))
    }

    /// Write one tile; `false`, and nothing written, out of range.
    pub fn assign_tile(&mut self, row: u8, col: u8, def_id: u16, stock0: u8, stock1: u8) -> (done:
        bool)
        ensures
            done == (row < 8 && col < 8),
            *final(self) == if done {
                with_tile(*old(self), row as int, col as int, (def_id, stock0, stock1))
            } else {
                *old(self)
            },
    {
        if row >= 8 || col >= 8 {
            return false;
        }
        let mut w: [u64; 16] = self.tiles();
        tile_words::set_tile_full(
            &mut w,
            tile_words::tile_slot(col, row),
            def_id,
            stock0,
            stock1,
        );
        self.set_tiles(&w);
        true
    }

    /// Write one tile's definition id and keep its stocks.
    pub fn assign_tile_def(&mut self, row: u8, col: u8, def_id: u16) -> (done: bool)
        ensures
            done == (row < 8 && col < 8),
            *final(self) == if done {
                let t = tile_of(*old(self), row as int, col as int);
                with_tile(*old(self), row as int, col as int, (def_id, t.1, t.2))
            } else {
                *old(self)
            },
    {
        match self.tile_at(row, col) {
            None => false,
            Some(t) => self.assign_tile(row, col, def_id, t.1, t.2),
        }
    }

    /// Write one stock of a tile and keep the rest of it.
    pub fn assign_tile_stock(&mut self, row: u8, col: u8, slot: usize, value: u8) -> (done: bool)
        ensures
            done == (row < 8 && col < 8 && slot < 2),
            *final(self) == if done {
                with_tile(
                    *old(self),
                    row as int,
                    col as int,
                    tile_words::with_stock(
                        tile_of(*old(self), row as int, col as int),
                        slot as int,
                        value,
                    ),
                )
            } else {
                *old(self)
            },
    {
        if row >= 8 || col >= 8 || slot >= tile_words::ZONE_TILE_STOCK_SLOTS {
            return false;
        }
        let mut w: [u64; 16] = self.tiles();
        tile_words::set_tile_stock(&mut w, tile_words::tile_slot(col, row), slot, value);
        self.set_tiles(&w);
        true
    }
}

// ---- rows ----------------------------------------------------------
/// The row of a zone with the greatest time.
pub fn latest(rows: &Vec<Zone>, zone_id: u32) -> (found: Option<Zone>)
    ensures
        found == history::latest(rows@, zone_id),
{
    history::find_prior_at(rows, zone_id, u64::MAX)
}

/// The row at a location with the greatest time, the last one on a tie.
pub open spec fn latest_on(rows: Seq<Zone>, macro_zone: u64) -> Option<Zone>
    decreases rows.len(),
{
    if rows.len() == 0 {
        None
    } else {
        let before = latest_on(rows.drop_last(), macro_zone);
        let row = rows.last();
        if row.macro_zone == macro_zone && (before matches Some(b) ==> history::time(b)
            <= history::time(row)) {
            Some(row)
        } else {
            before
        }
    }
}

/// Find the zone at a location.
pub fn latest_for(rows: &Vec<Zone>, macro_zone: u64) -> (found: Option<Zone>)
    ensures
        found == latest_on(rows@, macro_zone),
{
    let mut found: Option<Zone> = None;
    let mut i: usize = 0;
    while i < rows.len()
        invariant
            i <= rows.len(),
            found == latest_on(rows@.take(i as int), macro_zone),
        decreases rows.len() - i,
    {
        let row = rows[i];
        proof {
            let next = rows@.take(i + 1);
            assert(next.drop_last() =~= rows@.take(i as int));
            assert(next.last() == row);
        }
        if row.macro_zone == macro_zone {
            match found {
                Some(b) => {
                    if packed::valid_at_time(b.valid_at) <= packed::valid_at_time(row.valid_at) {
                        found = Some(row);
                    }
                },
                None => {
                    found = Some(row);
                },
            }
        }
        i = i + 1;
    }
    assert(rows@.take(rows.len() as int) =~= rows@);
    found
}

/// The greatest zone id, `0` for an empty table.
pub open spec fn max_zone_id(rows: Seq<Zone>) -> u32
    decreases rows.len(),
{
    if rows.len() == 0 {
        0
    } else {
        let before = max_zone_id(rows.drop_last());
        if rows.last().zone_id > before {
            rows.last().zone_id
        } else {
            before
        }
    }
}

/// The next free zone id; the last id is given out again and again.
pub open spec fn fresh_zone_id(rows: Seq<Zone>) -> u32 {
    let m = max_zone_id(rows);
    if m == u32::MAX {
        m
    } else {
        (m + 1) as u32
    }
}

/// Allocate a zone id: one more than the greatest.
pub fn next_zone_id(rows: &Vec<Zone>) -> (id: u32)
    ensures
        id == fresh_zone_id(rows@),
{
    let mut max: u32 = 0;
    let mut i: usize = 0;
    while i < rows.len()
        invariant
            i <= rows.len(),
            max == max_zone_id(rows@.take(i as int)),
        decreases rows.len() - i,
    {
        let id: u32 = rows[i].zone_id;
        proof {
            let next = rows@.take(i + 1);
            assert(next.drop_last() =~= rows@.take(i as int));
            assert(next.last() == rows@[i as int]);
        }
        if id > max {
            max = id;
        }
        i = i + 1;
    }
    assert(rows@.take(rows.len() as int) =~= rows@);
    if max == u32::MAX {
        max
    } else {
        max + 1
    }
}

/// Zone rows together with the write sequence.
#[verifier::ext_equal]
pub struct ZoneState {
    pub rows: Seq<Zone>,
    pub seq: u16,
}

/// The row that a write stores.
pub open spec fn stamped(s: ZoneState, zone: Zone, t: u64) -> Zone {
    Zone { valid_at: packed::valid_at_key(t, s.seq), ..zone }
}

/// The state after storing `zone` as the version at `t`.
pub open spec fn zone_written(s: ZoneState, zone: Zone, t: u64) -> ZoneState {
    ZoneState {
        rows: history::stored(s.rows, stamped(s, zone, t), t),
        seq: tables::sequence_after(s.seq),
    }
}

/// Store a zone row at `time_ms`; the last write at a time wins.
pub fn write_at(rows: &mut Vec<Zone>, seq: &mut u16, zone: Zone, time_ms: u64) -> (row: Zone)
    ensures
        (ZoneState { rows: final(rows)@, seq: *final(seq) }) == zone_written(
            ZoneState { rows: old(rows)@, seq: *old(seq) },
            zone,
            time_ms,
        ),
        row == stamped(ZoneState { rows: old(rows)@, seq: *old(seq) }, zone, time_ms),
{
    let taken: u16 = tables::advance(seq);
    let mut row = zone;
    row.valid_at = packed::pack_valid_at(time_ms, taken);
    history::store(rows, row, time_ms);
    row
}

/// A zone before its first write.
pub open spec fn fresh_zone(
    zone_id: u32,
    macro_zone: u64,
    packed_definition: u8,
    owner_id: u32,
    w: Seq<u64>,
) -> Zone {
    Zone {
        valid_at: 0,
        zone_id,
        macro_zone,
        packed_definition,
        owner_id,
        t0: w[0],
        t1: w[1],
        t2: w[2],
        t3: w[3],
        t4: w[4],
        t5: w[5],
        t6: w[6],
        t7: w[7],
        t8: w[8],
        t9: w[9],
        t10: w[10],
        t11: w[11],
        t12: w[12],
        t13: w[13],
        t14: w[14],
        t15: w[15],
    }
}

/// Create a zone with its first row at `time_ms`.
pub fn create_at(
    rows: &mut Vec<Zone>,
    seq: &mut u16,
    zone_id: u32,
    macro_zone: u64,
    packed_definition: u8,
    owner_id: u32,
    tiles: &[u64; 16],
    time_ms: u64,
) -> (row: Zone)
    ensures
        ({
            let s = ZoneState { rows: old(rows)@, seq: *old(seq) };
            let z = fresh_zone(zone_id, macro_zone, packed_definition, owner_id, tiles@);
            &&& (ZoneState { rows: final(rows)@, seq: *final(seq) }) == zone_written(s, z, time_ms)
            &&& row == stamped(s, z, time_ms)
        }),
{
    let zone = Zone {
        valid_at: 0,
        zone_id,
        macro_zone,
        packed_definition,
        owner_id,
        t0: tiles[0],
        t1: tiles[1],
        t2: tiles[2],
        t3: tiles[3],
        t4: tiles[4],
        t5: tiles[5],
        t6: tiles[6],
        t7: tiles[7],
        t8: tiles[8],
        t9: tiles[9],
        t10: tiles[10],
        t11: tiles[11],
        t12: tiles[12],
        t13: tiles[13],
        t14: tiles[14],
        t15: tiles[15],
    };
    write_at(rows, seq, zone, time_ms)
}

/// Create a zone with its first row at `now_ms`, the wall clock.
pub fn create(
    rows: &mut Vec<Zone>,
    seq: &mut u16,
    now_ms: u64,
    zone_id: u32,
    macro_zone: u64,
    packed_definition: u8,
    owner_id: u32,
    tiles: &[u64; 16],
) -> (row: Zone)
    ensures
        ({
            let s = ZoneState { rows: old(rows)@, seq: *old(seq) };
            let z = fresh_zone(zone_id, macro_zone, packed_definition, owner_id, tiles@);
            &&& (ZoneState { rows: final(rows)@, seq: *final(seq) }) == zone_written(s, z, now_ms)
            &&& row == stamped(s, z, now_ms)
        }),
{
    create_at(rows, seq, zone_id, macro_zone, packed_definition, owner_id, tiles, now_ms)
}

/// Edit the latest row of a zone and store the result at `time_ms`.
pub fn update_with_at<F: FnOnce(Zone) -> Zone>(
    rows: &mut Vec<Zone>,
    seq: &mut u16,
    zone_id: u32,
    time_ms: u64,
    f: F,
) -> (row: Option<Zone>)
    requires
        forall|z: Zone| #[trigger] f.requires((z,)),
    ensures
        match history::latest(old(rows)@, zone_id) {
            None => row is None && final(rows)@ == old(rows)@ && *final(seq) == *old(seq),
            Some(z) => exists|edited: Zone| #[trigger]
                f.ensures((z,), edited) && ({
                    let s = ZoneState { rows: old(rows)@, seq: *old(seq) };
                    &&& (ZoneState { rows: final(rows)@, seq: *final(seq) }) == zone_written(
                        s,
                        edited,
                        time_ms,
                    )
                    &&& row == Some(stamped(s, edited, time_ms))
                }),
        },
{
    match latest(rows, zone_id) {
        None => None,
        Some(z) => {
            let edited: Zone = f(z);
            Some(write_at(rows, seq, edited, time_ms))
        },
    }
}

/// Edit the latest row of a zone and store the result at `now_ms`.
pub fn update_with<F: FnOnce(Zone) -> Zone>(
    rows: &mut Vec<Zone>,
    seq: &mut u16,
    now_ms: u64,
    zone_id: u32,
    f: F,
) -> (row: Option<Zone>)
    requires
        forall|z: Zone| #[trigger] f.requires((z,)),
    ensures
        match history::latest(old(rows)@, zone_id) {
            None => row is None && final(rows)@ == old(rows)@ && *final(seq) == *old(seq),
            Some(z) => exists|edited: Zone| #[trigger]
                f.ensures((z,), edited) && ({
                    let s = ZoneState { rows: old(rows)@, seq: *old(seq) };
                    &&& (ZoneState { rows: final(rows)@, seq: *final(seq) }) == zone_written(
                        s,
                        edited,
                        now_ms,
                    )
                    &&& row == Some(stamped(s, edited, now_ms))
                }),
        },
{
    update_with_at(rows, seq, zone_id, now_ms, f)
}

/// A zone at another location.
pub open spec fn relocated(macro_zone: u64) -> spec_fn(Zone) -> Zone {
    |z: Zone| Zone { macro_zone, ..z }
}

/// A zone of another definition.
pub open spec fn retyped(packed_definition: u8) -> spec_fn(Zone) -> Zone {
    |z: Zone| Zone { packed_definition, ..z }
}

/// A zone with another owner.
pub open spec fn given_to(owner_id: u32) -> spec_fn(Zone) -> Zone {
    |z: Zone| Zone { owner_id, ..z }
}

/// A zone with one row of its tiles replaced.
pub open spec fn with_row(row: u8, tiles: Seq<Tile>) -> spec_fn(Zone) -> Zone {
    |z: Zone| with_words(z, tile_words::with_row_prefix(words(z), row as int, tiles, 8))
}

/// The state after storing an edit of the latest row of a zone; unchanged where
/// there is none.
pub open spec fn latest_edited(s: ZoneState, zone_id: u32, t: u64, f: spec_fn(Zone) -> Zone) -> (
    ZoneState,
    Option<Zone>,
) {
    match history::latest(s.rows, zone_id) {
        None => (s, None),
        Some(z) => (zone_written(s, f(z), t), Some(stamped(s, f(z), t))),
    }
}

/// Move a zone to another location.
pub fn set_macro_zone(
    rows: &mut Vec<Zone>,
    seq: &mut u16,
    now_ms: u64,
    zone_id: u32,
    macro_zone: u64,
) -> (row: Option<Zone>)
    ensures
        ((ZoneState { rows: final(rows)@, seq: *final(seq) }), row) == latest_edited(
            ZoneState { rows: old(rows)@, seq: *old(seq) },
            zone_id,
            now_ms,
            relocated(macro_zone),
        ),
{
    match latest(rows, zone_id) {
        None => None,
        Some(z) => Some(write_at(rows, seq, Zone { macro_zone, ..z }, now_ms)),
    }
}

/// Change a zone's definition.
pub fn set_packed_definition(
    rows: &mut Vec<Zone>,
    seq: &mut u16,
    now_ms: u64,
    zone_id: u32,
    packed_definition: u8,
) -> (row: Option<Zone>)
    ensures
        ((ZoneState { rows: final(rows)@, seq: *final(seq) }), row) == latest_edited(
            ZoneState { rows: old(rows)@, seq: *old(seq) },
            zone_id,
            now_ms,
            retyped(packed_definition),
        ),
{
    match latest(rows, zone_id) {
        None => None,
        Some(z) => Some(write_at(rows, seq, Zone { packed_definition, ..z }, now_ms)),
    }
}

/// Change a zone's owner.
pub fn set_owner_id(
    rows: &mut Vec<Zone>,
    seq: &mut u16,
    now_ms: u64,
    zone_id: u32,
    owner_id: u32,
) -> (row: Option<Zone>)
    ensures
        ((ZoneState { rows: final(rows)@, seq: *final(seq) }), row) == latest_edited(
            ZoneState { rows: old(rows)@, seq: *old(seq) },
            zone_id,
            now_ms,
            given_to(owner_id),
        ),
{
    match latest(rows, zone_id) {
        None => None,
        Some(z) => Some(write_at(rows, seq, Zone { owner_id, ..z }, now_ms)),
    }
}

/// Replace one row of tiles; `None`, and nothing written, out of range.
pub fn set_tile_row(
    rows: &mut Vec<Zone>,
    seq: &mut u16,
    now_ms: u64,
    zone_id: u32,
    row: u8,
    tiles: &[Tile; 8],
) -> (r: Option<Zone>)
    ensures
        row >= 8 ==> r is None && final(rows)@ == old(rows)@ && *final(seq) == *old(seq),
        row < 8 ==> ((ZoneState { rows: final(rows)@, seq: *final(seq) }), r) == latest_edited(
            ZoneState { rows: old(rows)@, seq: *old(seq) },
            zone_id,
            now_ms,
            with_row(row, tiles@),
        ),
{
    if row >= 8 {
        return None;
    }
    match latest(rows, zone_id) {
        None => None,
        Some(found) => {
            let mut z = found;
            let mut w: [u64; 16] = z.tiles();
            tile_words::set_tile_row(&mut w, row as usize, tiles);
            z.set_tiles(&w);
            Some(write_at(rows, seq, z, now_ms))
        },
    }
}

/// Replace all tiles.
pub fn set_tile_rows(
    rows: &mut Vec<Zone>,
    seq: &mut u16,
    now_ms: u64,
    zone_id: u32,
    tiles: &[u64; 16],
) -> (r: Option<Zone>)
    ensures
        ((ZoneState { rows: final(rows)@, seq: *final(seq) }), r) == latest_edited(
            ZoneState { rows: old(rows)@, seq: *old(seq) },
            zone_id,
            now_ms,
            |z: Zone| with_words(z, tiles@),
        ),
{
    match latest(rows, zone_id) {
        None => None,
        Some(found) => {
            let mut z = found;
            z.set_tiles(tiles);
            Some(write_at(rows, seq, z, now_ms))
        },
    }
}

// ---- single tiles --------------------------------------------------
/// Carry a tile write into the versions of a zone after `t`, in order of time,
/// up to the first one that no longer shows `was` there.
pub open spec fn carried(
    rows: Seq<Zone>,
    zone_id: u32,
    t: u64,
    row: int,
    col: int,
    was: Tile,
    now: Tile,
) -> Seq<Zone>
    decreases u64::MAX - t,
{
    match history::next_version(rows, zone_id, t) {
        None => rows,
        Some(i) => {
            let z = rows[i];
            let at = history::time(z);
            if at <= t || tile_of(z, row, col) != was {
                rows
            } else {
                carried(
                    rows.update(i, with_tile(z, row, col, now)),
                    zone_id,
                    at,
                    row,
                    col,
                    was,
                    now,
                )
            }
        },
    }
}

/// The outcome of writing one tile at `t`: the row in force then gets the tile,
/// and so do the later rows that still show the old one.
pub open spec fn tile_written(s: ZoneState, zone_id: u32, t: u64, row: u8, col: u8, tile: Tile) -> (
    ZoneState,
    Option<Zone>,
) {
    if row >= 8 || col >= 8 {
        (s, None)
    } else {
        match history::prior_at(s.rows, zone_id, t) {
            None => (s, None),
            Some(prior) => {
                let was = tile_of(prior, row as int, col as int);
                if was == tile_words::masked(tile) {
                    (s, Some(prior))
                } else {
                    let z = with_tile(prior, row as int, col as int, tile);
                    let w = zone_written(s, z, t);
                    (
                        ZoneState {
                            rows: carried(w.rows, zone_id, t, row as int, col as int, was, tile),
                            ..w
                        },
                        Some(stamped(s, z, t)),
                    )
                }
            },
        }
    }
}

fn carry_tile(
    rows: &mut Vec<Zone>,
    zone_id: u32,
    time_ms: u64,
    row: u8,
    col: u8,
    was: Tile,
    now: Tile,
)
    requires
        row < 8,
        col < 8,
    ensures
        final(rows)@ == carried(
            old(rows)@,
            zone_id,
            time_ms,
            row as int,
            col as int,
            was,
            now,
        ),
{
    let mut at: u64 = time_ms;
    let ghost goal = carried(rows@, zone_id, time_ms, row as int, col as int, was, now);
    loop
        invariant
            row < 8,
            col < 8,
            goal == carried(rows@, zone_id, at, row as int, col as int, was, now),
        ensures
            rows@ == goal,
        decreases u64::MAX - at,
    {
        match history::find_next_version(rows, zone_id, at) {
            None => {
                break ;
            },
            Some(i) => {
                let mut z = rows[i];
                let cur: Tile = tile_words::tile_full(&z.tiles(), tile_words::tile_slot(col, row));
                if !(cur.0 == was.0 && cur.1 == was.1 && cur.2 == was.2) {
                    break ;
                }
                at = packed::valid_at_time(z.valid_at);
                let _ = z.assign_tile(row, col, now.0, now.1, now.2);
                rows.set(i, z);
            },
        }
    }
}

/// Write one tile at `(row, col)` at `time_ms`. Gives `None` out of range or
/// where the zone has no row in force; a tile that is already there is no write.
pub fn set_tile_at(
    rows: &mut Vec<Zone>,
    seq: &mut u16,
    zone_id: u32,
    time_ms: u64,
    row: u8,
    col: u8,
    def_id: u16,
    stock0: u8,
    stock1: u8,
) -> (r: Option<Zone>)
    ensures
        ((ZoneState { rows: final(rows)@, seq: *final(seq) }), r) == tile_written(
            ZoneState { rows: old(rows)@, seq: *old(seq) },
            zone_id,
            time_ms,
            row,
            col,
            (def_id, stock0, stock1),
        ),
{
    if row >= 8 || col >= 8 {
        return None;
    }
    let mut prior = match history::find_prior_at(rows, zone_id, time_ms) {
        None => {
            return None;
        },
        Some(z) => z,
    };
    let was: Tile = tile_words::tile_full(&prior.tiles(), tile_words::tile_slot(col, row));
    if was.0 == def_id % 4096 && was.1 == stock0 % 4 && was.2 == stock1 % 4 {
        return Some(prior);
    }
    let _ = prior.assign_tile(row, col, def_id, stock0, stock1);
    let written = write_at(rows, seq, prior, time_ms);
    carry_tile(rows, zone_id, time_ms, row, col, was, (def_id, stock0, stock1));
    Some(written)
}

/// Write one tile at `now_ms`, the wall clock.
pub fn set_tile(
    rows: &mut Vec<Zone>,
    seq: &mut u16,
    now_ms: u64,
    zone_id: u32,
    row: u8,
    col: u8,
    def_id: u16,
    stock0: u8,
    stock1: u8,
) -> (r: Option<Zone>)
    ensures
        ((ZoneState { rows: final(rows)@, seq: *final(seq) }), r) == tile_written(
            ZoneState { rows: old(rows)@, seq: *old(seq) },
            zone_id,
            now_ms,
            row,
            col,
            (def_id, stock0, stock1),
        ),
{
    set_tile_at(rows, seq, zone_id, now_ms, row, col, def_id, stock0, stock1)
}

/// The default stocks of a definition; zeros where it is unknown or has none.
pub open spec fn default_stocks(c: Catalog, packed_def: u16) -> (u8, u8) {
    match content::definition(c.definitions@, packed_def) {
        None => (0, 0),
        Some(d) => (
            if d.stock@.len() > 0 {
                d.stock@[0].default
            } else {
                0
            },
            if d.stock@.len() > 1 {
                d.stock@[1].default
            } else {
                0
            },
        ),
    }
}

/// Look up the default stocks of a definition.
pub fn stock_defaults_for(c: &Catalog, packed_def: u16) -> (s: (u8, u8))
    ensures
        s == default_stocks(*c, packed_def),
{
    match c.decode_definition(packed_def) {
        None => (0, 0),
        Some(d) => (
            if d.stock.len() > 0 {
                d.stock[0].default
            } else {
                0
            },
            if d.stock.len() > 1 {
                d.stock[1].default
            } else {
                0
            },
        ),
    }
}

/// Write a fresh tile with the default stocks of its definition.
pub fn set_tile_at_with_defaults(
    c: &Catalog,
    rows: &mut Vec<Zone>,
    seq: &mut u16,
    zone_id: u32,
    time_ms: u64,
    row: u8,
    col: u8,
    packed_def: u16,
) -> (r: Option<Zone>)
    ensures
        ({
            let d = default_stocks(*c, packed_def);
            ((ZoneState { rows: final(rows)@, seq: *final(seq) }), r) == tile_written(
                ZoneState { rows: old(rows)@, seq: *old(seq) },
                zone_id,
                time_ms,
                row,
                col,
                (packed_def % 4096, d.0, d.1),
            )
        }),
{
    let s: (u8, u8) = stock_defaults_for(c, packed_def);
    set_tile_at(rows, seq, zone_id, time_ms, row, col, packed_def % 4096, s.0, s.1)
}

/// Change one stock of a tile at `time_ms`, keeping the rest of the tile.
pub fn set_tile_stock_at(
    rows: &mut Vec<Zone>,
    seq: &mut u16,
    zone_id: u32,
    time_ms: u64,
    row: u8,
    col: u8,
    slot: usize,
    value: u8,
) -> (r: Option<Zone>)
    ensures
        ((ZoneState { rows: final(rows)@, seq: *final(seq) }), r) == (if row >= 8 || col >= 8 || slot
            >= 2 {
            (ZoneState { rows: old(rows)@, seq: *old(seq) }, None)
        } else {
            match history::prior_at(old(rows)@, zone_id, time_ms) {
                None => (ZoneState { rows: old(rows)@, seq: *old(seq) }, None),
                Some(prior) => tile_written(
                    ZoneState { rows: old(rows)@, seq: *old(seq) },
                    zone_id,
                    time_ms,
                    row,
                    col,
                    tile_words::with_stock(
                        tile_of(prior, row as int, col as int),
                        slot as int,
                        value,
                    ),
                ),
            }
        }),
{
    if row >= 8 || col >= 8 || slot >= tile_words::ZONE_TILE_STOCK_SLOTS {
        return None;
    }
    let prior = match history::find_prior_at(rows, zone_id, time_ms) {
        None => {
            return None;
        },
        Some(z) => z,
    };
    let t: Tile = tile_words::tile_full(&prior.tiles(), tile_words::tile_slot(col, row));
    if slot == 0 {
        set_tile_at(rows, seq, zone_id, time_ms, row, col, t.0, value, t.2)
    } else {
        set_tile_at(rows, seq, zone_id, time_ms, row, col, t.0, t.1, value)
    }
}

// ---- fresh zones ---------------------------------------------------
/// Centre and radius of the disk footprint of a zone.
pub const DISK_CENTER: i32 = 3;

pub const DISK_RADIUS: i32 = 3;

pub open spec fn abs(x: int) -> int {
    if x < 0 {
        -x
    } else {
        x
    }
}

/// Hex distance of an axial offset.
pub open spec fn hex_len(dq: int, dr: int) -> int {
    (abs(dq) + abs(dr) + abs(dq + dr)) / 2
}

/// The cell lies in the disk footprint.
pub open spec fn in_footprint(row: int, col: int) -> bool {
    hex_len(col - 3, row - 3) <= 3
}

fn magnitude(x: i32) -> (a: i32)
    requires
        -1000 <= x <= 1000,
    ensures
        a == abs(x as int),
{
    if x < 0 {
        -x
    } else {
        x
    }
}

/// True iff `(row, col)` lies within the radius-3 hex disk centred at `(3, 3)`.
pub fn in_disk(row: u8, col: u8) -> (r: bool)
    ensures
        r == in_footprint(row as int, col as int),
{
    let dr: i32 = row as i32 - DISK_CENTER;
    let dq: i32 = col as i32 - DISK_CENTER;
    (magnitude(dq) + magnitude(dr) + magnitude(dq + dr)) / 2 <= DISK_RADIUS
}

/// The footprint fits the 7-by-7 corner of the storage grid.
pub proof fn footprint_is_seven_wide(row: int, col: int)
    requires
        0 <= row,
        0 <= col,
        in_footprint(row, col),
    ensures
        row < 7,
        col < 7,
{
}

/// The catalog has no `empty` tile.
#[derive(Clone, Copy, Debug, PartialEq, Eq, Structural)]
pub struct NoEmptyTile;

/// The tile that a fresh zone is seeded with, from the packed id of `empty`.
pub open spec fn seed_tile(c: Catalog, empty: u16) -> Tile {
    let d = default_stocks(c, empty);
    (packed::def_id(empty), d.0, d.1)
}

/// `z` is a fresh zone whose cells hold the seed tile where `inside` says so, and
/// nothing elsewhere.
pub open spec fn seeded(
    c: Catalog,
    rows: Seq<Zone>,
    z: Zone,
    empty: u16,
    macro_zone: u64,
    owner_id: u32,
    disk: bool,
) -> bool {
    &&& z.zone_id == fresh_zone_id(rows)
    &&& z.macro_zone == macro_zone
    &&& z.packed_definition == packed::zone_definition_word(packed::card_type(empty))
    &&& z.owner_id == owner_id
    &&& forall|row: int, col: int|
        0 <= row < 8 && 0 <= col < 8 ==> #[trigger] tile_of(z, row, col) == if !disk
            || in_footprint(row, col) {
            tile_words::masked(seed_tile(c, empty))
        } else {
            (0u16, 0u8, 0u8)
        }
}

fn seed_words(tile: Tile, disk: bool) -> (w: [u64; 16])
    ensures
        forall|idx: int|
            0 <= idx < 64 ==> #[trigger] tile_words::tile(w@, idx) == if !disk || in_footprint(
                idx / 8,
                idx % 8,
            ) {
                tile_words::masked(tile)
            } else {
                (0u16, 0u8, 0u8)
            },
{
    let mut w: [u64; 16] = [0, 0, 0, 0, 0, 0, 0, 0, 0, 0, 0, 0, 0, 0, 0, 0];
    let mut idx: usize = 0;
    while idx < 64
        invariant
            idx <= 64,
            forall|j: int|
                0 <= j < 64 ==> #[trigger] tile_words::tile(w@, j) == if j < idx && (!disk
                    || in_footprint(j / 8, j % 8)) {
                    tile_words::masked(tile)
                } else {
                    (0u16, 0u8, 0u8)
                },
        decreases 64 - idx,
    {
        let ghost before = w@;
        if !disk || in_disk((idx / 8) as u8, (idx % 8) as u8) {
            tile_words::set_tile_full(&mut w, idx, tile.0, tile.1, tile.2);
            assert forall|j: int| 0 <= j < 64 implies #[trigger] tile_words::tile(w@, j) == if j
                < idx + 1 && (!disk || in_footprint(j / 8, j % 8)) {
                tile_words::masked(tile)
            } else {
                (0u16, 0u8, 0u8)
            } by {
                tile_words::tile_read_over_write(before, idx as int, tile, j);
                assert(tile_words::tile(before, j) == if j < idx && (!disk || in_footprint(
                    j / 8,
                    j % 8,
                )) {
                    tile_words::masked(tile)
                } else {
                    (0u16, 0u8, 0u8)
                });
            }
        }
        idx = idx + 1;
    }
    w
}

/// What a seeding leaves behind: a new row, or an error where the catalog has
/// no `empty` tile.
pub open spec fn seeding(
    c: Catalog,
    before: ZoneState,
    after: ZoneState,
    r: Result<Zone, NoEmptyTile>,
    macro_zone: u64,
    owner_id: u32,
    t: u64,
    disk: bool,
) -> bool {
    match content::packed_by_key(c.definitions@, "empty"@) {
        None => r == Err::<Zone, NoEmptyTile>(NoEmptyTile) && after == before,
        Some(empty) => match r {
            Err(_) => false,
            Ok(row) => {
                &&& seeded(c, before.rows, row, empty, macro_zone, owner_id, disk)
                &&& row.valid_at == packed::valid_at_key(t, before.seq)
                &&& after == (ZoneState {
                    rows: history::stored(before.rows, row, t),
                    seq: tables::sequence_after(before.seq),
                })
            },
        },
    }
}

fn seed(
    c: &Catalog,
    rows: &mut Vec<Zone>,
    seq: &mut u16,
    macro_zone: u64,
    owner_id: u32,
    time_ms: u64,
    disk: bool,
) -> (r: Result<Zone, NoEmptyTile>)
    ensures
        seeding(
            *c,
            ZoneState { rows: old(rows)@, seq: *old(seq) },
            ZoneState { rows: final(rows)@, seq: *final(seq) },
            r,
            macro_zone,
            owner_id,
            time_ms,
            disk,
        ),
{
    let key: String = "empty".to_owned();
    let empty: u16 = match c.find_packed_by_key(&key) {
        None => {
            return Err(NoEmptyTile);
        },
        Some(p) => p,
    };
    let d: (u8, u16) = packed::unpack_definition(empty);
    let s: (u8, u8) = stock_defaults_for(c, empty);
    let w: [u64; 16] = seed_words((d.1, s.0, s.1), disk);
    let zone_id: u32 = next_zone_id(rows);
    let row = create_at(
        rows,
        seq,
        zone_id,
        macro_zone,
        packed::pack_zone_definition(d.0),
        owner_id,
        &w,
        time_ms,
    );
    proof {
        assert(words(row) =~= w@);
        assert forall|i: int, j: int| 0 <= i < 8 && 0 <= j < 8 implies #[trigger] tile_of(row, i, j)
            == if !disk || in_footprint(i, j) {
            tile_words::masked(seed_tile(*c, empty))
        } else {
            (0u16, 0u8, 0u8)
        } by {
            let idx = i * 8 + j;
            assert(idx / 8 == i && idx % 8 == j);
            assert(tile_words::tile(w@, idx) == tile_of(row, i, j));
        }
    }
    Ok(row)
}

/// Create a zone whose 37 disk cells hold the `empty` tile.
pub fn create_disk_at(
    c: &Catalog,
    rows: &mut Vec<Zone>,
    seq: &mut u16,
    macro_zone: u64,
    owner_id: u32,
    time_ms: u64,
) -> (r: Result<Zone, NoEmptyTile>)
    ensures
        seeding(
            *c,
            ZoneState { rows: old(rows)@, seq: *old(seq) },
            ZoneState { rows: final(rows)@, seq: *final(seq) },
            r,
            macro_zone,
            owner_id,
            time_ms,
            true,
        ),
{
    seed(c, rows, seq, macro_zone, owner_id, time_ms, true)
}

/// Create a zone whose 64 cells all hold the `empty` tile.
pub fn create_rect_at(
    c: &Catalog,
    rows: &mut Vec<Zone>,
    seq: &mut u16,
    macro_zone: u64,
    owner_id: u32,
    time_ms: u64,
) -> (r: Result<Zone, NoEmptyTile>)
    ensures
        seeding(
            *c,
            ZoneState { rows: old(rows)@, seq: *old(seq) },
            ZoneState { rows: final(rows)@, seq: *final(seq) },
            r,
            macro_zone,
            owner_id,
            time_ms,
            false,
        ),
{
    seed(c, rows, seq, macro_zone, owner_id, time_ms, false)
}

// ---- laws ----------------------------------------------------------
/// Carrying a tile forward touches only later versions of the zone, and each of
/// them either keeps its tiles or gets the one tile written.
pub proof fn carrying_is_confined(
    rows: Seq<Zone>,
    zone_id: u32,
    t: u64,
    row: int,
    col: int,
    was: Tile,
    now: Tile,
)
    ensures
        carried(rows, zone_id, t, row, col, was, now).len() == rows.len(),
        forall|j: int|
            0 <= j < rows.len() ==> ({
                let out = #[trigger] carried(rows, zone_id, t, row, col, was, now)[j];
                out == rows[j] || (rows[j].zone_id == zone_id && history::time(rows[j]) > t
                    && tile_of(rows[j], row, col) == was && out == with_tile(rows[j], row, col, now))
            }),
    decreases u64::MAX - t,
{
    history::next_version_is_least(rows, zone_id, t);
    if let Some(i) = history::next_version(rows, zone_id, t) {
        let z = rows[i];
        let at = history::time(z);
        if tile_of(z, row, col) == was {
            let mid = rows.update(i, with_tile(z, row, col, now));
            carrying_is_confined(mid, zone_id, at, row, col, was, now);
            let out = carried(rows, zone_id, t, row, col, was, now);
            assert(out == carried(mid, zone_id, at, row, col, was, now));
            assert forall|j: int| 0 <= j < rows.len() implies ({
                let o = #[trigger] out[j];
                o == rows[j] || (rows[j].zone_id == zone_id && history::time(rows[j]) > t
                    && tile_of(rows[j], row, col) == was && o == with_tile(rows[j], row, col, now))
            }) by {
                let o = carried(mid, zone_id, at, row, col, was, now)[j];
                assert(mid[j].zone_id == rows[j].zone_id);
            }
        }
    }
}

/// Every version of the zone after `t` up to version `j` still holds the tile
/// `was`.
pub open spec fn inherited(
    rows: Seq<Zone>,
    zone_id: u32,
    t: u64,
    row: int,
    col: int,
    was: Tile,
    j: int,
) -> bool {
    forall|k: int|
        0 <= k < rows.len() && (#[trigger] rows[k]).zone_id == zone_id && t < history::time(rows[k])
            <= history::time(rows[j]) ==> tile_of(rows[k], row, col) == was
}

/// A carried tile reaches every later version of the zone up to the first that
/// changed the tile itself; from there on, and in every other row, the tile stays
/// as it was.
pub proof fn carrying_reaches_the_inheritors(
    rows: Seq<Zone>,
    zone_id: u32,
    t: u64,
    row: int,
    col: int,
    was: Tile,
    now: Tile,
    j: int,
)
    requires
        history::distinct_versions(rows),
        0 <= j < rows.len(),
    ensures
        carried(rows, zone_id, t, row, col, was, now)[j] == if rows[j].zone_id == zone_id
            && history::time(rows[j]) > t && inherited(rows, zone_id, t, row, col, was, j) {
            with_tile(rows[j], row, col, now)
        } else {
            rows[j]
        },
    decreases u64::MAX - t,
{
    carrying_is_confined(rows, zone_id, t, row, col, was, now);
    if rows[j].zone_id == zone_id && history::time(rows[j]) > t {
        history::next_version_is_least(rows, zone_id, t);
        if let Some(i) = history::next_version(rows, zone_id, t) {
            let z = rows[i];
            let at = history::time(z);
            if i != j {
                assert(rows[i].spec_key() != rows[j].spec_key() && at != history::time(rows[j]));
            }
            if tile_of(z, row, col) == was {
                let mid = rows.update(i, with_tile(z, row, col, now));
                assert(history::distinct_versions(mid)) by {
                    assert forall|p: int, q: int|
                        #![trigger mid[p], mid[q]]
                        0 <= p < q < mid.len() implies mid[p].spec_key() != mid[q].spec_key() && !(
                    mid[p].spec_entity() == mid[q].spec_entity() && history::time(mid[p])
                        == history::time(mid[q])) by {
                        assert(rows[p].spec_key() != rows[q].spec_key());
                    }
                }
                carrying_reaches_the_inheritors(mid, zone_id, at, row, col, was, now, j);
                assert(carried(rows, zone_id, t, row, col, was, now) == carried(
                    mid,
                    zone_id,
                    at,
                    row,
                    col,
                    was,
                    now,
                ));
                if j != i {
                    if inherited(rows, zone_id, t, row, col, was, j) {
                        assert forall|k: int|
                            0 <= k < mid.len() && (#[trigger] mid[k]).zone_id == zone_id && at
                                < history::time(mid[k]) <= history::time(mid[j]) implies tile_of(
                            mid[k],
                            row,
                            col,
                        ) == was by {
                            assert(rows[k].zone_id == zone_id);
                        }
                    }
                    if inherited(mid, zone_id, at, row, col, was, j) {
                        assert forall|k: int|
                            0 <= k < rows.len() && (#[trigger] rows[k]).zone_id == zone_id && t
                                < history::time(rows[k]) <= history::time(rows[j]) implies tile_of(
                            rows[k],
                            row,
                            col,
                        ) == was by {
                            if k < i {
                                assert(rows[k].spec_key() != rows[i].spec_key());
                            }
                            if i < k {
                                assert(rows[i].spec_key() != rows[k].spec_key());
                                assert(mid[k].zone_id == zone_id);
                            }
                            assert(mid[k].zone_id == zone_id);
                        }
                    }
                } else {
                    assert forall|k: int|
                        0 <= k < rows.len() && (#[trigger] rows[k]).zone_id == zone_id && t
                            < history::time(rows[k]) <= history::time(rows[j]) implies tile_of(
                        rows[k],
                        row,
                        col,
                    ) == was by {
                        if k < i {
                            assert(rows[k].spec_key() != rows[i].spec_key());
                        }
                        if i < k {
                            assert(rows[i].spec_key() != rows[k].spec_key());
                        }
                    }
                    assert(mid[j] == with_tile(rows[j], row, col, now));
                }
            }
        }
    }
}

} // verus!
