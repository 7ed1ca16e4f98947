//! The packed tiles of a zone.
//!
//! A zone holds 64 tiles in sixteen words. Each word carries four 16-bit lanes,
//! lowest first, and each lane one tile `[def_id:u12 | stock0:u2 | stock1:u2]`.
use vstd::prelude::*;

verus! {

/// Words per zone.
pub const ZONE_TILE_U64_COUNT: usize = 16;

/// Tiles per zone.
pub const ZONE_TILE_COUNT: usize = 64;

/// Stock slots per tile.
pub const ZONE_TILE_STOCK_SLOTS: usize = 2;

/// Largest stock value.
pub const ZONE_TILE_STOCK_MAX: u8 = 3;

/// A decoded tile: `(def_id, stock0, stock1)`.
pub type Tile = (u16, u8, u8);

// ---- lanes ---------------------------------------------------------
/// Four lanes as one word.
pub open spec fn word_of(l0: u16, l1: u16, l2: u16, l3: u16) -> u64 {
    (l0 as u64 + l1 as u64 * 0x1_0000 + l2 as u64 * 0x1_0000_0000 + l3 as u64
        * 0x1_0000_0000_0000) as u64
}

/// Lane `k` of a word.
pub open spec fn lane(w: u64, k: int) -> u16 {
    if k == 0 {
        (w % 0x1_0000) as u16
    } else if k == 1 {
        (w / 0x1_0000 % 0x1_0000) as u16
    } else if k == 2 {
        (w / 0x1_0000_0000 % 0x1_0000) as u16
    } else {
        (w / 0x1_0000_0000_0000) as u16
    }
}

/// A word with lane `k` replaced.
pub open spec fn with_lane(w: u64, k: int, v: u16) -> u64 {
    word_of(
        if k == 0 { v } else { lane(w, 0) },
        if k == 1 { v } else { lane(w, 1) },
        if k == 2 { v } else { lane(w, 2) },
        if k == 3 { v } else { lane(w, 3) },
    )
}

proof fn lemma_lanes(l0: u16, l1: u16, l2: u16, l3: u16, w: u64)
    by (bit_vector)
    requires
        w == l0 as u64 + l1 as u64 * 0x1_0000u64 + l2 as u64 * 0x1_0000_0000u64 + l3 as u64
            * 0x1_0000_0000_0000u64,
    ensures
        w % 0x1_0000 == l0 as u64,
        w / 0x1_0000 % 0x1_0000 == l1 as u64,
        w / 0x1_0000_0000 % 0x1_0000 == l2 as u64,
        w / 0x1_0000_0000_0000 == l3 as u64,
{
}

proof fn lemma_with_lane(w: u64, k: int, v: u16, j: int)
    requires
        0 <= k < 4,
        0 <= j < 4,
    ensures
        lane(with_lane(w, k, v), j) == if j == k {
            v
        } else {
            lane(w, j)
        },
{
    let l0 = if k == 0 { v } else { lane(w, 0) };
    let l1 = if k == 1 { v } else { lane(w, 1) };
    let l2 = if k == 2 { v } else { lane(w, 2) };
    let l3 = if k == 3 { v } else { lane(w, 3) };
    lemma_lanes(l0, l1, l2, l3, word_of(l0, l1, l2, l3));
}

fn get_lane(w: u64, k: usize) -> (v: u16)
    requires
        k < 4,
    ensures
        v == lane(w, k as int),
{
    if k == 0 {
        (w % 0x1_0000) as u16
    } else if k == 1 {
        (w / 0x1_0000 % 0x1_0000) as u16
    } else if k == 2 {
        (w / 0x1_0000_0000 % 0x1_0000) as u16
    } else {
        (w / 0x1_0000_0000_0000) as u16
    }
}

fn set_lane(w: u64, k: usize, v: u16) -> (out: u64)
    requires
        k < 4,
    ensures
        out == with_lane(w, k as int, v),
{
    let l0: u16 = if k == 0 {
        v
    } else {
        get_lane(w, 0)
    };
    let l1: u16 = if k == 1 {
        v
    } else {
        get_lane(w, 1)
    };
    let l2: u16 = if k == 2 {
        v
    } else {
        get_lane(w, 2)
    };
    let l3: u16 = if k == 3 {
        v
    } else {
        get_lane(w, 3)
    };
    l0 as u64 + l1 as u64 * 0x1_0000 + l2 as u64 * 0x1_0000_0000 + l3 as u64 * 0x1_0000_0000_0000
}

// ---- tiles ---------------------------------------------------------
/// A tile with every field cut to its width.
pub open spec fn masked(t: Tile) -> Tile {
    (t.0 % 4096, t.1 % 4, t.2 % 4)
}

/// The lane of a tile.
pub open spec fn tile_lane(t: Tile) -> u16 {
    ((t.0 % 4096) * 16 + (t.1 % 4) * 4 + (t.2 % 4)) as u16
}

/// The tile of a lane.
pub open spec fn lane_tile(l: u16) -> Tile {
    (l / 16, (l / 4 % 4) as u8, (l % 4) as u8)
}

/// A lane gives back the tile it was packed from, each field cut to its width.
pub proof fn lane_round_trip(t: Tile)
    ensures
        lane_tile(tile_lane(t)) == masked(t),
{
}

/// Tile `idx` of the sixteen words.
pub open spec fn tile(words: Seq<u64>, idx: int) -> Tile {
    lane_tile(lane(words[idx / 4], idx % 4))
}

/// The words with tile `idx` replaced.
pub open spec fn with_tile(words: Seq<u64>, idx: int, t: Tile) -> Seq<u64> {
    words.update(idx / 4, with_lane(words[idx / 4], idx % 4, tile_lane(t)))
}

/// A written tile reads back, cut to its widths, and every other tile stays.
pub proof fn tile_read_over_write(words: Seq<u64>, idx: int, t: Tile, j: int)
    requires
        words.len() == 16,
        0 <= idx < 64,
        0 <= j < 64,
    ensures
        tile(with_tile(words, idx, t), j) == if j == idx {
            masked(t)
        } else {
            tile(words, j)
        },
{
    if idx / 4 == j / 4 {
        lemma_with_lane(words[idx / 4], idx % 4, tile_lane(t), j % 4);
    }
    lane_round_trip(t);
}

/// Storing order: the index of the tile in column `col` of `row`.
pub fn tile_slot(col: u8, row: u8) -> (idx: usize)
    requires
        col < 8,
        row < 8,
    ensures
        idx == row * 8 + col,
        idx < 64,
{
    row as usize * 8 + col as usize
}

/// Read a tile.
pub fn tile_full(words: &[u64; 16], idx: usize) -> (t: Tile)
    requires
        idx < 64,
    ensures
        t == tile(words@, idx as int),
        t.1 <= ZONE_TILE_STOCK_MAX,
        t.2 <= ZONE_TILE_STOCK_MAX,
{
    let l: u16 = get_lane(words[idx / 4], idx % 4);
    (l / 16, (l / 4 % 4) as u8, (l % 4) as u8)
}

/// Write a tile; each field is cut to its width.
pub fn set_tile_full(words: &mut [u64; 16], idx: usize, def_id: u16, stock0: u8, stock1: u8)
    requires
        idx < 64,
    ensures
        final(words)@ == with_tile(old(words)@, idx as int, (def_id, stock0, stock1)),
{
    let l: u16 = (def_id % 4096) * 16 + (stock0 % 4) as u16 * 4 + (stock1 % 4) as u16;
    let w: u64 = set_lane(words[idx / 4], idx % 4, l);
    words[idx / 4] = w;
}

/// Read a tile's definition id.
pub fn tile_def_id(words: &[u64; 16], idx: usize) -> (d: u16)
    requires
        idx < 64,
    ensures
        d == tile(words@, idx as int).0,
{
    tile_full(words, idx).0
}

/// Stock `slot` of a tile.
pub open spec fn stock_of(t: Tile, slot: int) -> u8 {
    if slot == 0 {
        t.1
    } else {
        t.2
    }
}

/// A tile with stock `slot` replaced.
pub open spec fn with_stock(t: Tile, slot: int, value: u8) -> Tile {
    if slot == 0 {
        (t.0, value, t.2)
    } else {
        (t.0, t.1, value)
    }
}

/// Read one stock of a tile.
pub fn tile_stock(words: &[u64; 16], idx: usize, slot: usize) -> (v: u8)
    requires
        idx < 64,
        slot < 2,
    ensures
        v == stock_of(tile(words@, idx as int), slot as int),
{
    let t: Tile = tile_full(words, idx);
    if slot == 0 {
        t.1
    } else {
        t.2
    }
}

/// Write one stock of a tile.
pub fn set_tile_stock(words: &mut [u64; 16], idx: usize, slot: usize, value: u8)
    requires
        idx < 64,
        slot < 2,
    ensures
        final(words)@ == with_tile(
            old(words)@,
            idx as int,
            with_stock(tile(old(words)@, idx as int), slot as int, value),
        ),
{
    let t: Tile = tile_full(words, idx);
    if slot == 0 {
        set_tile_full(words, idx, t.0, value, t.2);
    } else {
        set_tile_full(words, idx, t.0, t.1, value);
    }
}

/// The words after writing `row`, tile by tile, up to column `n`.
pub open spec fn with_row_prefix(words: Seq<u64>, row: int, tiles: Seq<Tile>, n: nat) -> Seq<u64>
    decreases n,
{
    if n == 0 {
        words
    } else {
        with_tile(with_row_prefix(words, row, tiles, (n - 1) as nat), row * 8 + n - 1, tiles[n - 1])
    }
}

/// Write a row of eight tiles.
pub fn set_tile_row(words: &mut [u64; 16], row: usize, tiles: &[Tile; 8])
    requires
        row < 8,
    ensures
        final(words)@ == with_row_prefix(old(words)@, row as int, tiles@, 8),
{
    let ghost start = words@;
    let mut c: usize = 0;
    while c < 8
        invariant
            c <= 8,
            row < 8,
            words@ == with_row_prefix(start, row as int, tiles@, c as nat),
        decreases 8 - c,
    {
        let t: Tile = tiles[c];
        set_tile_full(words, row * 8 + c, t.0, t.1, t.2);
        c = c + 1;
    }
}

/// Read a row of eight tiles.
pub fn tile_row(words: &[u64; 16], row: usize) -> (tiles: [Tile; 8])
    requires
        row < 8,
    ensures
        forall|c: int| 0 <= c < 8 ==> #[trigger] tiles@[c] == tile(words@, row * 8 + c),
{
    let mut out: [Tile; 8] = [(0, 0, 0), (0, 0, 0), (0, 0, 0), (0, 0, 0), (0, 0, 0), (0, 0, 0), (0, 0, 0), (0, 0, 0)];
    let mut c: usize = 0;
    while c < 8
        invariant
            c <= 8,
            row < 8,
            forall|k: int| 0 <= k < c ==> #[trigger] out@[k] == tile(words@, row * 8 + k),
        decreases 8 - c,
    {
        let t: Tile = tile_full(words, row * 8 + c);
        out[c] = t;
        c = c + 1;
    }
    out
}

/// A written row reads back, and the tiles of other rows stay.
pub proof fn row_read_over_write(words: Seq<u64>, row: int, tiles: Seq<Tile>, n: nat, j: int)
    requires
        words.len() == 16,
        0 <= row < 8,
        n <= 8,
        tiles.len() == 8,
        0 <= j < 64,
    ensures
        with_row_prefix(words, row, tiles, n).len() == 16,
        tile(with_row_prefix(words, row, tiles, n), j) == if row * 8 <= j < row * 8 + n {
            masked(tiles[j - row * 8])
        } else {
            tile(words, j)
        },
    decreases n,
{
    if n > 0 {
        row_read_over_write(words, row, tiles, (n - 1) as nat, j);
        let before = with_row_prefix(words, row, tiles, (n - 1) as nat);
        tile_read_over_write(before, row * 8 + n - 1, tiles[n - 1], j);
    }
}

/// A lane is determined by its tile.
proof fn lemma_lane_of_tile(a: u16, b: u16)
    requires
        lane_tile(a) == lane_tile(b),
    ensures
        a == b,
{
    assert(a as int == a as int / 16 * 16 + a as int / 4 % 4 * 4 + a as int % 4);
    assert(b as int == b as int / 16 * 16 + b as int / 4 % 4 * 4 + b as int % 4);
}

/// A word is the sum of its lanes.
proof fn lemma_sum_of_lanes(w: u64)
    ensures
        w == lane(w, 0) + 0x1_0000 * lane(w, 1) + 0x1_0000_0000 * lane(w, 2)
            + 0x1_0000_0000_0000 * lane(w, 3),
{
    let x = w as int;
    let a = x / 0x1_0000;
    let b = a / 0x1_0000;
    let c = b / 0x1_0000;
    assert(x == 0x1_0000 * a + x % 0x1_0000);
    assert(a == 0x1_0000 * b + a % 0x1_0000);
    assert(b == 0x1_0000 * c + b % 0x1_0000);
    assert(b == x / 0x1_0000_0000);
    assert(c == x / 0x1_0000_0000_0000);
}

/// Sixteen words are determined by their sixty-four tiles.
pub proof fn words_are_their_tiles(a: Seq<u64>, b: Seq<u64>)
    requires
        a.len() == 16,
        b.len() == 16,
        forall|i: int| 0 <= i < 64 ==> #[trigger] tile(a, i) == tile(b, i),
    ensures
        a == b,
{
    assert forall|j: int| 0 <= j < 16 implies a[j] == b[j] by {
        assert forall|k: int| 0 <= k < 4 implies #[trigger] lane(a[j], k) == lane(b[j], k) by {
            let i = j * 4 + k;
            assert(i / 4 == j && i % 4 == k);
            assert(tile(a, i) == tile(b, i));
            lemma_lane_of_tile(lane(a[j], k), lane(b[j], k));
        }
        lemma_sum_of_lanes(a[j]);
        lemma_sum_of_lanes(b[j]);
        assert(lane(a[j], 0) == lane(b[j], 0));
        assert(lane(a[j], 1) == lane(b[j], 1));
        assert(lane(a[j], 2) == lane(b[j], 2));
        assert(lane(a[j], 3) == lane(b[j], 3));
    }
    assert(a =~= b);
}

} // verus!
