//! World generation: packing picked tiles into zones.
//!
//! Which tile a world hex gets is decided by a picker that the caller supplies;
//! it samples climate noise and so works in floating point.
use vstd::prelude::*;

use crate::packed;
use crate::regions::zones;
use crate::regions::zones::Zone;
use crate::regions::zones::ZoneState;
use crate::tile_words;
use crate::tile_words::Tile;

verus! {

/// The card type of the tiles of a generated zone.
pub const TILE_ZONE_TYPE: u8 = 7;

/// The seed of the world.
pub const WORLD_SEED: u64 = 0x27;

/// A signed coordinate as its two's-complement word.
pub open spec fn extended(x: i32) -> u64 {
    (if x < 0 {
        x + 0x1_0000_0000_0000_0000
    } else {
        x as int
    }) as u64
}

/// The mixer of the hash.
pub open spec fn mixed(b: u64) -> u64 {
    let c = (b ^ (b >> 33)).wrapping_mul(0xFF51_AFD7_ED55_8CCD);
    c ^ (c >> 33)
}

/// The lattice hash: one odd multiplier per axis, then a two-round mixer.
pub open spec fn lattice_hash(x: i32, y: i32, seed: u64) -> u64 {
    let a = seed ^ extended(x).wrapping_mul(0x9E37_79B9_7F4A_7C15);
    let b = a.wrapping_add(extended(y).wrapping_mul(0xC2B2_AE3D_27D4_EB4F));
    mixed(b)
}

fn extend(x: i32) -> (w: u64)
    ensures
        w == extended(x),
{
    if x < 0 {
        // The magnitude is at least 1, so the subtraction from the top stays in range.
        let magnitude: u64 = (-(x as i64)) as u64;
        u64::MAX - (magnitude - 1)
    } else {
        x as u64
    }
}

/// Deterministic hash of a lattice point.
pub fn hash2(x: i32, y: i32, seed: u64) -> (h: u64)
    ensures
        h == lattice_hash(x, y, seed),
{
    let a: u64 = seed ^ extend(x).wrapping_mul(0x9E37_79B9_7F4A_7C15);
    let b: u64 = a.wrapping_add(extend(y).wrapping_mul(0xC2B2_AE3D_27D4_EB4F));
    let c: u64 = (b ^ (b >> 33)).wrapping_mul(0xFF51_AFD7_ED55_8CCD);
    c ^ (c >> 33)
}

/// Multiplying a word by one that has an inverse loses nothing.
proof fn lemma_odd_factor(a: u64, b: u64, c: u64, inverse: int, k: int)
    requires
        c * inverse == k * 0x1_0000_0000_0000_0000 + 1,
        a.wrapping_mul(c) == b.wrapping_mul(c),
    ensures
        a == b,
{
    let m: int = 0x1_0000_0000_0000_0000;
    let x = a as int * c as int;
    let y = b as int * c as int;
    assert(x % m == y % m);
    let d = a as int - b as int;
    let q = x / m - y / m;
    assert(x == m * (x / m) + x % m);
    assert(y == m * (y / m) + y % m);
    assert(d * c as int == x - y) by (nonlinear_arith)
        requires
            d == a as int - b as int,
            x == a as int * c as int,
            y == b as int * c as int,
    ;
    assert(x - y == m * q) by (nonlinear_arith)
        requires
            x == m * (x / m) + x % m,
            y == m * (y / m) + y % m,
            x % m == y % m,
            q == x / m - y / m,
    ;
    let z = q * inverse - d * k;
    assert(d == m * z) by (nonlinear_arith)
        requires
            d * c as int == m * q,
            c as int * inverse == k * m + 1,
            z == q * inverse - d * k,
    ;
    assert(z == 0) by (nonlinear_arith)
        requires
            d == m * z,
            -m < d < m,
            m > 0,
    ;
}

proof fn lemma_shift_mix(a: u64, b: u64)
    by (bit_vector)
    requires
        a ^ (a >> 33) == b ^ (b >> 33),
    ensures
        a == b,
{
}

proof fn lemma_exclusive_or(a: u64, b: u64, s: u64, t: u64)
    by (bit_vector)
    ensures
        s ^ a == s ^ b ==> a == b,
        s ^ a == t ^ a ==> s == t,
{
}

/// The mixer loses nothing.
proof fn lemma_mixer(a: u64, b: u64)
    requires
        mixed(a) == mixed(b),
    ensures
        a == b,
{
    let x = a ^ (a >> 33);
    let y = b ^ (b >> 33);
    lemma_shift_mix(
        x.wrapping_mul(0xFF51_AFD7_ED55_8CCD),
        y.wrapping_mul(0xFF51_AFD7_ED55_8CCD),
    );
    lemma_odd_factor(x, y, 0xFF51_AFD7_ED55_8CCD, 0x4F74_430C_22A5_4005, 5_710_046_619_856_821_070);
    lemma_shift_mix(a, b);
}

/// The hash tells apart any two values of one argument while the other two stay:
/// in particular a negative coordinate and its positive counterpart.
pub proof fn hash_is_injective_in_each_argument(x: i32, y: i32, seed: u64, v: i32, other_seed: u64)
    ensures
        lattice_hash(x, y, seed) == lattice_hash(v, y, seed) ==> x == v,
        lattice_hash(x, y, seed) == lattice_hash(x, v, seed) ==> y == v,
        lattice_hash(x, y, seed) == lattice_hash(x, y, other_seed) ==> seed == other_seed,
{
    let fx: u64 = 0x9E37_79B9_7F4A_7C15;
    let fy: u64 = 0xC2B2_AE3D_27D4_EB4F;
    let wx = extended(x).wrapping_mul(fx);
    let wy = extended(y).wrapping_mul(fy);
    let vx = extended(v).wrapping_mul(fx);
    let vy = extended(v).wrapping_mul(fy);
    let b = (seed ^ wx).wrapping_add(wy);
    lemma_exclusive_or(wx, vx, seed, other_seed);
    if lattice_hash(x, y, seed) == lattice_hash(v, y, seed) {
        lemma_mixer(b, (seed ^ vx).wrapping_add(wy));
        assert(seed ^ wx == seed ^ vx);
        lemma_odd_factor(
            extended(x),
            extended(v),
            fx,
            0xF1DE_83E1_9937_733D,
            10_771_413_168_148_108_919,
        );
    }
    if lattice_hash(x, y, seed) == lattice_hash(x, v, seed) {
        lemma_mixer(b, (seed ^ wx).wrapping_add(vy));
        assert(wy == vy);
        lemma_odd_factor(
            extended(y),
            extended(v),
            fy,
            0x0BA7_9078_168D_4BAF,
            638_699_622_168_397_319,
        );
    }
    if lattice_hash(x, y, seed) == lattice_hash(x, y, other_seed) {
        lemma_mixer(b, (other_seed ^ wx).wrapping_add(wy));
        assert(seed ^ wx == other_seed ^ wx);
        lemma_exclusive_or(wx, wx, seed, other_seed);
    }
}

/// The base tile of a matched biome: `id` counts from one, `0` stands for no
/// match and falls back to the last biome.
pub open spec fn biome_base(bases: Seq<Option<u16>>, id: u16) -> u16 {
    let base = if id == 0 {
        if bases.len() == 0 {
            None
        } else {
            bases.last()
        }
    } else if id <= bases.len() {
        bases[id - 1]
    } else {
        None
    };
    match base {
        Some(p) => p % 4096,
        None => 0,
    }
}

/// Resolve the barren base tile of a hex from the biome that its climate matched.
pub fn biome_base_tile(bases: &Vec<Option<u16>>, id: u16) -> (def_id: u16)
    ensures
        def_id == biome_base(bases@, id),
{
    let base: Option<u16> = if id == 0 {
        if bases.len() == 0 {
            None
        } else {
            bases[bases.len() - 1]
        }
    } else if id as usize <= bases.len() {
        bases[id as usize - 1]
    } else {
        None
    };
    match base {
        Some(p) => p % 4096,
        None => 0,
    }
}

/// The six hex neighbours of a cell, in scan order.
pub open spec fn neighbour_offset(i: int) -> (int, int) {
    if i == 0 {
        (1, 0)
    } else if i == 1 {
        (-1, 0)
    } else if i == 2 {
        (0, 1)
    } else if i == 3 {
        (0, -1)
    } else if i == 4 {
        (1, -1)
    } else {
        (-1, 1)
    }
}

fn offset_of(i: usize) -> (d: (i32, i32))
    requires
        i < 6,
    ensures
        d.0 == neighbour_offset(i as int).0,
        d.1 == neighbour_offset(i as int).1,
        -1 <= d.0 <= 1,
        -1 <= d.1 <= 1,
{
    if i == 0 {
        (1, 0)
    } else if i == 1 {
        (-1, 0)
    } else if i == 2 {
        (0, 1)
    } else if i == 3 {
        (0, -1)
    } else if i == 4 {
        (1, -1)
    } else {
        (-1, 1)
    }
}

/// The cluster group of each of a hex's six neighbours, as `group_at` gives it.
pub fn neighbour_cluster_groups<G: Fn(i32, i32) -> u8>(q: i32, r: i32, group_at: &G) -> (groups: [u8;
    6])
    requires
        i32::MIN < q < i32::MAX,
        i32::MIN < r < i32::MAX,
        forall|a: i32, b: i32| #[trigger] group_at.requires((a, b)),
    ensures
        forall|i: int|
            0 <= i < 6 ==> group_at.ensures(
                ((q + neighbour_offset(i).0) as i32, (r + neighbour_offset(i).1) as i32),
                #[trigger] groups@[i],
            ),
{
    let mut out: [u8; 6] = [0; 6];
    let mut i: usize = 0;
    while i < 6
        invariant
            i <= 6,
            i32::MIN < q < i32::MAX,
            i32::MIN < r < i32::MAX,
            forall|a: i32, b: i32| #[trigger] group_at.requires((a, b)),
            forall|j: int|
                0 <= j < i ==> group_at.ensures(
                    ((q + neighbour_offset(j).0) as i32, (r + neighbour_offset(j).1) as i32),
                    #[trigger] out@[j],
                ),
        decreases 6 - i,
    {
        let d: (i32, i32) = offset_of(i);
        out[i] = group_at(q + d.0, r + d.1);
        i = i + 1;
    }
    out
}

/// How many of the groups are `group`.
pub open spec fn matches_in(groups: Seq<u8>, group: u8) -> nat
    decreases groups.len(),
{
    if groups.len() == 0 {
        0
    } else {
        matches_in(groups.drop_last(), group) + if groups.last() == group {
            1nat
        } else {
            0nat
        }
    }
}

/// Count the neighbours in a cluster group.
pub fn matching_neighbours(groups: &[u8; 6], group: u8) -> (n: u8)
    ensures
        n == matches_in(groups@, group),
        n <= 6,
{
    let mut n: u8 = 0;
    let mut i: usize = 0;
    while i < 6
        invariant
            i <= 6,
            n <= i,
            n == matches_in(groups@.take(i as int), group),
        decreases 6 - i,
    {
        proof {
            let next = groups@.take(i + 1);
            assert(next.drop_last() =~= groups@.take(i as int));
            assert(next.last() == groups@[i as int]);
        }
        if groups[i] == group {
            n = n + 1;
        }
        i = i + 1;
    }
    assert(groups@.take(6) =~= groups@);
    n
}

/// A tile that fits a hex's climate, with the stocks sampled for it there.
#[derive(Clone, Copy, Debug, PartialEq, Eq, Structural)]
pub struct TileCandidate {
    pub definition_id: u16,
    pub stock0: u8,
    pub stock1: u8,
}

/// The stocks of the first candidate with a definition id; none for another.
pub open spec fn stocks_of(candidates: Seq<TileCandidate>, def_id: u16) -> (u8, u8)
    decreases candidates.len(),
{
    if candidates.len() == 0 {
        (0, 0)
    } else if candidates[0].definition_id == def_id {
        (candidates[0].stock0, candidates[0].stock1)
    } else {
        stocks_of(candidates.skip(1), def_id)
    }
}

/// The tile of a hex: the picked candidate with its stocks, or the bare biome
/// tile where nothing fits the climate.
pub open spec fn chosen(candidates: Seq<TileCandidate>, picked: u16, fallback: u16) -> Tile {
    if candidates.len() == 0 {
        (fallback, 0, 0)
    } else {
        (picked, stocks_of(candidates, picked).0, stocks_of(candidates, picked).1)
    }
}

/// Settle the tile of a hex from the candidates, the weighted pick among them and
/// the biome's bare tile.
pub fn choose_tile(candidates: &Vec<TileCandidate>, picked: u16, fallback: u16) -> (t: Tile)
    ensures
        t == chosen(candidates@, picked, fallback),
{
    if candidates.len() == 0 {
        return (fallback, 0, 0);
    }
    let mut i: usize = 0;
    assert(candidates@.skip(0) =~= candidates@);
    while i < candidates.len()
        invariant
            i <= candidates.len(),
            candidates.len() > 0,
            stocks_of(candidates@, picked) == stocks_of(candidates@.skip(i as int), picked),
        decreases candidates.len() - i,
    {
        assert(candidates@.skip(i as int)[0] == candidates@[i as int]);
        assert(candidates@.skip(i as int).skip(1) =~= candidates@.skip(i + 1));
        if candidates[i].definition_id == picked {
            return (picked, candidates[i].stock0, candidates[i].stock1);
        }
        i = i + 1;
    }
    (picked, 0, 0)
}

/// `tile` is a pick for the world hex `(q, r)`, cut to the widths of a slot.
pub open spec fn is_pick<F: Fn(i32, i32, u64) -> Tile>(
    pick: F,
    q: int,
    r: int,
    seed: u64,
    tile: Tile,
) -> bool {
    exists|t: Tile| #[trigger]
        pick.ensures((q as i32, r as i32, seed), t) && tile == tile_words::masked(t)
}

/// `w` packs a pick for every hex of the zone at `(macro_q, macro_r)`: slot
/// `row * 8 + col` holds that of `(macro_q * 8 + col, macro_r * 8 + row)`.
pub open spec fn packs_picks<F: Fn(i32, i32, u64) -> Tile>(
    pick: F,
    macro_q: i16,
    macro_r: i16,
    seed: u64,
    w: Seq<u64>,
) -> bool {
    forall|i: int|
        0 <= i < 64 ==> is_pick(
            pick,
            macro_q * 8 + i % 8,
            macro_r * 8 + i / 8,
            seed,
            #[trigger] tile_words::tile(w, i),
        )
}

/// Build the tile words of the zone at `(macro_q, macro_r)`, which starts at the
/// world hex `(macro_q * 8, macro_r * 8)`.
pub fn generate_zone_tiles<F: Fn(i32, i32, u64) -> Tile>(
    macro_q: i16,
    macro_r: i16,
    seed: u64,
    pick: &F,
) -> (w: [u64; 16])
    requires
        forall|q: i32, r: i32| #[trigger] pick.requires((q, r, seed)),
    ensures
        packs_picks(*pick, macro_q, macro_r, seed, w@),
{
    let base_q: i32 = macro_q as i32 * 8;
    let base_r: i32 = macro_r as i32 * 8;
    let mut w: [u64; 16] = [0, 0, 0, 0, 0, 0, 0, 0, 0, 0, 0, 0, 0, 0, 0, 0];
    let mut idx: usize = 0;
    while idx < 64
        invariant
            idx <= 64,
            base_q == macro_q * 8,
            base_r == macro_r * 8,
            forall|q: i32, r: i32| #[trigger] pick.requires((q, r, seed)),
            forall|i: int|
                0 <= i < idx ==> is_pick(
                    *pick,
                    macro_q * 8 + i % 8,
                    macro_r * 8 + i / 8,
                    seed,
                    #[trigger] tile_words::tile(w@, i),
                ),
        decreases 64 - idx,
    {
        let q: i32 = base_q + (idx % 8) as i32;
        let r: i32 = base_r + (idx / 8) as i32;
        let t: Tile = pick(q, r, seed);
        let ghost before = w@;
        tile_words::set_tile_full(&mut w, idx, t.0, t.1, t.2);
        assert forall|i: int| 0 <= i < idx + 1 implies is_pick(
            *pick,
            macro_q * 8 + i % 8,
            macro_r * 8 + i / 8,
            seed,
            #[trigger] tile_words::tile(w@, i),
        ) by {
            tile_words::tile_read_over_write(before, idx as int, t, i);
            if i == idx {
                assert(pick.ensures((q, r, seed), t));
                assert(q == macro_q * 8 + i % 8);
                assert(r == macro_r * 8 + i / 8);
            } else {
                assert(tile_words::tile(before, i) == tile_words::tile(w@, i));
            }
        }
        idx = idx + 1;
    }
    w
}

// ---- terrain -------------------------------------------------------
/// The zones `(q, r)` of a disk with `r` below `r_end`, in ascending order.
pub open spec fn disk_column(radius: int, q: int, r_end: int) -> Seq<(i16, i16)>
    decreases r_end + radius,
{
    if r_end <= -radius {
        Seq::empty()
    } else {
        let before = disk_column(radius, q, r_end - 1);
        if zones::hex_len(q, r_end - 1) <= radius {
            before.push((q as i16, (r_end - 1) as i16))
        } else {
            before
        }
    }
}

/// The zones of a disk around the origin with `q` below `q_end`, column by column.
pub open spec fn disk_cells(radius: int, q_end: int) -> Seq<(i16, i16)>
    decreases q_end + radius,
{
    if q_end <= -radius {
        Seq::empty()
    } else {
        disk_cells(radius, q_end - 1) + disk_column(radius, q_end - 1, radius + 1)
    }
}

/// The zones of the disk of `radius` around the origin.
pub open spec fn disk(radius: int) -> Seq<(i16, i16)> {
    disk_cells(radius, radius + 1)
}

fn magnitude(x: i32) -> (a: i32)
    requires
        x > i32::MIN,
    ensures
        a == zones::abs(x as int),
{
    if x < 0 {
        -x
    } else {
        x
    }
}

/// Enumerate the zones of a disk.
pub fn disk_coords(radius: i16) -> (cells: Vec<(i16, i16)>)
    requires
        0 <= radius <= 16383,
    ensures
        cells@ == disk(radius as int),
{
    let mut cells: Vec<(i16, i16)> = Vec::new();
    let mut q: i16 = -radius;
    while q <= radius
        invariant
            0 <= radius <= 16383,
            -radius <= q <= radius + 1,
            cells@ == disk_cells(radius as int, q as int),
        decreases radius + 1 - q,
    {
        let ghost before = cells@;
        let mut r: i16 = -radius;
        assert(before + Seq::<(i16, i16)>::empty() =~= before);
        while r <= radius
            invariant
                0 <= radius <= 16383,
                -radius <= q <= radius,
                -radius <= r <= radius + 1,
                cells@ == before + disk_column(radius as int, q as int, r as int),
            decreases radius + 1 - r,
        {
            if (magnitude(q as i32) + magnitude(r as i32) + magnitude(q as i32 + r as i32)) / 2
                <= radius as i32 {
                cells.push((q, r));
            }
            r = r + 1;
            assert(cells@ =~= before + disk_column(radius as int, q as int, r as int));
        }
        q = q + 1;
    }
    cells
}

/// The disk holds exactly the zones within `radius` of the origin.
pub proof fn disk_is_complete(radius: int, q: i16, r: i16)
    requires
        0 <= radius <= 16383,
    ensures
        disk(radius).contains((q, r)) <==> zones::hex_len(q as int, r as int) <= radius,
{
    lemma_disk_cells(radius, radius + 1, q, r);
}

proof fn lemma_disk_column(radius: int, q: int, r_end: int, r: i16, p: i16)
    requires
        0 <= radius <= 16383,
        -radius <= q <= radius,
        -radius <= r_end <= radius + 1,
    ensures
        disk_column(radius, q, r_end).contains((p, r)) <==> p == q && r < r_end && zones::hex_len(
            q,
            r as int,
        ) <= radius,
    decreases r_end + radius,
{
    if r_end > -radius {
        lemma_disk_column(radius, q, r_end - 1, r, p);
        let before = disk_column(radius, q, r_end - 1);
        let out = disk_column(radius, q, r_end);
        if before.contains((p, r)) {
            let i = choose|i: int| 0 <= i < before.len() && before[i] == (p, r);
            assert(out[i] == (p, r));
        }
        if out.contains((p, r)) {
            let i = choose|i: int| 0 <= i < out.len() && out[i] == (p, r);
            if i < before.len() {
                assert(before[i] == (p, r));
            }
        }
        if p == q && r == r_end - 1 && zones::hex_len(q, r as int) <= radius {
            assert(out[out.len() - 1] == (p, r));
        }
    }
}

proof fn lemma_disk_cells(radius: int, q_end: int, q: i16, r: i16)
    requires
        0 <= radius <= 16383,
        -radius <= q_end <= radius + 1,
    ensures
        disk_cells(radius, q_end).contains((q, r)) <==> q < q_end && zones::hex_len(
            q as int,
            r as int,
        ) <= radius,
    decreases q_end + radius,
{
    if q_end > -radius {
        lemma_disk_cells(radius, q_end - 1, q, r);
        lemma_disk_column(radius, q_end - 1, radius + 1, r, q);
        let a = disk_cells(radius, q_end - 1);
        let b = disk_column(radius, q_end - 1, radius + 1);
        let out = disk_cells(radius, q_end);
        if a.contains((q, r)) {
            let i = choose|i: int| 0 <= i < a.len() && a[i] == (q, r);
            assert(out[i] == (q, r));
        }
        if b.contains((q, r)) {
            let i = choose|i: int| 0 <= i < b.len() && b[i] == (q, r);
            assert(out[a.len() + i] == (q, r));
        }
        if out.contains((q, r)) {
            let i = choose|i: int| 0 <= i < out.len() && out[i] == (q, r);
            if i < a.len() {
                assert(a[i] == (q, r));
            } else {
                assert(b[i - a.len()] == (q, r));
            }
        }
    }
}

/// The location key of a world zone.
pub open spec fn world_zone(q: i16, r: i16) -> u64 {
    packed::on_surface(packed::macro_zone_key(0, 0, q as i32, r as i32), packed::WORLD_LAYER)
}

/// Zone rows, and the next fresh zone id, after writing the tile words of the
/// given zones: an existing zone gets a new version, a missing one is created.
pub open spec fn terrain(s: ZoneState, cells: Seq<(i16, i16)>, words: Seq<[u64; 16]>, now: u64) -> (
    ZoneState,
    u32,
)
    decreases cells.len(),
{
    if cells.len() == 0 {
        (s, zones::fresh_zone_id(s.rows))
    } else {
        let before = terrain(s, cells.drop_last(), words, now);
        let w = words[cells.len() - 1]@;
        let m = world_zone(cells.last().0, cells.last().1);
        match zones::latest_on(before.0.rows, m) {
            Some(z) => (
                zones::latest_edited(
                    before.0,
                    z.zone_id,
                    now,
                    |old_zone: Zone| zones::with_words(old_zone, w),
                ).0,
                before.1,
            ),
            None => (
                zones::zone_written(
                    before.0,
                    zones::fresh_zone(
                        before.1,
                        m,
                        packed::zone_definition_word(TILE_ZONE_TYPE),
                        0,
                        w,
                    ),
                    now,
                ),
                if before.1 == u32::MAX {
                    before.1
                } else {
                    (before.1 + 1) as u32
                },
            ),
        }
    }
}

/// The radius is negative.
#[derive(Clone, Copy, Debug, PartialEq, Eq, Structural)]
pub struct NegativeRadius;

/// Each of `words` packs the picks of its zone.
pub open spec fn picked<F: Fn(i32, i32, u64) -> Tile>(
    pick: F,
    cells: Seq<(i16, i16)>,
    seed: u64,
    words: Seq<[u64; 16]>,
) -> bool {
    words.len() == cells.len() && forall|i: int|
        0 <= i < cells.len() ==> packs_picks(
            pick,
            cells[i].0,
            cells[i].1,
            seed,
            #[trigger] words[i]@,
        )
}

fn pick_all<F: Fn(i32, i32, u64) -> Tile>(cells: &Vec<(i16, i16)>, seed: u64, pick: &F) -> (words: Vec<
    [u64; 16],
>)
    requires
        forall|q: i32, r: i32| #[trigger] pick.requires((q, r, seed)),
    ensures
        picked(*pick, cells@, seed, words@),
{
    let mut words: Vec<[u64; 16]> = Vec::new();
    let mut i: usize = 0;
    while i < cells.len()
        invariant
            i <= cells.len(),
            words.len() == i,
            forall|q: i32, r: i32| #[trigger] pick.requires((q, r, seed)),
            forall|j: int|
                0 <= j < i ==> packs_picks(
                    *pick,
                    cells@[j].0,
                    cells@[j].1,
                    seed,
                    #[trigger] words@[j]@,
                ),
        decreases cells.len() - i,
    {
        words.push(generate_zone_tiles(cells[i].0, cells[i].1, seed, pick));
        i = i + 1;
    }
    words
}

/// Generate terrain for every zone in a disk of `radius` zones around the origin.
/// The radius is at most `16383`, so that the sums of the disk test stay in range.
pub fn generate_forest_terrain<F: Fn(i32, i32, u64) -> Tile>(
    rows: &mut Vec<Zone>,
    seq: &mut u16,
    now_ms: u64,
    seed: u64,
    radius: i16,
    pick: &F,
) -> (r: Result<(), NegativeRadius>)
    requires
        radius <= 16383,
        forall|q: i32, r: i32| #[trigger] pick.requires((q, r, seed)),
    ensures
        radius < 0 ==> r is Err && final(rows)@ == old(rows)@ && *final(seq) == *old(seq),
        radius >= 0 ==> r is Ok && exists|words: Seq<[u64; 16]>|
            {
                &&& #[trigger] picked(*pick, disk(radius as int), seed, words)
                &&& (ZoneState { rows: final(rows)@, seq: *final(seq) }) == terrain(
                    ZoneState { rows: old(rows)@, seq: *old(seq) },
                    disk(radius as int),
                    words,
                    now_ms,
                ).0
            },
{
    if radius < 0 {
        return Err(NegativeRadius);
    }
    let ghost s0 = ZoneState { rows: rows@, seq: *seq };
    let zone_def: u8 = packed::pack_zone_definition(TILE_ZONE_TYPE);
    let mut next_zone_id: u32 = zones::next_zone_id(rows);
    let cells: Vec<(i16, i16)> = disk_coords(radius);
    let words: Vec<[u64; 16]> = pick_all(&cells, seed, pick);
    let mut i: usize = 0;
    assert(cells@.take(0) =~= Seq::empty());
    while i < cells.len()
        invariant
            i <= cells.len(),
            words.len() == cells.len(),
            zone_def == packed::zone_definition_word(TILE_ZONE_TYPE),
            (ZoneState { rows: rows@, seq: *seq }, next_zone_id) == terrain(
                s0,
                cells@.take(i as int),
                words@,
                now_ms,
            ),
        decreases cells.len() - i,
    {
        proof {
            let next = cells@.take(i + 1);
            assert(next.drop_last() =~= cells@.take(i as int));
            assert(next.last() == cells@[i as int]);
        }
        let c: (i16, i16) = cells[i];
        let m: u64 = packed::with_surface(
            packed::pack_macro_zone(c.0 as i32, c.1 as i32),
            packed::WORLD_LAYER,
        );
        match zones::latest_for(rows, m) {
            Some(z) => {
                let _ = zones::set_tile_rows(rows, seq, now_ms, z.zone_id, &words[i]);
            },
            None => {
                let _ = zones::create(rows, seq, now_ms, next_zone_id, m, zone_def, 0, &words[i]);
                next_zone_id = if next_zone_id == u32::MAX {
                    next_zone_id
                } else {
                    next_zone_id + 1
                };
            },
        }
        i = i + 1;
    }
    assert(cells@.take(cells.len() as int) =~= cells@);
    assert(picked(*pick, disk(radius as int), seed, words@));
    Ok(())
}

/// The picker gives one tile for one hex and seed.
pub open spec fn picks_one<F: Fn(i32, i32, u64) -> Tile>(pick: F) -> bool {
    forall|q: i32, r: i32, seed: u64, a: Tile, b: Tile|
        #[trigger] pick.ensures((q, r, seed), a) && #[trigger] pick.ensures((q, r, seed), b) ==> a
            == b
}

/// With a picker that gives one tile for one hex, the words of a zone are a
/// function of its coordinates and the seed.
pub proof fn terrain_follows_from_the_seed<F: Fn(i32, i32, u64) -> Tile>(
    pick: F,
    macro_q: i16,
    macro_r: i16,
    seed: u64,
    a: Seq<u64>,
    b: Seq<u64>,
)
    requires
        picks_one(pick),
        a.len() == 16,
        b.len() == 16,
        packs_picks(pick, macro_q, macro_r, seed, a),
        packs_picks(pick, macro_q, macro_r, seed, b),
    ensures
        a == b,
{
    assert forall|i: int| 0 <= i < 64 implies #[trigger] tile_words::tile(a, i)
        == tile_words::tile(b, i) by {
        assert(is_pick(
            pick,
            macro_q * 8 + i % 8,
            macro_r * 8 + i / 8,
            seed,
            tile_words::tile(a, i),
        ));
        assert(is_pick(
            pick,
            macro_q * 8 + i % 8,
            macro_r * 8 + i / 8,
            seed,
            tile_words::tile(b, i),
        ));
    }
    tile_words::words_are_their_tiles(a, b);
}

} // verus!
