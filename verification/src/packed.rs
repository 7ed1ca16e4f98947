//! Bit-packed keys and addresses shared by every table.
//!
//! All formats are stated arithmetically: a packed word is a mixed-radix
//! number, its fields are quotients and remainders.
use vstd::prelude::*;

verus! {

/// Number of representable `time_ms` values inside a `valid_at` key (48 bits).
pub const TIME_RADIX: u64 = 0x1_0000_0000_0000;

/// Number of sequence values inside a `valid_at` key (16 bits).
pub const SEQ_RADIX: u64 = 0x1_0000;

/// The key `[time_ms:u48 | seq:u16]`.
pub open spec fn valid_at_key(time_ms: u64, sequence: u16) -> u64 {
    ((time_ms as int % 0x1_0000_0000_0000) * 0x1_0000 + sequence as int) as u64
}

/// The `time_ms` part of a `[time_ms:u48 | seq:u16]` key.
pub open spec fn time_of(v: u64) -> u64 {
    v / 0x1_0000
}

/// Pack `(time_ms, sequence)` into the `u64` primary key. Only the low 48
/// bits of `time_ms` are kept.
pub fn pack_valid_at(time_ms: u64, sequence: u16) -> (v: u64)
    ensures
        v == valid_at_key(time_ms, sequence),
        time_of(v) == time_ms as int % 0x1_0000_0000_0000,
{
    (time_ms % TIME_RADIX) * SEQ_RADIX + sequence as u64
}

/// Extract the `time_ms` half of a packed `valid_at`.
pub fn valid_at_time(v: u64) -> (t: u64)
    ensures
        t == time_of(v),
{
    v / SEQ_RADIX
}

/// A key gives back the time and the sequence that were packed into it.
pub proof fn valid_at_round_trip(time_ms: u64, sequence: u16)
    requires
        time_ms < TIME_RADIX,
    ensures
        time_of(valid_at_key(time_ms, sequence)) == time_ms,
        valid_at_key(time_ms, sequence) % 0x1_0000 == sequence,
{
}

/// Keys order first by time, then by sequence.
pub proof fn valid_at_orders_by_time(t1: u64, s1: u16, t2: u64, s2: u16)
    requires
        t1 < TIME_RADIX,
        t2 < TIME_RADIX,
    ensures
        valid_at_key(t1, s1) < valid_at_key(t2, s2) <==> (t1 < t2 || (t1 == t2 && s1 < s2)),
{
}

// ---- location keys -------------------------------------------------
/// Surface of inventories.
pub const INVENTORY_LAYER: u8 = 1;

/// Surface of a player's private dimension.
pub const PLAYER_DIMENSION_LAYER: u8 = 62;

/// Surface of the tiles inside a deployed mini zone.
pub const MINI_ZONE_LAYER: u8 = 63;

/// Surface of the world grid.
pub const WORLD_LAYER: u8 = 64;

/// Branch value of a stack member whose place is resolved later.
pub const STACK_STATE_DEFERRED: u8 = 3;

/// Reading of a 12-bit field as a signed number.
pub open spec fn signed12(v: int) -> int {
    if v >= 2048 {
        v - 4096
    } else {
        v
    }
}

/// The location key `[owner:u32 | surface:u8 | q:i12 | r:i12]`.
pub open spec fn macro_zone_key(owner: u32, surface: u8, q: i32, r: i32) -> u64 {
    (owner * 0x1_0000_0000 + surface * 0x100_0000 + (q as int % 4096) * 4096 + (r as int
        % 4096)) as u64
}

/// The zone coordinates of a location key.
pub open spec fn zone_coords(m: u64) -> (i32, i32) {
    (signed12(m as int / 4096 % 4096) as i32, signed12(m as int % 4096) as i32)
}

/// `m` with its surface byte replaced.
pub open spec fn on_surface(m: u64, surface: u8) -> u64 {
    (m as int / 0x1_0000_0000 * 0x1_0000_0000 + surface * 0x100_0000 + m as int
        % 0x100_0000) as u64
}

/// The low 12 bits of a signed number.
fn low12(x: i32) -> (v: u64)
    ensures
        v == x as int % 4096,
{
    ((x as i64 + 0x1_0000_0000) as u64) % 4096
}

fn sign_extend12(v: u64) -> (x: i32)
    requires
        v < 4096,
    ensures
        x == signed12(v as int),
{
    if v >= 2048 {
        v as i32 - 4096
    } else {
        v as i32
    }
}

/// Pack a full location key.
pub fn pack_macro_zone_full(owner: u32, surface: u8, q: i32, r: i32) -> (m: u64)
    ensures
        m == macro_zone_key(owner, surface, q, r),
        m == owner * 0x1_0000_0000 + surface * 0x100_0000 + (q as int % 4096) * 4096 + (r as int
            % 4096),
{
    owner as u64 * 0x1_0000_0000 + surface as u64 * 0x100_0000 + low12(q) * 4096 + low12(r)
}

/// Pack zone coordinates on surface 0 of the world owner.
pub fn pack_macro_zone(q: i32, r: i32) -> (m: u64)
    ensures
        m == macro_zone_key(0, 0, q, r),
{
    pack_macro_zone_full(0, 0, q, r)
}

/// Zone coordinates of a location key.
pub fn unpack_macro_zone(m: u64) -> (c: (i32, i32))
    ensures
        c == zone_coords(m),
        -2048 <= c.0 < 2048,
        -2048 <= c.1 < 2048,
{
    (sign_extend12(m / 4096 % 4096), sign_extend12(m % 4096))
}

/// Replace the surface byte of a location key.
pub fn with_surface(m: u64, surface: u8) -> (out: u64)
    ensures
        out == on_surface(m, surface),
{
    m / 0x1_0000_0000 * 0x1_0000_0000 + surface as u64 * 0x100_0000 + m % 0x100_0000
}

pub open spec fn surface(m: u64) -> u8 {
    (m as int / 0x100_0000 % 0x100) as u8
}

/// The surface byte of a location key.
pub fn surface_of(m: u64) -> (s: u8)
    ensures
        s == surface(m),
{
    (m / 0x100_0000 % 0x100) as u8
}

pub open spec fn owner(m: u64) -> u32 {
    (m as int / 0x1_0000_0000) as u32
}

/// The owner band of a location key.
pub fn owner_of(m: u64) -> (o: u32)
    ensures
        o == owner(m),
{
    (m / 0x1_0000_0000) as u32
}

/// A location key gives back its owner, surface and coordinates.
pub proof fn macro_zone_round_trip(o: u32, s: u8, q: i32, r: i32)
    requires
        -2048 <= q < 2048,
        -2048 <= r < 2048,
    ensures
        owner(macro_zone_key(o, s, q, r)) == o,
        surface(macro_zone_key(o, s, q, r)) == s,
        zone_coords(macro_zone_key(o, s, q, r)) == (q, r),
{
    let k = o * 0x1_0000_0000 + s * 0x100_0000 + (q as int % 4096) * 4096 + (r as int % 4096);
    assert(k / 0x1_0000_0000 == o);
    assert(k / 0x100_0000 == o * 256 + s);
    assert(k / 4096 == (o * 256 + s) * 4096 + (q as int % 4096));
}

/// Replacing the surface changes the surface and nothing else.
pub proof fn on_surface_isolates(m: u64, s: u8)
    ensures
        surface(on_surface(m, s)) == s,
        owner(on_surface(m, s)) == owner(m),
        zone_coords(on_surface(m, s)) == zone_coords(m),
{
    let hi = m as int / 0x1_0000_0000;
    let lo = m as int % 0x100_0000;
    let k = hi * 0x1_0000_0000 + s * 0x100_0000 + lo;
    assert(0 <= k <= u64::MAX);
    assert(k / 0x1_0000_0000 == hi);
    assert(k / 0x100_0000 == hi * 256 + s);
    assert(k / 4096 == (hi * 256 + s) * 4096 + lo / 4096);
    assert(m as int / 4096 % 4096 == lo / 4096);
}

// ---- loose cells ---------------------------------------------------
/// The loose cell word `[local_q:3 | local_r:3 | x:i12 | y:i12 | 0:2]`.
pub open spec fn micro_loose_word(q: u8, r: u8, x: i16, y: i16) -> u32 {
    ((q % 8) * 0x2000_0000 + (r % 8) * 0x400_0000 + (x as int % 4096) * 0x4000 + (y as int % 4096)
        * 4) as u32
}

/// The fields of a loose cell word.
pub open spec fn micro_loose_fields(m: u32) -> (u8, u8, i16, i16) {
    (
        (m as int / 0x2000_0000) as u8,
        (m as int / 0x400_0000 % 8) as u8,
        signed12(m as int / 0x4000 % 4096) as i16,
        signed12(m as int / 4 % 4096) as i16,
    )
}

/// Pack a loose cell with its offset.
pub fn pack_micro_loose(q: u8, r: u8, x: i16, y: i16) -> (m: u32)
    ensures
        m == micro_loose_word(q, r, x, y),
{
    (q % 8) as u32 * 0x2000_0000 + (r % 8) as u32 * 0x400_0000 + low12(x as i32) as u32 * 0x4000
        + low12(y as i32) as u32 * 4
}

/// Unpack a loose cell with its offset.
pub fn unpack_micro_loose(m: u32) -> (f: (u8, u8, i16, i16))
    ensures
        f == micro_loose_fields(m),
        f.0 < 8,
        f.1 < 8,
{
    (
        (m / 0x2000_0000) as u8,
        (m / 0x400_0000 % 8) as u8,
        sign_extend12((m / 0x4000 % 4096) as u64) as i16,
        sign_extend12((m / 4 % 4096) as u64) as i16,
    )
}

/// The `(q, r)` cell of a loose word.
pub fn micro_loose_cell(m: u32) -> (c: (u8, u8))
    ensures
        c == (micro_loose_fields(m).0, micro_loose_fields(m).1),
        c.0 < 8,
        c.1 < 8,
{
    ((m / 0x2000_0000) as u8, (m / 0x400_0000 % 8) as u8)
}

/// A loose word gives back its cell and offset.
pub proof fn micro_loose_round_trip(q: u8, r: u8, x: i16, y: i16)
    requires
        q < 8,
        r < 8,
        -2048 <= x < 2048,
        -2048 <= y < 2048,
    ensures
        micro_loose_fields(micro_loose_word(q, r, x, y)) == (q, r, x, y),
{
    let k = q * 0x2000_0000 + r * 0x400_0000 + (x as int % 4096) * 0x4000 + (y as int % 4096) * 4;
    assert(0 <= k <= u32::MAX);
    assert(k / 4 == ((q * 8 + r) * 4096 + (x as int % 4096)) * 4096 + (y as int % 4096));
    assert(k / 0x4000 == (q * 8 + r) * 4096 + (x as int % 4096));
    assert(k / 0x400_0000 == q * 8 + r);
    assert(k / 0x2000_0000 == q);
}

// ---- card ids ------------------------------------------------------
/// Database selector of the owner-card databases.
pub const CARD_DB_CARDS: u8 = 0;

/// Database selector of the region databases.
pub const CARD_DB_REGIONS: u8 = 1;

/// Largest local id (20 bits).
pub const CARD_LOCAL_MASK: u32 = 0xF_FFFF;

/// Largest shard id (11 bits).
pub const CARD_SHARD_MAX: u16 = 0x7FF;

/// The card id `[db:1 | shard:11 | local:20]`.
pub open spec fn card_id_word(db: u8, shard: u16, local: u32) -> u32 {
    ((db % 2) * 0x8000_0000 + (shard % 0x800) * 0x10_0000 + local % 0x10_0000) as u32
}

/// Compose a card id from its database, shard and local part.
pub fn pack_card_id(db: u8, shard: u16, local: u32) -> (id: u32)
    ensures
        id == card_id_word(db, shard, local),
        id == (db % 2) * 0x8000_0000 + (shard % 0x800) * 0x10_0000 + local % 0x10_0000,
{
    (db % 2) as u32 * 0x8000_0000 + (shard % 0x800) as u32 * 0x10_0000 + local % 0x10_0000
}

pub open spec fn card_local(id: u32) -> u32 {
    id % 0x10_0000
}

/// The local part of a card id.
pub fn card_local_of(id: u32) -> (local: u32)
    ensures
        local == card_local(id),
        local <= CARD_LOCAL_MASK,
{
    id % 0x10_0000
}

pub open spec fn card_shard(id: u32) -> u16 {
    (id / 0x10_0000 % 0x800) as u16
}

/// The shard part of a card id.
pub fn card_shard_of(id: u32) -> (shard: u16)
    ensures
        shard == card_shard(id),
{
    (id / 0x10_0000 % 0x800) as u16
}

/// A card id gives back its parts, and distinct locals give distinct ids.
pub proof fn card_id_round_trip(db: u8, shard: u16, local: u32)
    requires
        db < 2,
        shard <= CARD_SHARD_MAX,
        local <= CARD_LOCAL_MASK,
    ensures
        card_local(card_id_word(db, shard, local)) == local,
        card_shard(card_id_word(db, shard, local)) == shard,
        card_id_word(db, shard, local) / 0x8000_0000 == db,
{
}

// ---- definitions ---------------------------------------------------
/// Mask of the definition id inside a packed definition.
pub const DEF_ID_MASK: u16 = 0x0FFF;

/// The packed definition `[card_type:u4 | def_id:u12]`.
pub open spec fn definition_word(card_type: u8, def_id: u16) -> u16 {
    ((card_type % 16) * 4096 + def_id % 4096) as u16
}

pub open spec fn card_type(packed: u16) -> u8 {
    (packed / 4096) as u8
}

pub open spec fn def_id(packed: u16) -> u16 {
    packed % 4096
}

/// Pack a card type and a definition id.
pub fn pack_definition(card_type: u8, def_id: u16) -> (p: u16)
    ensures
        p == definition_word(card_type, def_id),
{
    (card_type % 16) as u16 * 4096 + def_id % 4096
}

/// Unpack a definition into `(card_type, def_id)`.
pub fn unpack_definition(packed: u16) -> (d: (u8, u16))
    ensures
        d == (card_type(packed), def_id(packed)),
        d.0 < 16,
        d.1 < 4096,
{
    ((packed / 4096) as u8, packed % 4096)
}

/// The zone definition `[card_type:u4 | 0:u4]`.
pub open spec fn zone_definition_word(card_type: u8) -> u8 {
    ((card_type % 16) * 16) as u8
}

/// Pack the card type of a zone's tiles.
pub fn pack_zone_definition(card_type: u8) -> (p: u8)
    ensures
        p == zone_definition_word(card_type),
{
    (card_type % 16) * 16
}

/// The card type of a zone's tiles.
pub fn unpack_zone_definition(packed: u8) -> (card_type: u8)
    ensures
        card_type == packed / 16,
        card_type < 16,
{
    packed / 16
}

/// A packed definition gives back its type and id.
pub proof fn definition_round_trip(t: u8, d: u16)
    requires
        t < 16,
        d < 4096,
    ensures
        card_type(definition_word(t, d)) == t,
        def_id(definition_word(t, d)) == d,
        zone_definition_word(t) / 16 == t,
{
}

// ---- region geometry -----------------------------------------------
/// Cells along one side of a zone.
pub const ZONE_SIZE: i32 = 7;

/// Zones along one side of a region.
pub const REGION_SIZE: i32 = 7;

/// The global tile coordinate of a zone's local cell, along one axis.
pub open spec fn tile_coord(zone: i32, local: u8) -> int {
    zone * 7 + local
}

/// The global tile coordinate of a zone's local cell, along one axis.
pub fn world_tile(zone: i32, local: u8) -> (t: i32)
    requires
        -0x100_0000 <= zone <= 0x100_0000,
    ensures
        t == tile_coord(zone, local),
{
    zone * ZONE_SIZE + local as i32
}

/// The region that governs a zone, and the zone's slot in it.
pub open spec fn governing_region(m: u64) -> (u64, u8) {
    let z = zone_coords(m);
    (
        macro_zone_key(owner(m), surface(m), (z.0 / 7) as i32, (z.1 / 7) as i32),
        (z.1 % 7 * 7 + z.0 % 7) as u8,
    )
}

/// The zone at a slot of a region.
pub open spec fn zone_at_slot(region_q: i32, region_r: i32, slot: u8) -> (int, int) {
    (region_q * 7 + slot % 7, region_r * 7 + slot / 7)
}

/// The key of a region: the layout of a zone key, in region units.
pub fn pack_macro_region(owner: u32, surface: u8, region_q: i32, region_r: i32) -> (m: u64)
    ensures
        m == macro_zone_key(owner, surface, region_q, region_r),
{
    pack_macro_zone_full(owner, surface, region_q, region_r)
}

/// The region that governs a zone, and the zone's slot in it.
pub fn region_of_zone(m: u64) -> (r: (u64, u8))
    ensures
        r == governing_region(m),
        r.1 < 49,
{
    let z: (i32, i32) = unpack_macro_zone(m);
    let q: u32 = (z.0 + 2051) as u32;
    let r: u32 = (z.1 + 2051) as u32;
    let region_q: i32 = (q / 7) as i32 - 293;
    let region_r: i32 = (r / 7) as i32 - 293;
    let slot: u8 = (r % 7 * 7 + q % 7) as u8;
    (pack_macro_zone_full(owner_of(m), surface_of(m), region_q, region_r), slot)
}

/// The zone at a slot of a region.
pub fn zone_of_region_slot(region_q: i32, region_r: i32, slot: u8) -> (z: (i32, i32))
    requires
        -0x10_0000 <= region_q <= 0x10_0000,
        -0x10_0000 <= region_r <= 0x10_0000,
    ensures
        (z.0 as int, z.1 as int) == zone_at_slot(region_q, region_r, slot),
{
    (region_q * REGION_SIZE + (slot % 7) as i32, region_r * REGION_SIZE + (slot / 7) as i32)
}

/// A zone stands at its slot in its governing region.
pub proof fn region_slot_round_trip(m: u64)
    ensures
        ({
            let g = governing_region(m);
            let c = zone_coords(g.0);
            let z = zone_coords(m);
            g.1 < 49 && zone_at_slot(c.0, c.1, g.1) == (z.0 as int, z.1 as int)
        }),
{
    let z = zone_coords(m);
    macro_zone_round_trip(owner(m), surface(m), (z.0 / 7) as i32, (z.1 / 7) as i32);
}

} // verus!
