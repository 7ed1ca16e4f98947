//! Mini zones: a radius-3 hex disk over the world, anchored to a card.
//!
//! The zone of a mini zone stands at `(owner = anchor, MINI_ZONE_LAYER)`, and
//! the cards on it share that location.
use vstd::prelude::*;

use crate::actions::tape::HexLocation;
use crate::cards::cards;
use crate::cards::cards::Card;
use crate::cards::cards::MicroPlace;
use crate::cards::env::Env;
use crate::cards::laws;
use crate::cards::micro::Micro;
use crate::content;
use crate::history;
use crate::packed;
use crate::players::lifecycle_pending;
use crate::players::lifecycle_pending::Blocked;
use crate::players::players;
use crate::players::players::ConnectionId;
use crate::players::players::PlayerError;
use crate::players::relocation;
use crate::regions::regions;
use crate::regions::zones;
use crate::regions::zones::Zone;
use crate::tables::Db;
use crate::tables::Tables;

verus! {

/// Radius of the footprint.
pub const MINI_ZONE_RADIUS: i32 = 3;

/// Cell of the tile grid that lies under the anchor.
pub const MINI_ZONE_CENTER: i32 = 3;

/// Cells along one side of a zone on the global axis.
pub const ZONE_SPAN: i32 = 8;

/// Card type of tile zones.
pub const TILE_TYPE: u8 = 7;

/// Why a mini zone cannot be deployed or picked up.
#[derive(Clone, Copy, Debug, PartialEq, Eq, Structural)]
pub enum MiniZoneError {
    Caller(PlayerError),
    Blocked(Blocked),
    AnchorMissing { card_id: u32 },
    AnchorDead { card_id: u32 },
    NotOwned { card_id: u32, owner: u32 },
    /// No soul in the anchor's owner chain.
    NoSoul { card_id: u32 },
    NotAMiniZone { card_id: u32 },
    /// The anchor stands on another surface than the operation takes it from.
    WrongSurface { surface: u8 },
    TargetNotLoose,
    /// No world zone at the target.
    Unmapped { location: u64 },
    Occupied,
}

// ---- geometry ------------------------------------------------------
/// The definition is registered and of the mini-zone card type.
pub open spec fn is_anchor_definition(e: Env, packed_definition: u16) -> bool {
    &&& e.catalog.mini_zone_type == Some(packed::card_type(packed_definition))
    &&& content::definition(e.catalog.definitions@, packed_definition) is Some
}

/// True iff this definition is of the mini-zone type.
pub fn is_mini_zone_card(e: &Env, packed_definition: u16) -> (r: bool)
    ensures
        r == is_anchor_definition(*e, packed_definition),
{
    match e.catalog.mini_zone_type {
        None => false,
        Some(t) => packed::unpack_definition(packed_definition).0 == t
            && e.catalog.decode_definition(packed_definition).is_some(),
    }
}

/// Hex distance between two axial coordinates.
pub fn hex_distance(a: (i32, i32), b: (i32, i32)) -> (d: i32)
    requires
        -0x800_0000 <= a.0 <= 0x800_0000,
        -0x800_0000 <= a.1 <= 0x800_0000,
        -0x800_0000 <= b.0 <= 0x800_0000,
        -0x800_0000 <= b.1 <= 0x800_0000,
    ensures
        d == zones::hex_len(a.0 - b.0, a.1 - b.1),
{
    regions::hex_dist(a.0, a.1, b.0, b.1)
}

/// The global hex coordinates of a cell of a zone.
pub open spec fn hex_of(location: u64, local_q: u8, local_r: u8) -> (i32, i32) {
    let c = packed::zone_coords(location);
    ((c.0 * 8 + local_q) as i32, (c.1 * 8 + local_r) as i32)
}

/// Global hex coordinates of a cell.
pub fn global_hex(location: u64, local_q: u8, local_r: u8) -> (h: (i32, i32))
    ensures
        h == hex_of(location, local_q, local_r),
        -0x1_0000 <= h.0 <= 0x1_0000,
        -0x1_0000 <= h.1 <= 0x1_0000,
{
    let c: (i32, i32) = packed::unpack_macro_zone(location);
    (c.0 * ZONE_SPAN + local_q as i32, c.1 * ZONE_SPAN + local_r as i32)
}

/// The global hex of a loose card.
pub open spec fn card_hex(e: Env, c: Card) -> Option<(i32, i32)> {
    match cards::placement(e, c) {
        Micro::Loose { local_q, local_r, x, y, kind } => Some(
            hex_of(c.macro_zone, local_q, local_r),
        ),
        Micro::Stacked { root, branch, index } => None,
    }
}

fn hex_of_card(e: &Env, c: &Card) -> (h: Option<(i32, i32)>)
    requires
        e.wf(),
    ensures
        h == card_hex(*e, *c),
        h matches Some(p) ==> -0x1_0000 <= p.0 <= 0x1_0000 && -0x1_0000 <= p.1 <= 0x1_0000,
{
    match cards::micro_of(e, c) {
        Micro::Loose { local_q, local_r, .. } => Some(global_hex(c.macro_zone, local_q, local_r)),
        Micro::Stacked { .. } => None,
    }
}

// ---- looking up ----------------------------------------------------
/// The card stands at a world location as an anchor whose footprint covers
/// `hex`.
pub open spec fn covers(e: Env, c: Card, location: u64, hex: (i32, i32)) -> bool {
    &&& c.macro_zone == location
    &&& is_anchor_definition(e, c.packed_definition)
    &&& card_hex(e, c) matches Some(h) && zones::hex_len(h.0 - hex.0, h.1 - hex.1) <= 3
}

/// The first card shown by `rows` that stands at a location and covers `hex`.
pub open spec fn coverer_in(e: Env, db: Db, rows: Seq<Card>, location: u64, hex: (i32, i32)) -> Option<
    Card,
>
    decreases rows.len(),
{
    if rows.len() == 0 {
        None
    } else {
        match cards::current(e, db, rows[0].card_id) {
            Some(c) if rows[0].macro_zone == location && covers(e, c, location, hex) => Some(c),
            _ => coverer_in(e, db, rows.skip(1), location, hex),
        }
    }
}

fn find_in_zone(e: &Env, tb: &Tables, location: u64, hex: (i32, i32)) -> (found: Option<Card>)
    requires
        e.wf(),
        -0x1_0000 <= hex.0 <= 0x1_0000,
        -0x1_0000 <= hex.1 <= 0x1_0000,
    ensures
        found == coverer_in(*e, tb@, tb@.cards, location, hex),
{
    let rows = &tb.cards;
    let mut i: usize = 0;
    assert(rows@.skip(0) =~= rows@);
    while i < rows.len()
        invariant
            i <= rows.len(),
            rows@ == tb@.cards,
            e.wf(),
            -0x1_0000 <= hex.0 <= 0x1_0000,
            -0x1_0000 <= hex.1 <= 0x1_0000,
            coverer_in(*e, tb@, tb@.cards, location, hex) == coverer_in(
                *e,
                tb@,
                rows@.skip(i as int),
                location,
                hex,
            ),
        decreases rows.len() - i,
    {
        assert(rows@.skip(i as int)[0] == rows@[i as int]);
        assert(rows@.skip(i as int).skip(1) =~= rows@.skip(i + 1));
        if rows[i].macro_zone == location {
            if let Some(c) = cards::latest(e, tb, rows[i].card_id) {
                if c.macro_zone == location && is_mini_zone_card(e, c.packed_definition) {
                    if let Some(h) = hex_of_card(e, &c) {
                        if hex_distance(h, hex) <= MINI_ZONE_RADIUS {
                            return Some(c);
                        }
                    }
                }
            }
        }
        i = i + 1;
    }
    None
}

/// The zones from which a footprint can reach into a zone: the zone itself and
/// its six neighbours.
pub open spec fn reach(i: int) -> (int, int) {
    if i == 0 {
        (0, 0)
    } else if i == 1 {
        (1, 0)
    } else if i == 2 {
        (-1, 0)
    } else if i == 3 {
        (0, 1)
    } else if i == 4 {
        (0, -1)
    } else if i == 5 {
        (1, -1)
    } else {
        (-1, 1)
    }
}

fn adjacent(i: usize) -> (d: (i32, i32))
    requires
        i < 7,
    ensures
        d.0 == reach(i as int).0,
        d.1 == reach(i as int).1,
        -1 <= d.0 <= 1,
        -1 <= d.1 <= 1,
{
    if i == 0 {
        (0, 0)
    } else if i == 1 {
        (1, 0)
    } else if i == 2 {
        (-1, 0)
    } else if i == 3 {
        (0, 1)
    } else if i == 4 {
        (0, -1)
    } else if i == 5 {
        (1, -1)
    } else {
        (-1, 1)
    }
}

/// The world location next to a zone in direction `i`.
pub open spec fn neighbour(location: u64, i: int) -> u64 {
    let c = packed::zone_coords(location);
    packed::macro_zone_key(
        0,
        packed::WORLD_LAYER,
        (c.0 + reach(i).0) as i32,
        (c.1 + reach(i).1) as i32,
    )
}

/// The first coverer of a hex, from direction `i` on.
pub open spec fn coverer_from(e: Env, db: Db, location: u64, hex: (i32, i32), i: int) -> Option<Card>
    decreases 7 - i,
{
    if i >= 7 {
        None
    } else {
        match coverer_in(e, db, db.cards, neighbour(location, i), hex) {
            Some(c) => Some(c),
            None => coverer_from(e, db, location, hex, i + 1),
        }
    }
}

/// Find a mini-zone anchor whose footprint covers a world cell. Where several
/// do, the first in scan order wins.
pub fn anchor_covering_hex(e: &Env, tb: &Tables, location: u64, local_q: u8, local_r: u8) -> (found:
    Option<Card>)
    requires
        e.wf(),
    ensures
        found == coverer_from(*e, tb@, location, hex_of(location, local_q, local_r), 0),
{
    let hex: (i32, i32) = global_hex(location, local_q, local_r);
    let c: (i32, i32) = packed::unpack_macro_zone(location);
    let mut i: usize = 0;
    while i < 7
        invariant
            i <= 7,
            e.wf(),
            -0x1_0000 <= hex.0 <= 0x1_0000,
            -0x1_0000 <= hex.1 <= 0x1_0000,
            c == packed::zone_coords(location),
            -2048 <= c.0 < 2048,
            -2048 <= c.1 < 2048,
            hex == hex_of(location, local_q, local_r),
            coverer_from(*e, tb@, location, hex, 0) == coverer_from(
                *e,
                tb@,
                location,
                hex,
                i as int,
            ),
        decreases 7 - i,
    {
        let d: (i32, i32) = adjacent(i);
        let scan: u64 = packed::pack_macro_zone_full(
            0,
            packed::WORLD_LAYER,
            c.0 + d.0,
            c.1 + d.1,
        );
        match find_in_zone(e, tb, scan, hex) {
            Some(card) => {
                return Some(card);
            },
            None => {},
        }
        i = i + 1;
    }
    None
}

/// The cell of the mini-zone grid on one axis, as stored in a byte.
pub open spec fn grid_cell(d: int) -> u8 {
    ((3 + d) % 256) as u8
}

fn to_grid(d: i32) -> (cell: u8)
    requires
        -0x10_0000 <= d <= 0x10_0000,
    ensures
        cell == grid_cell(d as int),
{
    ((MINI_ZONE_CENTER + d + 0x100_0000) % 256) as u8
}

/// The location of the mini zone of an anchor.
pub open spec fn home_of(anchor: u32) -> u64 {
    packed::macro_zone_key(anchor, packed::MINI_ZONE_LAYER, 0, 0)
}

/// The tile of an anchor's mini zone over a world cell; `None` where the zone
/// or the tile is missing.
pub open spec fn overlay_tile(e: Env, db: Db, anchor: Card, hex: (i32, i32)) -> Option<
    (u16, HexLocation),
> {
    match (zones::latest_on(db.zones, home_of(anchor.card_id)), card_hex(e, anchor)) {
        (Some(z), Some(h)) => {
            let col = grid_cell(hex.0 - h.0);
            let row = grid_cell(hex.1 - h.1);
            if row < 8 && col < 8 && zones::tile_of(z, row as int, col as int).0 != 0 {
                Some(
                    (
                        packed::definition_word(
                            z.packed_definition / 16,
                            zones::tile_of(z, row as int, col as int).0,
                        ),
                        HexLocation {
                            zone_id: z.zone_id,
                            macro_zone: z.macro_zone,
                            col,
                            row,
                            owner_id: z.owner_id,
                        },
                    ),
                )
            } else {
                None
            }
        },
        _ => None,
    }
}

/// Read the tile that an anchor's mini zone shows at a world cell. An empty
/// cell hides the world tile beneath it.
pub fn tile_at_anchor(
    e: &Env,
    tb: &Tables,
    anchor: &Card,
    location: u64,
    local_q: u8,
    local_r: u8,
) -> (found: Option<(u16, HexLocation)>)
    requires
        e.wf(),
    ensures
        found == overlay_tile(*e, tb@, *anchor, hex_of(location, local_q, local_r)),
{
    let home: u64 = packed::pack_macro_zone_full(anchor.card_id, packed::MINI_ZONE_LAYER, 0, 0);
    let zone: Zone = match zones::latest_for(&tb.zones, home) {
        None => {
            return None;
        },
        Some(z) => z,
    };
    let h: (i32, i32) = match hex_of_card(e, anchor) {
        None => {
            return None;
        },
        Some(h) => h,
    };
    let hex: (i32, i32) = global_hex(location, local_q, local_r);
    let col: u8 = to_grid(hex.0 - h.0);
    let row: u8 = to_grid(hex.1 - h.1);
    match zone.tile_def_id_at(row, col) {
        None => None,
        Some(def_id) => {
            if def_id == 0 {
                return None;
            }
            let packed_def: u16 = packed::pack_definition(
                packed::unpack_zone_definition(zone.packed_definition),
                def_id,
            );
            Some(
                (
                    packed_def,
                    HexLocation {
                        zone_id: zone.zone_id,
                        macro_zone: zone.macro_zone,
                        col,
                        row,
                        owner_id: zone.owner_id,
                    },
                ),
            )
        },
    }
}

// ---- deploying -----------------------------------------------------
/// Why the caller may not handle an anchor; the anchor's row where it may.
pub open spec fn handled(e: Env, db: Db, card_id: u32, caller: u32) -> Result<Card, MiniZoneError> {
    match cards::current(e, db, card_id) {
        None => Err(MiniZoneError::AnchorMissing { card_id }),
        Some(c) => {
            let owner = match cards::player_of(e, db, card_id) {
                Some(p) => p,
                None => cards::WORLD_PLAYER_ID,
            };
            if cards::is_dead(e, c) {
                Err(MiniZoneError::AnchorDead { card_id })
            } else if owner != caller {
                Err(MiniZoneError::NotOwned { card_id, owner })
            } else {
                Ok(c)
            }
        },
    }
}

fn check_anchor(e: &Env, tb: &Tables, card_id: u32, caller: u32) -> (r: Result<Card, MiniZoneError>)
    ensures
        r == handled(*e, tb@, card_id, caller),
{
    let c: Card = match cards::latest(e, tb, card_id) {
        None => {
            return Err(MiniZoneError::AnchorMissing { card_id });
        },
        Some(c) => c,
    };
    if c.flags_state & e.state.dead != 0 {
        return Err(MiniZoneError::AnchorDead { card_id });
    }
    let owner: u32 = match cards::owning_player(e, tb, card_id) {
        Some(p) => p,
        None => cards::WORLD_PLAYER_ID,
    };
    if owner != caller {
        return Err(MiniZoneError::NotOwned { card_id, owner });
    }
    Ok(c)
}

/// Why an anchor cannot land on a target.
pub open spec fn landing_error(e: Env, db: Db, location: u64, target: Micro) -> Option<
    MiniZoneError,
> {
    match target {
        Micro::Stacked { root, branch, index } => Some(MiniZoneError::TargetNotLoose),
        Micro::Loose { local_q, local_r, x, y, kind } => if zones::latest_on(
            db.zones,
            location,
        ) is None {
            Some(MiniZoneError::Unmapped { location })
        } else if relocation::occupied(e, db, location, local_q, local_r, e.now_ms) {
            Some(MiniZoneError::Occupied)
        } else {
            None
        },
    }
}

fn check_landing(e: &Env, tb: &Tables, location: u64, target: Micro) -> (err: Option<MiniZoneError>)
    requires
        e.wf(),
    ensures
        err == landing_error(*e, tb@, location, target),
{
    match target {
        Micro::Stacked { .. } => Some(MiniZoneError::TargetNotLoose),
        Micro::Loose { local_q, local_r, .. } => {
            if zones::latest_for(&tb.zones, location).is_none() {
                return Some(MiniZoneError::Unmapped { location });
            }
            if relocation::is_occupied(e, tb, location, local_q, local_r, e.now_ms) {
                return Some(MiniZoneError::Occupied);
            }
            None
        },
    }
}

/// An empty tile grid.
pub open spec fn no_tiles() -> Seq<u64> {
    Seq::new(16, |i: int| 0u64)
}

/// The world cell that a loose placement names.
pub open spec fn target_cell(e: Env, target: Micro) -> Micro {
    match target {
        Micro::Loose { local_q, local_r, x, y, kind } => relocation::world_cell(
            e,
            local_q,
            local_r,
        ),
        Micro::Stacked { root, branch, index } => target,
    }
}

/// The database after an anchor landed in the middle of a world cell with an
/// empty mini zone.
pub open spec fn landed(e: Env, db: Db, anchor: u32, location: u64, target: Micro) -> Db {
    let a = cards::edited(
        e,
        db,
        anchor,
        e.now_ms,
        relocation::moved_to(e, location, target_cell(e, target)),
    );
    a.with_zone_state(
        zones::zone_written(
            a.zone_state(),
            zones::fresh_zone(
                zones::fresh_zone_id(a.zones),
                home_of(anchor),
                packed::zone_definition_word(TILE_TYPE),
                anchor,
                no_tiles(),
            ),
            e.now_ms,
        ),
    )
}

fn land(e: &Env, tb: &mut Tables, anchor: u32, location: u64, target: Micro)
    requires
        e.wf(),
    ensures
        final(tb)@ == landed(*e, old(tb)@, anchor, location, target),
{
    let cell: Micro = match target {
        Micro::Loose { local_q, local_r, .. } => relocation::on_world_cell(e, local_q, local_r),
        m => m,
    };
    relocation::move_to(e, tb, anchor, e.now_ms, location, cell);
    let zone_id: u32 = zones::next_zone_id(&tb.zones);
    let tiles: [u64; 16] = [0; 16];
    assert(tiles@ =~= no_tiles());
    let _ = zones::create(
        &mut tb.zones,
        &mut tb.next_sequence,
        e.now_ms,
        zone_id,
        packed::pack_macro_zone_full(anchor, packed::MINI_ZONE_LAYER, 0, 0),
        packed::pack_zone_definition(TILE_TYPE),
        anchor,
        &tiles,
    );
}

/// Outcome of deploying a mini zone.
pub open spec fn deployed(
    e: Env,
    db: Db,
    caller: ConnectionId,
    anchor: u32,
    target_zone: u64,
    target: Micro,
) -> (Db, Result<(), MiniZoneError>) {
    match players::session_player(db.player_sessions, caller) {
        None => (db, Err(MiniZoneError::Caller(PlayerError::NoSession))),
        Some(player_id) => {
            let g = lifecycle_pending::gate(db, player_id, e.now_ms, Seq::empty());
            let location = packed::on_surface(target_zone, packed::WORLD_LAYER);
            match g.1 {
                Err(b) => (g.0, Err(MiniZoneError::Blocked(b))),
                Ok(()) => match handled(e, g.0, anchor, player_id) {
                    Err(err) => (g.0, Err(err)),
                    Ok(c) => if !is_anchor_definition(e, c.packed_definition) {
                        (g.0, Err(MiniZoneError::NotAMiniZone { card_id: anchor }))
                    } else if packed::surface(c.macro_zone) != packed::INVENTORY_LAYER {
                        (
                            g.0,
                            Err(
                                MiniZoneError::WrongSurface {
                                    surface: packed::surface(c.macro_zone),
                                },
                            ),
                        )
                    } else {
                        match landing_error(e, g.0, location, target) {
                            Some(err) => (g.0, Err(err)),
                            None => (landed(e, g.0, anchor, location, target), Ok(())),
                        }
                    },
                },
            }
        },
    }
}

/// Deploy an anchor from the caller's inventory into the middle of a free world
/// cell, with an empty mini zone. The anchor keeps its owner.
pub fn deploy_mini_zone(
    e: &Env,
    tb: &mut Tables,
    caller: ConnectionId,
    anchor_card_id: u32,
    target_zone: u64,
    target: Micro,
) -> (r: Result<(), MiniZoneError>)
    requires
        e.wf(),
    ensures
        (final(tb)@, r) == deployed(*e, old(tb)@, caller, anchor_card_id, target_zone, target),
{
    let player_id: u32 = match players::resolve_caller(tb, caller) {
        Err(err) => {
            return Err(MiniZoneError::Caller(err));
        },
        Ok(p) => p,
    };
    let none: Vec<u32> = Vec::new();
    match lifecycle_pending::block_check(tb, player_id, e.now_ms, &none) {
        Err(b) => {
            return Err(MiniZoneError::Blocked(b));
        },
        Ok(()) => {},
    }
    let anchor: Card = match check_anchor(e, tb, anchor_card_id, player_id) {
        Err(err) => {
            return Err(err);
        },
        Ok(c) => c,
    };
    if !is_mini_zone_card(e, anchor.packed_definition) {
        return Err(MiniZoneError::NotAMiniZone { card_id: anchor_card_id });
    }
    let surface: u8 = packed::surface_of(anchor.macro_zone);
    if surface != packed::INVENTORY_LAYER {
        return Err(MiniZoneError::WrongSurface { surface });
    }
    let location: u64 = packed::with_surface(target_zone, packed::WORLD_LAYER);
    if let Some(err) = check_landing(e, tb, location, target) {
        return Err(err);
    }
    land(e, tb, anchor_card_id, location, target);
    Ok(())
}

// ---- picking up ----------------------------------------------------
/// The cards other than the anchor that some row of `prefix` shows at a
/// location, each once.
pub open spec fn ids_at(prefix: Seq<Card>, location: u64, anchor: u32) -> Seq<u32>
    decreases prefix.len(),
{
    if prefix.len() == 0 {
        Seq::empty()
    } else {
        let before = ids_at(prefix.drop_last(), location, anchor);
        let row = prefix.last();
        if row.macro_zone == location && row.card_id != anchor && !before.contains(row.card_id) {
            before.push(row.card_id)
        } else {
            before
        }
    }
}

fn collect_ids(tb: &Tables, location: u64, anchor: u32) -> (ids: Vec<u32>)
    ensures
        ids@ == ids_at(tb@.cards, location, anchor),
{
    let mut out: Vec<u32> = Vec::new();
    let mut i: usize = 0;
    while i < tb.cards.len()
        invariant
            i <= tb.cards.len(),
            out@ == ids_at(tb@.cards.take(i as int), location, anchor),
        decreases tb.cards.len() - i,
    {
        proof {
            let next = tb@.cards.take(i + 1);
            assert(next.drop_last() =~= tb@.cards.take(i as int));
            assert(next.last() == tb@.cards[i as int]);
        }
        let row = tb.cards[i];
        if row.macro_zone == location && row.card_id != anchor && !cards::holds_id(
            &out,
            row.card_id,
        ) {
            out.push(row.card_id);
        }
        i = i + 1;
    }
    assert(tb@.cards.take(tb@.cards.len() as int) =~= tb@.cards);
    out
}

/// The database after moving the live cards among `ids` that still stand at
/// `home` to a world position.
pub open spec fn spilled(e: Env, db: Db, ids: Seq<u32>, home: u64, location: u64, m: Micro) -> Db
    decreases ids.len(),
{
    if ids.len() == 0 {
        db
    } else {
        let before = spilled(e, db, ids.drop_last(), home, location, m);
        match cards::current(e, before, ids.last()) {
            Some(c) if c.macro_zone == home && !cards::is_dead(e, c) => cards::edited(
                e,
                before,
                ids.last(),
                e.now_ms,
                relocation::moved_to(e, location, m),
            ),
            _ => before,
        }
    }
}

fn spill(e: &Env, tb: &mut Tables, ids: &Vec<u32>, home: u64, location: u64, m: Micro)
    requires
        e.wf(),
    ensures
        final(tb)@ == spilled(*e, old(tb)@, ids@, home, location, m),
{
    let ghost d = tb@;
    let mut i: usize = 0;
    assert(ids@.take(0) =~= Seq::empty());
    while i < ids.len()
        invariant
            i <= ids.len(),
            e.wf(),
            tb@ == spilled(*e, d, ids@.take(i as int), home, location, m),
        decreases ids.len() - i,
    {
        proof {
            let next = ids@.take(i + 1);
            assert(next.drop_last() =~= ids@.take(i as int));
            assert(next.last() == ids@[i as int]);
        }
        if let Some(c) = cards::latest(e, tb, ids[i]) {
            if c.macro_zone == home && c.flags_state & e.state.dead == 0 {
                relocation::move_to(e, tb, ids[i], e.now_ms, location, m);
            }
        }
        i = i + 1;
    }
    assert(ids@.take(ids.len() as int) =~= ids@);
}

/// The zone row stands elsewhere.
pub open spec fn zone_not_at(location: u64) -> spec_fn(Zone) -> bool {
    |z: Zone| z.macro_zone != location
}

fn remove_zone(rows: &mut Vec<Zone>, location: u64)
    ensures
        final(rows)@ == old(rows)@.filter(zone_not_at(location)),
{
    let mut kept: Vec<Zone> = Vec::new();
    let mut i: usize = 0;
    let ghost all = rows@;
    let ghost keep = zone_not_at(location);
    proof {
        reveal(Seq::filter);
        assert(all.take(0).filter(keep) =~= Seq::empty());
    }
    while i < rows.len()
        invariant
            i <= rows.len(),
            rows@ == all,
            keep == zone_not_at(location),
            kept@ == all.take(i as int).filter(keep),
        decreases rows.len() - i,
    {
        let row = rows[i];
        proof {
            history::filter_take_step(all, i as int, keep);
        }
        if row.macro_zone != location {
            kept.push(row);
        }
        i = i + 1;
    }
    assert(all.take(all.len() as int) =~= all);
    *rows = kept;
}

/// The cell that a loose card stands on.
pub open spec fn own_cell(e: Env, c: Card) -> Option<(u8, u8)> {
    match cards::placement(e, c) {
        Micro::Loose { local_q, local_r, x, y, kind } => Some((local_q, local_r)),
        Micro::Stacked { root, branch, index } => None,
    }
}

/// The cell that a card covers: its own, or for a stack member that of the
/// stack's root. A member of a stack whose root stands nowhere covers the first
/// cell of its zone.
pub open spec fn covered_cell(e: Env, db: Db, c: Card) -> (u8, u8) {
    match cards::placement(e, c) {
        Micro::Loose { local_q, local_r, x, y, kind } => (local_q, local_r),
        Micro::Stacked { root, branch, index } => match cards::current(e, db, root) {
            None => (0, 0),
            Some(base) => match own_cell(e, base) {
                None => (0, 0),
                Some(cell) => cell,
            },
        },
    }
}

fn cell_covered_by(e: &Env, tb: &Tables, c: &Card) -> (cell: (u8, u8))
    requires
        e.wf(),
    ensures
        cell == covered_cell(*e, tb@, *c),
{
    match cards::micro_of(e, c) {
        Micro::Loose { local_q, local_r, .. } => (local_q, local_r),
        Micro::Stacked { root, .. } => match cards::latest(e, tb, root) {
            None => (0, 0),
            Some(base) => match cards::micro_of(e, &base) {
                Micro::Loose { local_q, local_r, .. } => (local_q, local_r),
                Micro::Stacked { .. } => (0, 0),
            },
        },
    }
}

/// Where the contents of a mini zone land: loose, in the middle of the cell that
/// the anchor covers.
pub open spec fn spill_place(e: Env, db: Db, anchor: Card) -> Micro {
    let cell = covered_cell(e, db, anchor);
    relocation::world_cell(e, cell.0, cell.1)
}

/// An anchor back in a soul's inventory.
pub open spec fn stowed(e: Env, soul: u32) -> spec_fn(Card) -> Card {
    |c: Card|
        cards::placed(
            e,
            Micro::Loose {
                local_q: 0,
                local_r: 0,
                x: 0,
                y: 0,
                kind: e.loose_kinds@[packed::INVENTORY_LAYER as int],
            },
            Card {
                macro_zone: packed::macro_zone_key(soul, packed::INVENTORY_LAYER, 0, 0),
                owner_id: soul,
                ..c
            },
        )
}

/// The database after packing up a mini zone: its contents spilled, its zone
/// gone, and the anchor in a soul's inventory.
pub open spec fn packed_up(e: Env, db: Db, anchor: Card, anchor_id: u32, soul: u32) -> Db {
    let home = home_of(anchor_id);
    let a = spilled(
        e,
        db,
        ids_at(db.cards, home, anchor_id),
        home,
        anchor.macro_zone,
        spill_place(e, db, anchor),
    );
    let b = Db { zones: a.zones.filter(zone_not_at(home)), ..a };
    cards::edited(e, b, anchor_id, e.now_ms, stowed(e, soul))
}

fn pack_up(e: &Env, tb: &mut Tables, anchor: &Card, anchor_id: u32, soul: u32)
    requires
        e.wf(),
    ensures
        final(tb)@ == packed_up(*e, old(tb)@, *anchor, anchor_id, soul),
{
    let home: u64 = packed::pack_macro_zone_full(anchor_id, packed::MINI_ZONE_LAYER, 0, 0);
    let ids: Vec<u32> = collect_ids(tb, home, anchor_id);
    let cell: (u8, u8) = cell_covered_by(e, tb, anchor);
    let place: Micro = relocation::on_world_cell(e, cell.0, cell.1);
    spill(e, tb, &ids, home, anchor.macro_zone, place);
    remove_zone(&mut tb.zones, home);
    if let Some(found) = cards::prior_at(tb, anchor_id, e.now_ms) {
        let mut c = found;
        c.macro_zone = packed::pack_macro_zone_full(soul, packed::INVENTORY_LAYER, 0, 0);
        c.owner_id = soul;
        Micro::snap(0, 0, e.loose_kind_for_surface(packed::INVENTORY_LAYER)).place(e, &mut c);
        let _ = cards::write_at(e, tb, c, e.now_ms);
    }
}

/// Outcome of picking up a mini zone.
pub open spec fn picked_up(e: Env, db: Db, caller: ConnectionId, anchor: u32) -> (
    Db,
    Result<(), MiniZoneError>,
) {
    match players::session_player(db.player_sessions, caller) {
        None => (db, Err(MiniZoneError::Caller(PlayerError::NoSession))),
        Some(player_id) => match handled(e, db, anchor, player_id) {
            Err(err) => (db, Err(err)),
            Ok(c) => match cards::soul_at(e, db, anchor, e.now_ms) {
                None => (db, Err(MiniZoneError::NoSoul { card_id: anchor })),
                Some(soul) => if !is_anchor_definition(e, c.packed_definition) {
                    (db, Err(MiniZoneError::NotAMiniZone { card_id: anchor }))
                } else if packed::surface(c.macro_zone) != packed::WORLD_LAYER {
                    (
                        db,
                        Err(
                            MiniZoneError::WrongSurface { surface: packed::surface(c.macro_zone) },
                        ),
                    )
                } else {
                    (packed_up(e, db, c, anchor, soul), Ok(()))
                },
            },
        },
    }
}

/// Pick up a deployed mini zone: its contents land on the anchor's world cell,
/// and the anchor returns to the inventory of the soul that owns it.
pub fn pickup_mini_zone(e: &Env, tb: &mut Tables, caller: ConnectionId, anchor_card_id: u32) -> (r:
    Result<(), MiniZoneError>)
    requires
        e.wf(),
    ensures
        (final(tb)@, r) == picked_up(*e, old(tb)@, caller, anchor_card_id),
{
    let player_id: u32 = match players::resolve_caller(tb, caller) {
        Err(err) => {
            return Err(MiniZoneError::Caller(err));
        },
        Ok(p) => p,
    };
    let anchor: Card = match check_anchor(e, tb, anchor_card_id, player_id) {
        Err(err) => {
            return Err(err);
        },
        Ok(c) => c,
    };
    let soul: u32 = match cards::owning_soul(e, tb, anchor_card_id) {
        None => {
            return Err(MiniZoneError::NoSoul { card_id: anchor_card_id });
        },
        Some(s) => s,
    };
    if !is_mini_zone_card(e, anchor.packed_definition) {
        return Err(MiniZoneError::NotAMiniZone { card_id: anchor_card_id });
    }
    let surface: u8 = packed::surface_of(anchor.macro_zone);
    if surface != packed::WORLD_LAYER {
        return Err(MiniZoneError::WrongSurface { surface });
    }
    pack_up(e, tb, &anchor, anchor_card_id, soul);
    Ok(())
}

// ---- laws ----------------------------------------------------------
/// A footprint that covers a hex shows it on a cell of the tile grid's disk, in
/// its 7-by-7 corner.
pub proof fn covered_hex_is_on_the_grid(e: Env, c: Card, location: u64, hex: (i32, i32))
    requires
        covers(e, c, location, hex),
    ensures
        ({
            let h = card_hex(e, c)->0;
            let col = grid_cell(hex.0 - h.0);
            let row = grid_cell(hex.1 - h.1);
            &&& col < 7
            &&& row < 7
            &&& zones::in_footprint(row as int, col as int)
        }),
{
}

/// No zone is left at an anchor's mini-zone location once it is picked up.
pub proof fn pickup_frees_the_location(e: Env, db: Db, caller: ConnectionId, anchor: u32)
    requires
        picked_up(e, db, caller, anchor).1 is Ok,
    ensures
        zones::latest_on(picked_up(e, db, caller, anchor).0.zones, home_of(anchor)) is None,
{
    let after = picked_up(e, db, caller, anchor).0;
    let player_id = players::session_player(db.player_sessions, caller)->0;
    let c = handled(e, db, anchor, player_id)->Ok_0;
    let soul = cards::soul_at(e, db, anchor, e.now_ms)->0;
    let home = home_of(anchor);
    let a = spilled(
        e,
        db,
        ids_at(db.cards, home, anchor),
        home,
        c.macro_zone,
        spill_place(e, db, c),
    );
    let b = Db { zones: a.zones.filter(zone_not_at(home)), ..a };
    assert(after == cards::edited(e, b, anchor, e.now_ms, stowed(e, soul)));
    if let Some(row) = history::prior_at(b.cards, anchor, e.now_ms) {
        laws::card_writes_stay_with_cards(
            e,
            b,
            stowed(e, soul)(row),
            e.now_ms,
            cards::cascade_depth(b),
        );
    }
    filtered_has_none(a.zones, home);
}

proof fn filtered_has_none(rows: Seq<Zone>, location: u64)
    ensures
        zones::latest_on(rows.filter(zone_not_at(location)), location) is None,
    decreases rows.len(),
{
    reveal(Seq::filter);
    if rows.len() > 0 {
        filtered_has_none(rows.drop_last(), location);
        let init = rows.drop_last().filter(zone_not_at(location));
        if rows.last().macro_zone != location {
            assert(rows.filter(zone_not_at(location)) =~= init.push(rows.last()));
            assert(init.push(rows.last()).drop_last() =~= init);
        }
    }
}

} // verus!
