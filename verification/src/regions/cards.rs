//! Tile-cards of the positional database.
//!
//! A zone tile that takes part in a recipe is promoted into a card: its
//! definition and stocks move into a card row placed on the tile's cell.
use vstd::prelude::*;

use crate::cards::env;
use crate::cards::env::CountField;
use crate::cards::env::HoldKind;
use crate::cards::flags::BkFlags;
use crate::cards::micro;
use crate::cards::micro::Micro;
use crate::history;
use crate::history::Version;
use crate::packed;
use crate::regions::tables::Db;
use crate::regions::tables::Env;
use crate::regions::tables::Tables;
use crate::regions::zones;
use crate::tables;
use crate::tile_words::Tile;

verus! {

/// The card type of tile-cards.
pub const TILE_CARD_TYPE: u8 = 7;

/// First local id that is not reserved.
pub const FIRST_LOCAL: u32 = 1024;

/// The shard of this database.
pub const REGIONS_SHARD: u16 = 0;

/// A version of a tile-card.
#[derive(Clone, Copy, Debug, PartialEq, Eq, Structural)]
pub struct Card {
    pub valid_at: u64,
    pub card_id: u32,
    pub macro_zone: u64,
    pub micro_location: u32,
    pub owner_id: u32,
    pub packed_definition: u16,
    pub flags_state: u32,
    pub flags_bk: u32,
}

/// The local-id allocator.
#[derive(Clone, Copy, Debug, PartialEq, Eq, Structural)]
pub struct CardIdCounter {
    pub id: u8,
    pub next: u32,
}

impl Version for Card {
    open spec fn spec_entity(self) -> u32 {
        self.card_id
    }

    open spec fn spec_key(self) -> u64 {
        self.valid_at
    }

    fn entity(&self) -> (id: u32) {
        self.card_id
    }

    fn key(&self) -> (k: u64) {
        self.valid_at
    }
}

// ---- ids -----------------------------------------------------------
pub open spec fn max_local(cards: Seq<Card>) -> u32
    decreases cards.len(),
{
    if cards.len() == 0 {
        0
    } else {
        let before = max_local(cards.drop_last());
        let l = packed::card_local(cards.last().card_id);
        if l > before {
            l
        } else {
            before
        }
    }
}

/// The local id that the next allocation gives out.
pub open spec fn next_local(db: Db) -> u32 {
    match db.card_id_counter {
        Some(c) => c.next,
        None => {
            let m = max_local(db.cards);
            if m + 1 < FIRST_LOCAL {
                FIRST_LOCAL
            } else {
                (m + 1) as u32
            }
        },
    }
}

/// The card id that the next allocation gives out.
pub open spec fn next_id(db: Db) -> u32 {
    packed::card_id_word(packed::CARD_DB_REGIONS, REGIONS_SHARD, next_local(db))
}

/// The database after an allocation.
pub open spec fn id_taken(db: Db) -> Db {
    let local = next_local(db);
    Db {
        card_id_counter: Some(
            CardIdCounter {
                id: 0,
                next: if local < packed::CARD_LOCAL_MASK {
                    (local + 1) as u32
                } else {
                    packed::CARD_LOCAL_MASK
                },
            },
        ),
        ..db
    }
}

/// Allocate the next tile-card id.
pub fn next_card_id(tb: &mut Tables) -> (id: u32)
    ensures
        id == next_id(old(tb)@),
        final(tb)@ == id_taken(old(tb)@),
{
    let local: u32 = match tb.card_id_counter {
        Some(c) => c.next,
        None => {
            let mut max: u32 = 0;
            let mut i: usize = 0;
            while i < tb.cards.len()
                invariant
                    i <= tb.cards.len(),
                    max <= packed::CARD_LOCAL_MASK,
                    max == max_local(tb.cards@.take(i as int)),
                decreases tb.cards.len() - i,
            {
                proof {
                    let next = tb.cards@.take(i + 1);
                    assert(next.drop_last() =~= tb.cards@.take(i as int));
                    assert(next.last() == tb.cards@[i as int]);
                }
                let l: u32 = packed::card_local_of(tb.cards[i].card_id);
                if l > max {
                    max = l;
                }
                i = i + 1;
            }
            assert(tb.cards@.take(tb.cards.len() as int) =~= tb.cards@);
            if max + 1 < FIRST_LOCAL {
                FIRST_LOCAL
            } else {
                max + 1
            }
        },
    };
    let next: u32 = if local < packed::CARD_LOCAL_MASK {
        local + 1
    } else {
        packed::CARD_LOCAL_MASK
    };
    tb.card_id_counter = Some(CardIdCounter { id: 0, next });
    packed::pack_card_id(packed::CARD_DB_REGIONS, REGIONS_SHARD, local)
}

// ---- rows ----------------------------------------------------------
/// The version of a tile-card in force at `time_ms`.
pub fn prior_at(tb: &Tables, card_id: u32, time_ms: u64) -> (found: Option<Card>)
    ensures
        found == history::prior_at(tb@.cards, card_id, time_ms),
{
    history::find_prior_at(&tb.cards, card_id, time_ms)
}

/// The row that a write stores.
pub open spec fn stamped(db: Db, card: Card, t: u64) -> Card {
    Card { valid_at: packed::valid_at_key(t, db.next_sequence), ..card }
}

/// The database after storing a version of a tile-card at `t`.
pub open spec fn card_written(db: Db, card: Card, t: u64) -> Db {
    Db {
        cards: history::stored(db.cards, stamped(db, card, t), t),
        next_sequence: tables::sequence_after(db.next_sequence),
        ..db
    }
}

/// Store a version of a tile-card; the last write at a time wins.
pub fn write_at(tb: &mut Tables, card: Card, time_ms: u64) -> (row: Card)
    ensures
        final(tb)@ == card_written(old(tb)@, card, time_ms),
        row == stamped(old(tb)@, card, time_ms),
{
    let taken: u16 = tables::advance(&mut tb.next_sequence);
    let mut row = card;
    row.valid_at = packed::pack_valid_at(time_ms, taken);
    history::store(&mut tb.cards, row, time_ms);
    row
}

/// A tile-card before its first write.
pub open spec fn fresh_card(
    bk: BkFlags,
    card_id: u32,
    macro_zone: u64,
    m: Micro,
    owner_id: u32,
    packed_definition: u16,
    flags_state: u32,
    flags_bk: u32,
) -> Card {
    let p = micro::applied(m, flags_bk, bk);
    Card {
        valid_at: 0,
        card_id,
        macro_zone,
        micro_location: p.0,
        owner_id,
        packed_definition,
        flags_state,
        flags_bk: p.1,
    }
}

/// Create a tile-card at `time_ms`.
pub fn create_at(
    e: &Env,
    tb: &mut Tables,
    card_id: u32,
    time_ms: u64,
    macro_zone: u64,
    m: Micro,
    owner_id: u32,
    packed_definition: u16,
    flags_state: u32,
    flags_bk: u32,
) -> (row: Card)
    requires
        e.bk.wf(),
    ensures
        ({
            let c = fresh_card(
                e.bk,
                card_id,
                macro_zone,
                m,
                owner_id,
                packed_definition,
                flags_state,
                flags_bk,
            );
            &&& final(tb)@ == card_written(old(tb)@, c, time_ms)
            &&& row == stamped(old(tb)@, c, time_ms)
        }),
{
    let p: (u32, u32) = m.apply(flags_bk, &e.bk);
    let card = Card {
        valid_at: 0,
        card_id,
        macro_zone,
        micro_location: p.0,
        owner_id,
        packed_definition,
        flags_state,
        flags_bk: p.1,
    };
    write_at(tb, card, time_ms)
}

/// Edit the version of a tile-card in force at `time_ms`.
pub fn update_with_at<F: FnOnce(Card) -> Card>(
    tb: &mut Tables,
    card_id: u32,
    time_ms: u64,
    f: F,
) -> (row: Option<Card>)
    requires
        forall|c: Card| #[trigger] f.requires((c,)),
    ensures
        match history::prior_at(old(tb)@.cards, card_id, time_ms) {
            None => row is None && final(tb)@ == old(tb)@,
            Some(c) => exists|edited: Card| #[trigger]
                f.ensures((c,), edited) && final(tb)@ == card_written(old(tb)@, edited, time_ms)
                    && row == Some(stamped(old(tb)@, edited, time_ms)),
        },
{
    match prior_at(tb, card_id, time_ms) {
        None => None,
        Some(c) => {
            let edited: Card = f(c);
            Some(write_at(tb, edited, time_ms))
        },
    }
}

// ---- stock ---------------------------------------------------------
pub open spec fn stock_field(bk: BkFlags, slot: int) -> CountField {
    if slot == 0 {
        CountField {
            mask: bk.tile_stock_0_mask,
            shift: bk.tile_stock_0_shift,
            max: bk.tile_stock_0_max,
        }
    } else {
        CountField {
            mask: bk.tile_stock_1_mask,
            shift: bk.tile_stock_1_shift,
            max: bk.tile_stock_1_max,
        }
    }
}

/// One stock of a flag word; slots beyond the second hold nothing.
pub open spec fn stock_value(bk: BkFlags, flags_bk: u32, slot: int) -> u8 {
    if slot == 0 || slot == 1 {
        env::field_value(flags_bk, stock_field(bk, slot)) as u8
    } else {
        0
    }
}

/// A flag word with one stock replaced.
pub open spec fn with_stock(bk: BkFlags, flags_bk: u32, slot: int, value: u8) -> u32 {
    if slot == 0 || slot == 1 {
        env::with_field(flags_bk, stock_field(bk, slot), value as u32)
    } else {
        flags_bk
    }
}

fn field_of_stock(bk: &BkFlags, slot: usize) -> (f: CountField)
    requires
        bk.wf(),
    ensures
        f == stock_field(*bk, slot as int),
        f.shift < 32,
{
    if slot == 0 {
        CountField {
            mask: bk.tile_stock_0_mask,
            shift: bk.tile_stock_0_shift,
            max: bk.tile_stock_0_max,
        }
    } else {
        CountField {
            mask: bk.tile_stock_1_mask,
            shift: bk.tile_stock_1_shift,
            max: bk.tile_stock_1_max,
        }
    }
}

/// Read one stock of a flag word.
pub fn tile_stock(bk: &BkFlags, flags_bk: u32, slot: usize) -> (v: u8)
    requires
        bk.wf(),
    ensures
        v == stock_value(*bk, flags_bk, slot as int),
{
    if slot < 2 {
        env::read_field(flags_bk, field_of_stock(bk, slot)) as u8
    } else {
        0
    }
}

/// Replace one stock of a flag word.
pub fn write_tile_stock(bk: &BkFlags, flags_bk: u32, slot: usize, value: u8) -> (out: u32)
    requires
        bk.wf(),
    ensures
        out == with_stock(*bk, flags_bk, slot as int, value),
{
    if slot < 2 {
        env::write_field(flags_bk, field_of_stock(bk, slot), value as u32)
    } else {
        flags_bk
    }
}

// ---- promotion -----------------------------------------------------
/// `c` is a tile-card placed loose on the cell `(q, r)` of the zone at `location`.
pub open spec fn stands_on(bk: BkFlags, c: Card, location: u64, q: u8, r: u8) -> bool {
    &&& c.macro_zone == location
    &&& packed::card_type(c.packed_definition) == TILE_CARD_TYPE
    &&& micro::decoded(c.micro_location, c.flags_bk, bk) matches Micro::Loose {
        local_q,
        local_r,
        ..
    } && local_q == q && local_r == r
}

/// The tile-card on a cell at `t`: the first card with a row at the location
/// whose version in force then stands on the cell.
pub open spec fn tile_card_at(
    bk: BkFlags,
    cards: Seq<Card>,
    candidates: Seq<Card>,
    location: u64,
    q: u8,
    r: u8,
    t: u64,
) -> Option<Card>
    decreases candidates.len(),
{
    if candidates.len() == 0 {
        None
    } else {
        let row = candidates[0];
        let rest = tile_card_at(bk, cards, candidates.skip(1), location, q, r, t);
        if row.macro_zone != location {
            rest
        } else {
            match history::prior_at(cards, row.card_id, t) {
                Some(c) => if stands_on(bk, c, location, q, r) {
                    Some(c)
                } else {
                    rest
                },
                None => rest,
            }
        }
    }
}

pub open spec fn tile_card(e: Env, db: Db, surface: u8, macro_zone: u64, q: u8, r: u8, t: u64) -> Option<
    Card,
> {
    tile_card_at(e.bk, db.cards, db.cards, packed::on_surface(macro_zone, surface), q, r, t)
}

/// Find the promoted tile-card on a cell.
pub fn find_tile_card_at(
    e: &Env,
    tb: &Tables,
    surface: u8,
    macro_zone: u64,
    q: u8,
    r: u8,
    time_ms: u64,
) -> (found: Option<Card>)
    requires
        e.bk.wf(),
    ensures
        found == tile_card(*e, tb@, surface, macro_zone, q, r, time_ms),
        found matches Some(c) ==> history::prior_at(tb@.cards, c.card_id, time_ms) == Some(c),
{
    let location: u64 = packed::with_surface(macro_zone, surface);
    let mut i: usize = 0;
    assert(tb.cards@.skip(0) =~= tb.cards@);
    while i < tb.cards.len()
        invariant
            i <= tb.cards.len(),
            e.bk.wf(),
            location == packed::on_surface(macro_zone, surface),
            tile_card(*e, tb@, surface, macro_zone, q, r, time_ms) == tile_card_at(
                e.bk,
                tb@.cards,
                tb.cards@.skip(i as int),
                location,
                q,
                r,
                time_ms,
            ),
        decreases tb.cards.len() - i,
    {
        let row = tb.cards[i];
        proof {
            assert(tb.cards@.skip(i as int)[0] == row);
            assert(tb.cards@.skip(i as int).skip(1) =~= tb.cards@.skip(i + 1));
        }
        if row.macro_zone == location {
            if let Some(c) = prior_at(tb, row.card_id, time_ms) {
                proof {
                    history::prior_at_is_greatest(tb@.cards, row.card_id, time_ms);
                }
                let d: (u8, u16) = packed::unpack_definition(c.packed_definition);
                if d.0 == TILE_CARD_TYPE && c.macro_zone == location {
                    if let Micro::Loose { local_q, local_r, .. } = Micro::of(
                        c.micro_location,
                        c.flags_bk,
                        &e.bk,
                    ) {
                        if local_q == q && local_r == r {
                            return Some(c);
                        }
                    }
                }
            }
        }
        i = i + 1;
    }
    None
}

/// Why a tile cannot be promoted or held.
#[derive(Clone, Copy, Debug, PartialEq, Eq, Structural)]
pub enum TileError {
    /// No zone at this location.
    NoZone { location: u64 },
    /// The cell is outside the zone grid.
    OutOfRange { q: u8, r: u8 },
    /// The cell holds no tile.
    Empty { q: u8, r: u8 },
    /// An exclusive hold is already taken.
    AlreadyHeld { q: u8, r: u8 },
    /// The stock operation is unknown.
    UnknownOp { op: u8 },
    /// No such zone in force, or a cell out of range.
    NoTile { zone_id: u32 },
}

/// The zone tile on a cell, with its packed definition.
pub open spec fn zone_tile(db: Db, location: u64, q: u8, r: u8) -> Result<Tile, TileError> {
    match zones::latest_on(db.zones, location) {
        None => Err(TileError::NoZone { location }),
        Some(z) => if r >= 8 || q >= 8 {
            Err(TileError::OutOfRange { q, r })
        } else {
            let t = zones::tile_of(z, r as int, q as int);
            if t.0 == 0 {
                Err(TileError::Empty { q, r })
            } else {
                Ok(
                    (
                        packed::definition_word(z.packed_definition / 16, t.0),
                        t.1,
                        t.2,
                    ),
                )
            }
        },
    }
}

/// A new tile-card for the tile on a cell.
pub open spec fn promoted(e: Env, db: Db, location: u64, q: u8, r: u8, owner_id: u32, tile: Tile) -> Card {
    fresh_card(
        e.bk,
        next_id(db),
        location,
        Micro::Loose { local_q: q, local_r: r, x: 0, y: 0, kind: e.snap_hex },
        owner_id,
        tile.0,
        0,
        with_stock(e.bk, with_stock(e.bk, 0, 0, tile.1), 1, tile.2),
    )
}

/// Outcome of promoting the tile on a cell: the card that is there already, or a
/// new one that carries the zone tile.
pub open spec fn promotion(e: Env, db: Db, surface: u8, macro_zone: u64, q: u8, r: u8, t: u64) -> (
    Db,
    Result<Card, TileError>,
) {
    let location = packed::on_surface(macro_zone, surface);
    match tile_card(e, db, surface, macro_zone, q, r, t) {
        Some(c) => (db, Ok(c)),
        None => match zone_tile(db, location, q, r) {
            Err(err) => (db, Err(err)),
            Ok(tile) => {
                let z = zones::latest_on(db.zones, location)->0;
                let c = promoted(e, db, location, q, r, z.owner_id, tile);
                let taken = id_taken(db);
                (card_written(taken, c, t), Ok(stamped(taken, c, t)))
            },
        },
    }
}

pub(crate) fn read_zone_tile(tb: &Tables, location: u64, q: u8, r: u8) -> (t: Result<(Tile, u32), TileError>)
    ensures
        match t {
            Err(err) => zone_tile(tb@, location, q, r) == Err::<Tile, TileError>(err),
            Ok(found) => {
                &&& zone_tile(tb@, location, q, r) == Ok::<Tile, TileError>(found.0)
                &&& zones::latest_on(tb@.zones, location) is Some
                &&& zones::latest_on(tb@.zones, location)->0.owner_id == found.1
            },
        },
{
    match zones::latest_for(&tb.zones, location) {
        None => Err(TileError::NoZone { location }),
        Some(z) => match z.tile_at(r, q) {
            None => Err(TileError::OutOfRange { q, r }),
            Some(t) => {
                if t.0 == 0 {
                    return Err(TileError::Empty { q, r });
                }
                let card_type: u8 = packed::unpack_zone_definition(z.packed_definition);
                Ok(((packed::pack_definition(card_type, t.0), t.1, t.2), z.owner_id))
            },
        },
    }
}

/// Promote the tile on a cell, or find its tile-card.
pub fn find_or_create_tile_card(
    e: &Env,
    tb: &mut Tables,
    surface: u8,
    macro_zone: u64,
    q: u8,
    r: u8,
    time_ms: u64,
) -> (card: Result<Card, TileError>)
    requires
        e.bk.wf(),
    ensures
        (final(tb)@, card) == promotion(*e, old(tb)@, surface, macro_zone, q, r, time_ms),
{
    if let Some(c) = find_tile_card_at(e, tb, surface, macro_zone, q, r, time_ms) {
        return Ok(c);
    }
    let location: u64 = packed::with_surface(macro_zone, surface);
    match read_zone_tile(tb, location, q, r) {
        Err(err) => Err(err),
        Ok(found) => {
            let s0: u32 = write_tile_stock(&e.bk, 0, 0, (found.0).1);
            let bk: u32 = write_tile_stock(&e.bk, s0, 1, (found.0).2);
            let card_id: u32 = next_card_id(tb);
            Ok(
                create_at(
                    e,
                    tb,
                    card_id,
                    time_ms,
                    location,
                    Micro::snap(q, r, e.snap_hex),
                    found.1,
                    (found.0).0,
                    0,
                    bk,
                ),
            )
        },
    }
}

/// A tile-card with one stock replaced.
pub open spec fn restocked(e: Env, c: Card, slot: int, value: u8) -> Card {
    Card { flags_bk: with_stock(e.bk, c.flags_bk, slot, value), ..c }
}

/// Set one stock of a tile-card at `time_ms`.
pub fn set_tile_stock(
    e: &Env,
    tb: &mut Tables,
    card_id: u32,
    time_ms: u64,
    slot: usize,
    value: u8,
) -> (row: Option<Card>)
    requires
        e.bk.wf(),
    ensures
        match history::prior_at(old(tb)@.cards, card_id, time_ms) {
            None => row is None && final(tb)@ == old(tb)@,
            Some(c) => {
                let n = restocked(*e, c, slot as int, value);
                &&& final(tb)@ == card_written(old(tb)@, n, time_ms)
                &&& row == Some(stamped(old(tb)@, n, time_ms))
            },
        },
{
    match prior_at(tb, card_id, time_ms) {
        None => None,
        Some(c) => {
            let flags_bk: u32 = write_tile_stock(&e.bk, c.flags_bk, slot, value);
            Some(write_at(tb, Card { flags_bk, ..c }, time_ms))
        },
    }
}

// ---- holds ---------------------------------------------------------
/// A tile-card with a hold count stepped.
pub open spec fn hold_stepped(e: Env, c: Card, kind: HoldKind, up: bool) -> Card {
    let f = e.bk.spec_count_field(kind);
    Card {
        flags_bk: if up {
            env::incremented(c.flags_bk, f)
        } else {
            env::decremented(c.flags_bk, f)
        },
        ..c
    }
}

/// Outcome of taking a hold on the tile on a cell: it is promoted first, and a
/// second exclusive hold is refused.
pub open spec fn hold_acquired(
    e: Env,
    db: Db,
    surface: u8,
    macro_zone: u64,
    q: u8,
    r: u8,
    kind: HoldKind,
    t: u64,
) -> (Db, Result<Card, TileError>) {
    let p = promotion(e, db, surface, macro_zone, q, r, t);
    match p.1 {
        Err(err) => (p.0, Err(err)),
        Ok(c) => if kind == HoldKind::SlotHold && env::field_value(
            c.flags_bk,
            e.bk.spec_count_field(kind),
        ) > 0 {
            (p.0, Err(TileError::AlreadyHeld { q, r }))
        } else {
            let n = hold_stepped(e, c, kind, true);
            (card_written(p.0, n, t), Ok(stamped(p.0, n, t)))
        },
    }
}

/// Take one reference of a hold on the tile on a cell, promoting it first.
pub fn acquire_tile_hold(
    e: &Env,
    tb: &mut Tables,
    surface: u8,
    macro_zone: u64,
    q: u8,
    r: u8,
    field: HoldKind,
    time_ms: u64,
) -> (card: Result<Card, TileError>)
    requires
        e.bk.wf(),
    ensures
        (final(tb)@, card) == hold_acquired(
            *e,
            old(tb)@,
            surface,
            macro_zone,
            q,
            r,
            field,
            time_ms,
        ),
{
    let tile = match find_or_create_tile_card(e, tb, surface, macro_zone, q, r, time_ms) {
        Err(err) => {
            return Err(err);
        },
        Ok(c) => c,
    };
    let f = e.bk.count_field(field);
    if field == HoldKind::SlotHold && env::read_field(tile.flags_bk, f) > 0 {
        return Err(TileError::AlreadyHeld { q, r });
    }
    let flags_bk: u32 = env::increment(tile.flags_bk, f);
    Ok(write_at(tb, Card { flags_bk, ..tile }, time_ms))
}

/// Give one reference of a hold back, if the cell has a tile-card.
pub fn release_tile_hold(
    e: &Env,
    tb: &mut Tables,
    surface: u8,
    macro_zone: u64,
    q: u8,
    r: u8,
    field: HoldKind,
    time_ms: u64,
) -> (card: Option<Card>)
    requires
        e.bk.wf(),
    ensures
        match tile_card(*e, old(tb)@, surface, macro_zone, q, r, time_ms) {
            None => card is None && final(tb)@ == old(tb)@,
            Some(c) => {
                let n = hold_stepped(*e, c, field, false);
                &&& final(tb)@ == card_written(old(tb)@, n, time_ms)
                &&& card == Some(stamped(old(tb)@, n, time_ms))
            },
        },
{
    match find_tile_card_at(e, tb, surface, macro_zone, q, r, time_ms) {
        None => None,
        Some(c) => {
            let f = e.bk.count_field(field);
            let flags_bk: u32 = env::decrement(c.flags_bk, f);
            Some(write_at(tb, Card { flags_bk, ..c }, time_ms))
        },
    }
}

/// The tile on a cell as a reader sees it: a tile-card takes priority over the
/// zone.
pub open spec fn tile_view(e: Env, db: Db, surface: u8, macro_zone: u64, q: u8, r: u8, t: u64) -> Option<
    Tile,
> {
    match tile_card(e, db, surface, macro_zone, q, r, t) {
        Some(c) => Some(
            (c.packed_definition, stock_value(e.bk, c.flags_bk, 0), stock_value(e.bk, c.flags_bk, 1)),
        ),
        None => match zone_tile(db, packed::on_surface(macro_zone, surface), q, r) {
            Ok(tile) => Some(tile),
            Err(_) => None,
        },
    }
}

/// Read the tile on a cell: packed definition and stocks.
pub fn tile_full_view(
    e: &Env,
    tb: &Tables,
    surface: u8,
    macro_zone: u64,
    q: u8,
    r: u8,
    time_ms: u64,
) -> (v: Option<Tile>)
    requires
        e.bk.wf(),
    ensures
        v == tile_view(*e, tb@, surface, macro_zone, q, r, time_ms),
{
    if let Some(c) = find_tile_card_at(e, tb, surface, macro_zone, q, r, time_ms) {
        return Some(
            (c.packed_definition, tile_stock(&e.bk, c.flags_bk, 0), tile_stock(&e.bk, c.flags_bk, 1)),
        );
    }
    match read_zone_tile(tb, packed::with_surface(macro_zone, surface), q, r) {
        Err(_) => None,
        Ok(found) => Some(found.0),
    }
}

// ---- laws ----------------------------------------------------------
proof fn lemma_found_at_the_end(
    bk: BkFlags,
    rows: Seq<Card>,
    row: Card,
    candidates: Seq<Card>,
    location: u64,
    q: u8,
    r: u8,
    t: u64,
)
    requires
        tile_card_at(bk, rows, candidates, location, q, r, t) is None,
        forall|i: int|
            0 <= i < candidates.len() ==> (#[trigger] candidates[i]).card_id != row.card_id,
        row.macro_zone == location,
        history::time(row) <= t,
        stands_on(bk, row, location, q, r),
        history::prior_at(rows, row.card_id, t) is None,
    ensures
        tile_card_at(bk, rows.push(row), candidates.push(row), location, q, r, t) == Some(row),
    decreases candidates.len(),
{
    let after = rows.push(row);
    assert(after.drop_last() =~= rows);
    let all = candidates.push(row);
    if candidates.len() > 0 {
        let rest = candidates.skip(1);
        assert(all.skip(1) =~= rest.push(row));
        assert forall|i: int| 0 <= i < rest.len() implies (#[trigger] rest[i]).card_id
            != row.card_id by {
            assert(rest[i] == candidates[i + 1]);
        }
        lemma_found_at_the_end(bk, rows, row, rest, location, q, r, t);
        assert(all[0] == candidates[0]);
        assert(history::prior_at(after, all[0].card_id, t) == history::prior_at(
            rows,
            all[0].card_id,
            t,
        ));
    } else {
        assert(all[0] == row);
    }
}

/// Promoting the tile on a cell twice is promoting it once: the second time finds
/// the tile-card. The cell lies in a tile zone, and the new card's id and key are
/// unused.
pub proof fn promotion_is_idempotent(
    e: Env,
    db: Db,
    surface: u8,
    macro_zone: u64,
    q: u8,
    r: u8,
    t: u64,
)
    requires
        micro::laid_out(e.bk),
        e.snap_hex <= e.bk.stack_state_max,
        t < packed::TIME_RADIX,
        promotion(e, db, surface, macro_zone, q, r, t).1 is Ok,
        zones::latest_on(db.zones, packed::on_surface(macro_zone, surface)) matches Some(z) ==> z.packed_definition
            / 16 == TILE_CARD_TYPE,
        forall|i: int| 0 <= i < db.cards.len() ==> (#[trigger] db.cards[i]).card_id != next_id(db),
        history::key_free(db.cards, packed::valid_at_key(t, db.next_sequence)),
    ensures
        ({
            let once = promotion(e, db, surface, macro_zone, q, r, t);
            promotion(e, once.0, surface, macro_zone, q, r, t) == once
        }),
{
    let location = packed::on_surface(macro_zone, surface);
    if tile_card(e, db, surface, macro_zone, q, r, t) is None {
        let tile = zone_tile(db, location, q, r)->Ok_0;
        let z = zones::latest_on(db.zones, location)->0;
        let taken = id_taken(db);
        let c = promoted(e, db, location, q, r, z.owner_id, tile);
        let row = stamped(taken, c, t);
        history::prior_at_is_greatest(db.cards, c.card_id, t);
        if let Some(p) = history::prior_at(db.cards, c.card_id, t) {
            let k = choose|k: int| 0 <= k < db.cards.len() && db.cards[k] == p;
            assert(db.cards[k].card_id != c.card_id);
        }
        packed::valid_at_round_trip(t, db.next_sequence);
        let m = Micro::Loose { local_q: q, local_r: r, x: 0, y: 0, kind: e.snap_hex };
        micro::placement_round_trip(
            m,
            with_stock(e.bk, with_stock(e.bk, 0, 0, tile.1), 1, tile.2),
            e.bk,
        );
        history::store_appends(db.cards, row, t);
        assert(stands_on(e.bk, row, location, q, r));
        lemma_found_at_the_end(e.bk, db.cards, row, db.cards, location, q, r, t);
    }
}

} // verus!
