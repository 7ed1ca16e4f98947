//! The card table of a data shard, and its bitemporal write path.
use vstd::prelude::*;

use crate::history;
use crate::history::Version;
use crate::packed;
use crate::regions::regions;
use crate::regions::zones;
use crate::shard::model;
use crate::shard::model::HoldField;
use crate::shard::model::Micro;
use crate::shard::souls;
use crate::shard::tables::Db;
use crate::shard::tables::Env;
use crate::shard::tables::Tables;
use crate::tables;
use crate::time;
use crate::time::TimeDrift;

verus! {

/// The pseudo player that owns everything without a player.
pub const WORLD_PLAYER_ID: u32 = 0;

/// Owner walks give up after this many steps.
pub const OWNER_WALK_DEPTH_CAP: u32 = 32;

/// How far ahead of the server a client's time may be: not at all.
pub const TIME_DRIFT_BUFFER_MS: u64 = 0;

/// First local card id of a fresh deployment; smaller ones are reserved.
pub const FIRST_CARD_ID: u32 = 1024;

/// Shard id of a deployment whose identity was never seeded.
pub const DATA_SHARD: u16 = 0;

/// A version of a card.
#[derive(Clone, Copy, Debug, PartialEq, Eq, Structural)]
pub struct Card {
    pub valid_at: u64,
    pub card_id: u32,
    /// Location key `[owner:u32 | surface:u8 | q:i12 | r:i12]`.
    pub macro_zone: u64,
    /// Root card id of a stack member, else the packed loose cell.
    pub micro_location: u32,
    pub owner_id: u32,
    pub packed_definition: u16,
    /// State bits, holds and placement.
    pub flags: u32,
    /// Dirty and preserve markers; they do not propagate.
    pub flags_bk: u8,
    /// Per-card variable data. A zone tile keeps only the lowest four bits.
    pub stock: u64,
}

/// The one-row allocator table of local card ids.
#[derive(Clone, Copy, Debug, PartialEq, Eq, Structural)]
pub struct CardIdCounter {
    pub id: u8,
    pub next: u32,
}

/// Which database family and shard a deployment is: one row.
#[derive(Clone, Copy, Debug, PartialEq, Eq, Structural)]
pub struct ShardIdentity {
    pub id: u8,
    pub card_db: u8,
    pub shard: u16,
}

impl Version for Card {
    open spec fn spec_entity(self) -> u32 {
        self.card_id
    }

    open spec fn spec_key(self) -> u64 {
        self.valid_at
    }

    fn entity(&self) -> (id: u32) {
        self.card_id
    }

    fn key(&self) -> (k: u64) {
        self.valid_at
    }
}

// ---- hold counts ---------------------------------------------------
/// The exclusive hold count of a `flags` word.
pub fn slot_claim_count(e: &Env, flags: u32) -> (n: u32)
    requires
        e.wf(),
    ensures
        n == model::hold_value(e.layout, flags, HoldField::SlotClaim),
{
    model::hold_count(&e.layout, flags, HoldField::SlotClaim)
}

/// The shared hold count of a `flags` word.
pub fn slot_borrow_count(e: &Env, flags: u32) -> (n: u32)
    requires
        e.wf(),
    ensures
        n == model::hold_value(e.layout, flags, HoldField::SlotBorrow),
{
    model::hold_count(&e.layout, flags, HoldField::SlotBorrow)
}

/// The position hold count of a `flags` word.
pub fn position_hold_count(e: &Env, flags: u32) -> (n: u32)
    requires
        e.wf(),
    ensures
        n == model::hold_value(e.layout, flags, HoldField::PositionHold),
{
    model::hold_count(&e.layout, flags, HoldField::PositionHold)
}

/// The touch count of a `flags` word.
pub fn touch_count(e: &Env, flags: u32) -> (n: u32)
    requires
        e.wf(),
    ensures
        n == model::hold_value(e.layout, flags, HoldField::Touch),
{
    model::hold_count(&e.layout, flags, HoldField::Touch)
}

/// The server count of a `flags` word.
pub fn server_count(e: &Env, flags: u32) -> (n: u32)
    requires
        e.wf(),
    ensures
        n == model::hold_value(e.layout, flags, HoldField::Server),
{
    model::hold_count(&e.layout, flags, HoldField::Server)
}

/// The stacking-block count of a `flags` word.
pub fn drop_hold_count(e: &Env, flags: u32) -> (n: u32)
    requires
        e.wf(),
    ensures
        n == model::hold_value(e.layout, flags, HoldField::DropHold),
{
    model::hold_count(&e.layout, flags, HoldField::DropHold)
}

// ---- placement -----------------------------------------------------
/// The placement of a card row.
pub open spec fn placement(card: Card) -> Micro {
    model::decoded(card.micro_location, card.flags)
}

/// `card` with its placement replaced.
pub open spec fn placed(m: Micro, card: Card) -> Card {
    let a = model::applied(m, card.flags);
    Card { micro_location: a.0, flags: a.1, ..card }
}

/// Placing a micro placement directly onto a card row.
pub trait MicroPlace: Sized {
    spec fn spec_micro(self) -> Micro;

    /// Write `micro_location` and the placement bits of `flags`; every other bit
    /// of `flags` is preserved.
    fn place(self, card: &mut Card)
        ensures
            *final(card) == placed(self.spec_micro(), *old(card)),
    ;
}

impl MicroPlace for Micro {
    open spec fn spec_micro(self) -> Micro {
        self
    }

    fn place(self, card: &mut Card) {
        let a: (u32, u32) = self.apply(card.flags);
        card.micro_location = a.0;
        card.flags = a.1;
    }
}

/// Decode a card row's placement.
pub fn micro_of(card: &Card) -> (m: Micro)
    ensures
        m == placement(*card),
{
    Micro::of(card.micro_location, card.flags)
}

pub open spec fn is_member(card: Card) -> bool {
    card.flags % 16 != 0
}

/// True when `micro_location` is a root card id.
pub fn micro_is_card(card: &Card) -> (r: bool)
    ensures
        r == is_member(*card),
{
    card.flags % 16 != 0
}

/// The branch of a stack member.
pub open spec fn branch_of(card: Card) -> u8 {
    if is_member(card) {
        (card.flags % 16 - 1) as u8
    } else {
        0
    }
}

/// The branch of a stack member, `0` for a loose card.
pub fn stack_branch(card: &Card) -> (b: u8)
    ensures
        b == branch_of(*card),
{
    if card.flags % 16 != 0 {
        (card.flags % 16 - 1) as u8
    } else {
        0
    }
}

/// The slot of a stack member.
pub fn stack_index(card: &Card) -> (i: u8)
    ensures
        i == card.flags / 16 % 16,
{
    (card.flags / 16 % 16) as u8
}

/// The root of the stack that a card is a member of, 0 for a loose card.
pub open spec fn root_of(card: Card) -> u32 {
    if is_member(card) {
        card.micro_location
    } else {
        0
    }
}

/// The root that a stack member points at, `0` for a loose card.
pub fn root_of_member(card: &Card) -> (root: u32)
    ensures
        root == root_of(*card),
{
    if micro_is_card(card) {
        card.micro_location
    } else {
        0
    }
}

// ---- reads ---------------------------------------------------------
/// The row of a card that is in force now.
pub open spec fn current(e: Env, db: Db, card_id: u32) -> Option<Card> {
    history::prior_at(db.cards, card_id, e.now_ms)
}

/// Row in force at wall-clock now. Future-stamped rows do not count.
pub fn latest(e: &Env, t: &Tables, card_id: u32) -> (found: Option<Card>)
    ensures
        found == current(*e, t@, card_id),
{
    history::find_prior_at(&t.cards, card_id, e.now_ms)
}

/// Row in force at `time_ms`.
pub fn prior_at(t: &Tables, card_id: u32, time_ms: u64) -> (found: Option<Card>)
    ensures
        found == history::prior_at(t@.cards, card_id, time_ms),
{
    history::find_prior_at(&t.cards, card_id, time_ms)
}

pub open spec fn is_dead(e: Env, card: Card) -> bool {
    card.flags & e.state.dead != 0
}

/// The card is a player's soul, by its definition.
pub open spec fn is_player_soul(card: Card) -> bool {
    card.packed_definition >= model::PLAYER_SOUL_FLOOR
}

// ---- free cells ----------------------------------------------------
/// The row leads to a live card that stands loose on a cell of a zone at `t`.
pub open spec fn shows_occupant(
    e: Env,
    cards: Seq<Card>,
    row: Card,
    macro_zone: u64,
    q: u8,
    r: u8,
    t: u64,
) -> bool {
    &&& row.macro_zone == macro_zone
    &&& history::prior_at(cards, row.card_id, t) matches Some(c) && c.macro_zone == macro_zone
        && !is_dead(e, c) && (placement(c) matches Micro::Loose { local_q, local_r, .. } && local_q
        == q && local_r == r)
}

/// Some live card stands loose on a cell of a zone at `t`.
pub open spec fn taken(e: Env, db: Db, macro_zone: u64, q: u8, r: u8, t: u64) -> bool {
    exists|i: int|
        0 <= i < db.cards.len() && shows_occupant(
            e,
            db.cards,
            #[trigger] db.cards[i],
            macro_zone,
            q,
            r,
            t,
        )
}

fn is_taken(e: &Env, tb: &Tables, macro_zone: u64, q: u8, r: u8, time_ms: u64) -> (yes: bool)
    ensures
        yes == taken(*e, tb@, macro_zone, q, r, time_ms),
{
    let mut i: usize = 0;
    while i < tb.cards.len()
        invariant
            i <= tb.cards.len(),
            forall|j: int|
                0 <= j < i ==> !shows_occupant(
                    *e,
                    tb@.cards,
                    #[trigger] tb@.cards[j],
                    macro_zone,
                    q,
                    r,
                    time_ms,
                ),
        decreases tb.cards.len() - i,
    {
        let row = tb.cards[i];
        if row.macro_zone == macro_zone {
            if let Some(c) = prior_at(tb, row.card_id, time_ms) {
                if c.macro_zone == macro_zone && c.flags & e.state.dead == 0 {
                    if let Micro::Loose { local_q, local_r, .. } = micro_of(&c) {
                        if local_q == q && local_r == r {
                            assert(shows_occupant(
                                *e,
                                tb@.cards,
                                tb@.cards[i as int],
                                macro_zone,
                                q,
                                r,
                                time_ms,
                            ));
                            return true;
                        }
                    }
                }
            }
        }
        i = i + 1;
    }
    false
}

/// Cell number `k` of a zone, counted row by row, lies within `distance` tiles of
/// the origin and is free at `t`.
pub open spec fn is_free(e: Env, db: Db, macro_zone: u64, distance: u16, t: u64, k: int) -> bool {
    let c = packed::zone_coords(macro_zone);
    let q = (k % 7) as u8;
    let r = (k / 7) as u8;
    &&& zones::hex_len(packed::tile_coord(c.0, q), packed::tile_coord(c.1, r)) <= distance
    &&& !taken(e, db, macro_zone, q, r, t)
}

/// The first free cell from number `k` on; `(0, 0)` where none is left.
pub open spec fn free_from(e: Env, db: Db, macro_zone: u64, distance: u16, t: u64, k: int) -> (u8, u8)
    decreases 49 - k,
{
    if k >= 49 {
        (0, 0)
    } else if is_free(e, db, macro_zone, distance, t, k) {
        ((k % 7) as u8, (k / 7) as u8)
    } else {
        free_from(e, db, macro_zone, distance, t, k + 1)
    }
}

/// The first unoccupied cell of a zone at `time_ms`, row by row, among those
/// within `distance` tiles of the origin.
pub fn first_free_cell(e: &Env, tb: &Tables, macro_zone: u64, distance: u16, time_ms: u64) -> (cell: (
    u8,
    u8,
))
    ensures
        cell == free_from(*e, tb@, macro_zone, distance, time_ms, 0),
{
    let c: (i32, i32) = packed::unpack_macro_zone(macro_zone);
    let mut r: u8 = 0;
    while r < 7
        invariant
            r <= 7,
            c == packed::zone_coords(macro_zone),
            -2048 <= c.0 < 2048,
            -2048 <= c.1 < 2048,
            free_from(*e, tb@, macro_zone, distance, time_ms, 0) == free_from(
                *e,
                tb@,
                macro_zone,
                distance,
                time_ms,
                r * 7,
            ),
        decreases 7 - r,
    {
        let mut q: u8 = 0;
        while q < 7
            invariant
                q <= 7,
                r < 7,
                c == packed::zone_coords(macro_zone),
                -2048 <= c.0 < 2048,
                -2048 <= c.1 < 2048,
                free_from(*e, tb@, macro_zone, distance, time_ms, 0) == free_from(
                    *e,
                    tb@,
                    macro_zone,
                    distance,
                    time_ms,
                    r * 7 + q,
                ),
            decreases 7 - q,
        {
            assert((r * 7 + q) % 7 == q && (r * 7 + q) / 7 == r);
            let tq: i32 = packed::world_tile(c.0, q);
            let tr: i32 = packed::world_tile(c.1, r);
            if regions::hex_dist(tq, tr, 0, 0) <= distance as i32 {
                if !is_taken(e, tb, macro_zone, q, r, time_ms) {
                    return (q, r);
                }
            }
            q = q + 1;
        }
        r = r + 1;
    }
    (0, 0)
}

/// Where an owner walk over the rows in force at `time_ms` ends.
pub enum OwnerWalk {
    /// At a soul: `(soul card id, player id)`.
    Soul(u32, u32),
    /// At a card that the world owns.
    World,
    /// At a missing card, or after too many steps.
    Lost,
}

/// Follow `owner_id` upward from `card_id` for at most `steps` cards.
pub open spec fn owner_walk(cards: Seq<Card>, card_id: u32, time_ms: u64, steps: nat) -> OwnerWalk
    decreases steps,
{
    if steps == 0 {
        OwnerWalk::Lost
    } else {
        match history::prior_at(cards, card_id, time_ms) {
            None => OwnerWalk::Lost,
            Some(row) => if is_player_soul(row) {
                OwnerWalk::Soul(card_id, row.owner_id)
            } else if row.owner_id == 0 {
                OwnerWalk::World
            } else {
                owner_walk(cards, row.owner_id, time_ms, (steps - 1) as nat)
            },
        }
    }
}

fn walk_owners(t: &Tables, card_id: u32, time_ms: u64) -> (end: OwnerWalk)
    ensures
        end == owner_walk(t@.cards, card_id, time_ms, 32),
{
    let mut cur: u32 = card_id;
    let mut left: u32 = OWNER_WALK_DEPTH_CAP;
    while left > 0
        invariant
            left <= 32,
            owner_walk(t@.cards, card_id, time_ms, 32) == owner_walk(t@.cards,
                cur,
                time_ms,
                left as nat,
            ),
        decreases left,
    {
        match prior_at(t, cur, time_ms) {
            None => {
                return OwnerWalk::Lost;
            },
            Some(row) => {
                if model::is_player_soul(row.packed_definition) {
                    return OwnerWalk::Soul(cur, row.owner_id);
                }
                if row.owner_id == 0 {
                    return OwnerWalk::World;
                }
                cur = row.owner_id;
                left = left - 1;
            },
        }
    }
    OwnerWalk::Lost
}

/// The player that ultimately owns a card; the world is player `0`. `None` for
/// a broken chain.
pub open spec fn player_of(e: Env, db: Db, card_id: u32) -> Option<u32> {
    match owner_walk(db.cards, card_id, e.now_ms, 32) {
        OwnerWalk::Soul(_, p) => Some(p),
        OwnerWalk::World => Some(WORLD_PLAYER_ID),
        OwnerWalk::Lost => None,
    }
}

/// The soul that contains a card at `time_ms`.
pub open spec fn soul_at(db: Db, card_id: u32, time_ms: u64) -> Option<u32> {
    match owner_walk(db.cards, card_id, time_ms, 32) {
        OwnerWalk::Soul(s, _) => Some(s),
        _ => None,
    }
}

/// Resolve the player who ultimately owns `card_id`.
pub fn owning_player(e: &Env, t: &Tables, card_id: u32) -> (p: Option<u32>)
    ensures
        p == player_of(*e, t@, card_id),
{
    match walk_owners(t, card_id, e.now_ms) {
        OwnerWalk::Soul(_, p) => Some(p),
        OwnerWalk::World => Some(WORLD_PLAYER_ID),
        OwnerWalk::Lost => None,
    }
}

/// Resolve which soul contains `card_id` at `time_ms`.
pub fn owning_soul_at(t: &Tables, card_id: u32, time_ms: u64) -> (s: Option<u32>)
    ensures
        s == soul_at(t@, card_id, time_ms),
{
    match walk_owners(t, card_id, time_ms) {
        OwnerWalk::Soul(s, _) => Some(s),
        _ => None,
    }
}

/// Resolve which soul contains `card_id` now.
pub fn owning_soul(e: &Env, t: &Tables, card_id: u32) -> (s: Option<u32>)
    ensures
        s == soul_at(t@, card_id, e.now_ms),
{
    owning_soul_at(t, card_id, e.now_ms)
}

/// The inventory bucket of a card: a soul is its own, any other card lives in
/// its owner's; `0` for an unknown card.
pub open spec fn container_at(db: Db, card_id: u32, time_ms: u64) -> u32 {
    match history::prior_at(db.cards, card_id, time_ms) {
        None => 0,
        Some(row) => if is_player_soul(row) {
            card_id
        } else {
            row.owner_id
        },
    }
}

/// Resolve the inventory bucket of `card_id` at `time_ms`.
pub fn inventory_container_for_at(t: &Tables, card_id: u32, time_ms: u64) -> (c: u32)
    ensures
        c == container_at(t@, card_id, time_ms),
{
    match prior_at(t, card_id, time_ms) {
        None => 0,
        Some(row) => {
            if model::is_player_soul(row.packed_definition) {
                card_id
            } else {
                row.owner_id
            }
        },
    }
}

/// Resolve the inventory bucket of `card_id` now.
pub fn inventory_container_for(e: &Env, t: &Tables, card_id: u32) -> (c: u32)
    ensures
        c == container_at(t@, card_id, e.now_ms),
{
    inventory_container_for_at(t, card_id, e.now_ms)
}

/// Walking up from `cur` meets `card_id` as an owner, or does not end within
/// `steps` cards.
pub open spec fn reaches(cards: Seq<Card>, cur: u32, card_id: u32, time_ms: u64, steps: nat) -> bool
    decreases steps,
{
    if steps == 0 {
        true
    } else {
        match history::prior_at(cards, cur, time_ms) {
            None => false,
            Some(row) => if is_player_soul(row) || row.owner_id == 0 {
                false
            } else {
                row.owner_id == card_id || reaches(
                    cards,
                    row.owner_id,
                    card_id,
                    time_ms,
                    (steps - 1) as nat,
                )
            },
        }
    }
}

/// Making `new_owner` the owner of `card_id` would close a loop, or the chain
/// above `new_owner` is too long to tell.
pub open spec fn closes_cycle(e: Env, db: Db, card_id: u32, new_owner: u32) -> bool {
    new_owner != 0 && (new_owner == card_id || reaches(db.cards,
        new_owner,
        card_id,
        e.now_ms,
        32,
    ))
}

/// Pre-flight check for setting `card_id.owner_id = new_owner_card_id`.
pub fn would_cycle(e: &Env, t: &Tables, card_id: u32, new_owner_card_id: u32) -> (r: bool)
    ensures
        r == closes_cycle(*e, t@, card_id, new_owner_card_id),
{
    if new_owner_card_id == 0 {
        return false;
    }
    if new_owner_card_id == card_id {
        return true;
    }
    let mut cur: u32 = new_owner_card_id;
    let mut left: u32 = OWNER_WALK_DEPTH_CAP;
    while left > 0
        invariant
            left <= 32,
            reaches(t@.cards, new_owner_card_id, card_id, e.now_ms, 32) == reaches(t@.cards,
                cur,
                card_id,
                e.now_ms,
                left as nat,
            ),
            new_owner_card_id != 0,
            new_owner_card_id != card_id,
        decreases left,
    {
        match latest(e, t, cur) {
            None => {
                return false;
            },
            Some(row) => {
                if model::is_player_soul(row.packed_definition) {
                    return false;
                }
                if row.owner_id == 0 {
                    return false;
                }
                if row.owner_id == card_id {
                    return true;
                }
                cur = row.owner_id;
                left = left - 1;
            },
        }
    }
    true
}

// ---- the write path ------------------------------------------------
/// `flags_bk` of a row about to replace `prev`: the dirty markers say whether
/// the position and the data differ; a first row is dirty in both. Holds count
/// as neither.
pub open spec fn marked(e: Env, card: Card, prev: Option<Card>) -> u8 {
    let clean = card.flags_bk & !(e.bk.position_dirty | e.bk.data_dirty);
    let sm = model::state_bits(e.state);
    let pos = match prev {
        Some(p) => card.macro_zone != p.macro_zone || card.micro_location != p.micro_location
            || card.flags % 256 != p.flags % 256,
        None => true,
    };
    let data = match prev {
        Some(p) => card.owner_id != p.owner_id || card.packed_definition != p.packed_definition || (
        card.flags & sm) != (p.flags & sm),
        None => true,
    };
    let with_pos = if pos {
        clean | e.bk.position_dirty
    } else {
        clean
    };
    if data {
        with_pos | e.bk.data_dirty
    } else {
        with_pos
    }
}

fn mark(e: &Env, card: &Card, prev: &Option<Card>) -> (flags_bk: u8)
    ensures
        flags_bk == marked(*e, *card, *prev),
{
    let mut bk: u8 = card.flags_bk & !(e.bk.position_dirty | e.bk.data_dirty);
    let sm: u32 = model::state_mask(&e.state);
    let (pos, data): (bool, bool) = match prev {
        Some(p) => (
            card.macro_zone != p.macro_zone || card.micro_location != p.micro_location || card.flags
                % 256 != p.flags % 256,
            card.owner_id != p.owner_id || card.packed_definition != p.packed_definition || (
            card.flags & sm) != (p.flags & sm),
        ),
        None => (true, true),
    };
    if pos {
        bk = bk | e.bk.position_dirty;
    }
    if data {
        bk = bk | e.bk.data_dirty;
    }
    bk
}

/// Carry freshly set and cleared state bits into the versions of `id` after
/// `t`, in order of time. A bit stops at the first version that already
/// differs from what it was before; a version marked to preserve its data is
/// passed over untouched.
pub open spec fn carried(
    cards: Seq<Card>,
    id: u32,
    t: u64,
    set_bits: u32,
    clear_bits: u32,
    preserve: u8,
) -> Seq<Card>
    decreases u64::MAX - t,
{
    if set_bits == 0 && clear_bits == 0 {
        cards
    } else {
        match history::next_version(cards, id, t) {
            None => cards,
            Some(i) => {
                let row = cards[i];
                let at = history::time(row);
                if at <= t {
                    cards
                } else if row.flags_bk & preserve != 0 {
                    carried(cards, id, at, set_bits, clear_bits, preserve)
                } else {
                    let set2 = set_bits & !row.flags;
                    let clear2 = clear_bits & row.flags;
                    if set2 == 0 && clear2 == 0 {
                        cards
                    } else {
                        let next = Card { flags: (row.flags & !clear2) | set2, ..row };
                        carried(cards.update(i, next), id, at, set2, clear2, preserve)
                    }
                }
            },
        }
    }
}

/// Forward-propagate the state-flag difference of a write.
fn propagate_flag_diff_forward(
    e: &Env,
    tb: &mut Tables,
    card_id: u32,
    new_state: u32,
    prev_state: u32,
    time_ms: u64,
)
    ensures
        final(tb)@ == (Db {
            cards: carried(
                old(tb)@.cards,
                card_id,
                time_ms,
                new_state & !prev_state,
                prev_state & !new_state,
                e.bk.data_preserve,
            ),
            ..old(tb)@
        }),
{
    let mut set_bits: u32 = new_state & !prev_state;
    let mut clear_bits: u32 = prev_state & !new_state;
    let mut at: u64 = time_ms;
    let ghost start = tb@;
    let ghost goal = carried(
        start.cards,
        card_id,
        time_ms,
        set_bits,
        clear_bits,
        e.bk.data_preserve,
    );
    while set_bits != 0 || clear_bits != 0
        invariant
            tb@ == (Db { cards: tb@.cards, ..start }),
            goal == carried(
                tb@.cards,
                card_id,
                at,
                set_bits,
                clear_bits,
                e.bk.data_preserve,
            ),
        ensures
            tb@ == (Db { cards: goal, ..start }),
        decreases u64::MAX - at,
    {
        match history::find_next_version(&tb.cards, card_id, at) {
            None => {
                break ;
            },
            Some(i) => {
                let row = tb.cards[i];
                at = packed::valid_at_time(row.valid_at);
                if row.flags_bk & e.bk.data_preserve == 0 {
                    set_bits = set_bits & !row.flags;
                    clear_bits = clear_bits & row.flags;
                    if set_bits == 0 && clear_bits == 0 {
                        break ;
                    }
                    let mut updated = row;
                    updated.flags = (row.flags & !clear_bits) | set_bits;
                    tb.cards.set(i, updated);
                }
            },
        }
    }
}

/// The state bits that are set in one flag word and not in the other.
pub open spec fn set_by(e: Env, flags: u32, prev: u32) -> u32 {
    let sm = model::state_bits(e.state);
    (flags & sm) & !(prev & sm)
}

/// The row that a write of `card` at `t` stores.
pub open spec fn stamped(e: Env, db: Db, card: Card, t: u64) -> Card {
    Card {
        valid_at: packed::valid_at_key(t, db.next_sequence),
        flags_bk: marked(e, card, history::prior_at(db.cards, card.card_id, t)),
        ..card
    }
}

/// `db` after storing one version of a card at `t`, with the soul tables and
/// the later versions of the card brought in step, but no other card.
pub open spec fn row_written(e: Env, db: Db, card: Card, t: u64) -> Db {
    let prev = history::prior_at(db.cards, card.card_id, t);
    let row = stamped(e, db, card, t);
    let d1 = Db {
        cards: history::stored(db.cards, row, t),
        next_sequence: tables::sequence_after(db.next_sequence),
        ..db
    };
    let d2 = souls::mirrored(d1, row, t);
    match prev {
        None => d2,
        Some(p) => Db {
            cards: carried(
                d2.cards,
                card.card_id,
                t,
                set_by(e, row.flags, p.flags),
                set_by(e, p.flags, row.flags),
                e.bk.data_preserve,
            ),
            ..d2
        },
    }
}

fn write_row(e: &Env, tb: &mut Tables, card: Card, time_ms: u64, prev: Option<Card>) -> (row: Card)
    requires
        prev == history::prior_at(old(tb)@.cards, card.card_id, time_ms),
    ensures
        final(tb)@ == row_written(*e, old(tb)@, card, time_ms),
        row == stamped(*e, old(tb)@, card, time_ms),
{
    let seq: u16 = tables::advance(&mut tb.next_sequence);
    let mut row = card;
    row.valid_at = packed::pack_valid_at(time_ms, seq);
    row.flags_bk = mark(e, &card, &prev);
    history::store(&mut tb.cards, row, time_ms);
    souls::on_card_write(tb, &row, time_ms);
    match prev {
        None => {},
        Some(p) => {
            let sm: u32 = model::state_mask(&e.state);
            propagate_flag_diff_forward(
                e,
                tb,
                card.card_id,
                row.flags & sm,
                p.flags & sm,
                time_ms,
            );
        },
    }
    row
}

/// At `t` the card `id` is a deferred member of `host`.
pub open spec fn deferred_on(cards: Seq<Card>, id: u32, host: u32, t: u64) -> bool {
    match history::prior_at(cards, id, t) {
        None => false,
        Some(c) => c.micro_location == host && is_member(c) && branch_of(c)
            == packed::STACK_STATE_DEFERRED,
    }
}

/// The deferred members of `host` at `t`, each once, in the order in which
/// `prefix` first shows them.
pub open spec fn follower_ids(cards: Seq<Card>, prefix: Seq<Card>, host: u32, t: u64) -> Seq<u32>
    decreases prefix.len(),
{
    if prefix.len() == 0 {
        Seq::empty()
    } else {
        let before = follower_ids(cards, prefix.drop_last(), host, t);
        let row = prefix.last();
        if row.micro_location == host && !before.contains(row.card_id) && deferred_on(
            cards,
            row.card_id,
            host,
            t,
        ) {
            before.push(row.card_id)
        } else {
            before
        }
    }
}

/// Every card that is a deferred member of `host_id` at `time_ms`.
fn state_3_followers(tb: &Tables, host_id: u32, time_ms: u64) -> (ids: Vec<u32>)
    ensures
        ids@ == follower_ids(tb@.cards, tb@.cards, host_id, time_ms),
{
    let mut out: Vec<u32> = Vec::new();
    let mut i: usize = 0;
    while i < tb.cards.len()
        invariant
            i <= tb.cards.len(),
            out@ == follower_ids(tb@.cards, tb@.cards.take(i as int), host_id, time_ms),
        decreases tb.cards.len() - i,
    {
        let row = tb.cards[i];
        proof {
            let next = tb@.cards.take(i + 1);
            assert(next.drop_last() =~= tb@.cards.take(i as int));
            assert(next.last() == row);
        }
        if row.micro_location == host_id && !crate::cards::cards::holds_id(&out, row.card_id) {
            match prior_at(tb, row.card_id, time_ms) {
                None => {},
                Some(c) => {
                    if c.micro_location == host_id && micro_is_card(&c) && stack_branch(&c)
                        == packed::STACK_STATE_DEFERRED {
                        out.push(row.card_id);
                    }
                },
            }
        }
        i = i + 1;
    }
    assert(tb@.cards.take(tb@.cards.len() as int) =~= tb@.cards);
    out
}

/// A follower after its host died (it loses its anchor) or moved (it comes
/// along).
pub open spec fn follower_edit(host_died: bool, macro_zone: u64, c: Card) -> Card {
    if host_died {
        Card { micro_location: 0, ..c }
    } else {
        Card { macro_zone, ..c }
    }
}

/// `db` after bringing the followers `ids` in step with their host at `t`.
pub open spec fn followers_written(
    e: Env,
    db: Db,
    ids: Seq<u32>,
    host_died: bool,
    macro_zone: u64,
    t: u64,
    depth: nat,
) -> Db
    decreases depth, ids.len() + 1,
{
    if ids.len() == 0 {
        db
    } else {
        let d = followers_written(e, db, ids.drop_last(), host_died, macro_zone, t, depth);
        match history::prior_at(d.cards, ids.last(), t) {
            None => d,
            Some(c) => written(e, d, follower_edit(host_died, macro_zone, c), t, depth),
        }
    }
}

/// `db` after writing `card` at `t`. Should the host of deferred members move
/// or die, they follow, down to `depth` levels.
pub open spec fn written(e: Env, db: Db, card: Card, t: u64, depth: nat) -> Db
    decreases depth, 0nat,
{
    let prev = history::prior_at(db.cards, card.card_id, t);
    let d = row_written(e, db, card, t);
    let moved = match prev {
        Some(p) => p.macro_zone != card.macro_zone,
        None => false,
    };
    let died = is_dead(e, card) && match prev {
        Some(p) => !is_dead(e, p),
        None => true,
    };
    if depth == 0 || (!moved && !died) {
        d
    } else {
        followers_written(
            e,
            d,
            follower_ids(d.cards, d.cards, card.card_id, t),
            died,
            card.macro_zone,
            t,
            (depth - 1) as nat,
        )
    }
}

/// Levels of followers that a write reaches. A chain of deferred members is no
/// longer than the table.
pub open spec fn cascade_depth(db: Db) -> nat {
    db.cards.len() + 1
}

/// `db` after writing `card` at `t`.
pub open spec fn after_write(e: Env, db: Db, card: Card, t: u64) -> Db {
    written(e, db, card, t, cascade_depth(db))
}

fn write_chain(e: &Env, tb: &mut Tables, card: Card, time_ms: u64, depth: u128) -> (row: Card)
    ensures
        final(tb)@ == written(*e, old(tb)@, card, time_ms, depth as nat),
        row == stamped(*e, old(tb)@, card, time_ms),
    decreases depth,
{
    let prev: Option<Card> = prior_at(tb, card.card_id, time_ms);
    let row = write_row(e, tb, card, time_ms, prev);
    let moved: bool = match prev {
        Some(p) => p.macro_zone != card.macro_zone,
        None => false,
    };
    let died: bool = card.flags & e.state.dead != 0 && match prev {
        Some(p) => p.flags & e.state.dead == 0,
        None => true,
    };
    if depth == 0 || (!moved && !died) {
        return row;
    }
    let ids: Vec<u32> = state_3_followers(tb, card.card_id, time_ms);
    let ghost d = tb@;
    let mut i: usize = 0;
    assert(ids@.take(0) =~= Seq::empty());
    while i < ids.len()
        invariant
            i <= ids.len(),
            depth > 0,
            tb@ == followers_written(
                *e,
                d,
                ids@.take(i as int),
                died,
                card.macro_zone,
                time_ms,
                (depth - 1) as nat,
            ),
        decreases ids.len() - i,
    {
        let id: u32 = ids[i];
        proof {
            let next = ids@.take(i + 1);
            assert(next.drop_last() =~= ids@.take(i as int));
            assert(next.last() == id);
        }
        match prior_at(tb, id, time_ms) {
            None => {},
            Some(found) => {
                let mut c = found;
                if died {
                    c.micro_location = 0;
                } else {
                    c.macro_zone = card.macro_zone;
                }
                let _ = write_chain(e, tb, c, time_ms, depth - 1);
            },
        }
        i = i + 1;
    }
    assert(ids@.take(ids.len() as int) =~= ids@);
    row
}

/// Store a version of a card at `time_ms`, the single entry point of card
/// writes. The last write at a time wins; dirty markers, soul tables, later
/// versions and deferred followers are brought in step.
pub fn write_at(e: &Env, tb: &mut Tables, card: Card, time_ms: u64) -> (row: Card)
    ensures
        final(tb)@ == after_write(*e, old(tb)@, card, time_ms),
        row == stamped(*e, old(tb)@, card, time_ms),
{
    let depth: u128 = tb.cards.len() as u128 + 1;
    write_chain(e, tb, card, time_ms, depth)
}

/// `db` after deleting the versions of a card at exactly `t`.
pub open spec fn version_deleted(db: Db, card_id: u32, t: u64) -> Db {
    Db { cards: history::without_version(db.cards, card_id, t), ..db }
}

/// Delete every row of `card_id` that starts exactly at `time_ms`.
pub fn delete_at(tb: &mut Tables, card_id: u32, time_ms: u64)
    ensures
        final(tb)@ == version_deleted(old(tb)@, card_id, time_ms),
{
    history::remove_version(&mut tb.cards, card_id, time_ms);
}

/// A card about to be created: the placement is written over the caller's state
/// bits.
pub open spec fn fresh_card(
    card_id: u32,
    macro_zone: u64,
    m: Micro,
    owner_id: u32,
    packed_definition: u16,
    flags: u32,
    stock: u64,
) -> Card {
    placed(
        m,
        Card {
            valid_at: 0,
            card_id,
            macro_zone,
            micro_location: 0,
            owner_id,
            packed_definition,
            flags,
            flags_bk: 0,
            stock,
        },
    )
}

/// Create a card with its first row at `time_ms`.
pub fn create_at(
    e: &Env,
    tb: &mut Tables,
    card_id: u32,
    time_ms: u64,
    macro_zone: u64,
    m: Micro,
    owner_id: u32,
    packed_definition: u16,
    flags: u32,
    stock: u64,
) -> (row: Card)
    ensures
        ({
            let card = fresh_card(
                card_id,
                macro_zone,
                m,
                owner_id,
                packed_definition,
                flags,
                stock,
            );
            &&& final(tb)@ == after_write(*e, old(tb)@, card, time_ms)
            &&& row == stamped(*e, old(tb)@, card, time_ms)
        }),
{
    let mut card = Card {
        valid_at: 0,
        card_id,
        macro_zone,
        micro_location: 0,
        owner_id,
        packed_definition,
        flags,
        flags_bk: 0,
        stock,
    };
    m.place(&mut card);
    write_at(e, tb, card, time_ms)
}

/// Create a card with its first row now.
pub fn create(
    e: &Env,
    tb: &mut Tables,
    card_id: u32,
    macro_zone: u64,
    m: Micro,
    owner_id: u32,
    packed_definition: u16,
    flags: u32,
    stock: u64,
) -> (row: Card)
    ensures
        ({
            let card = fresh_card(
                card_id,
                macro_zone,
                m,
                owner_id,
                packed_definition,
                flags,
                stock,
            );
            &&& final(tb)@ == after_write(*e, old(tb)@, card, e.now_ms)
            &&& row == stamped(*e, old(tb)@, card, e.now_ms)
        }),
{
    create_at(e, tb, card_id, e.now_ms, macro_zone, m, owner_id, packed_definition, flags, stock)
}

/// Edit the row in force at `time_ms` and store the result at that time. Gives
/// `None`, and writes nothing, where no row is in force.
pub fn update_with_at<F: FnOnce(Card) -> Card>(
    e: &Env,
    tb: &mut Tables,
    card_id: u32,
    time_ms: u64,
    f: F,
) -> (row: Option<Card>)
    requires
        forall|c: Card| #[trigger] f.requires((c,)),
    ensures
        match history::prior_at(old(tb)@.cards, card_id, time_ms) {
            None => row is None && final(tb)@ == old(tb)@,
            Some(c) => exists|edited: Card| #[trigger]
                f.ensures((c,), edited) && final(tb)@ == after_write(
                    *e,
                    old(tb)@,
                    edited,
                    time_ms,
                ) && row == Some(stamped(*e, old(tb)@, edited, time_ms)),
        },
{
    match prior_at(tb, card_id, time_ms) {
        None => None,
        Some(c) => {
            let edited: Card = f(c);
            Some(write_at(e, tb, edited, time_ms))
        },
    }
}

/// Edit the row in force now and store the result now.
pub fn update_with<F: FnOnce(Card) -> Card>(e: &Env, tb: &mut Tables, card_id: u32, f: F) -> (row:
    Option<Card>)
    requires
        forall|c: Card| #[trigger] f.requires((c,)),
    ensures
        match current(*e, old(tb)@, card_id) {
            None => row is None && final(tb)@ == old(tb)@,
            Some(c) => exists|edited: Card| #[trigger]
                f.ensures((c,), edited) && final(tb)@ == after_write(
                    *e,
                    old(tb)@,
                    edited,
                    e.now_ms,
                ) && row == Some(stamped(*e, old(tb)@, edited, e.now_ms)),
        },
{
    update_with_at(e, tb, card_id, e.now_ms, f)
}

/// `db` after editing the row of a card in force at `t`; unchanged where none is.
pub open spec fn edited(e: Env, db: Db, card_id: u32, t: u64, f: spec_fn(Card) -> Card) -> Db {
    match history::prior_at(db.cards, card_id, t) {
        None => db,
        Some(c) => after_write(e, db, f(c), t),
    }
}

pub open spec fn redefined(c: Card, packed_definition: u16) -> Card {
    Card { packed_definition, ..c }
}

pub open spec fn reflagged(c: Card, flags: u32) -> Card {
    Card { flags, ..c }
}

/// Change a card's definition now.
pub fn set_packed_definition(e: &Env, tb: &mut Tables, card_id: u32, packed_definition: u16) -> (row:
    Option<Card>)
    ensures
        final(tb)@ == edited(
            *e,
            old(tb)@,
            card_id,
            e.now_ms,
            |c: Card| redefined(c, packed_definition),
        ),
        row == match current(*e, old(tb)@, card_id) {
            Some(c) => Some(stamped(*e, old(tb)@, redefined(c, packed_definition), e.now_ms)),
            None => None,
        },
{
    match latest(e, tb, card_id) {
        None => None,
        Some(c) => Some(write_at(e, tb, Card { packed_definition, ..c }, e.now_ms)),
    }
}

/// Replace a card's state flags now.
pub fn set_flags(e: &Env, tb: &mut Tables, card_id: u32, flags: u32) -> (row: Option<
    Card,
>)
    ensures
        final(tb)@ == edited(
            *e,
            old(tb)@,
            card_id,
            e.now_ms,
            |c: Card| reflagged(c, flags),
        ),
        row == match current(*e, old(tb)@, card_id) {
            Some(c) => Some(stamped(*e, old(tb)@, reflagged(c, flags), e.now_ms)),
            None => None,
        },
{
    match latest(e, tb, card_id) {
        None => None,
        Some(c) => Some(write_at(e, tb, Card { flags, ..c }, e.now_ms)),
    }
}

// ---- holds ---------------------------------------------------------
/// One reference of a hold family more or less on a row.
pub open spec fn hold_step(e: Env, field: HoldField, up: bool, c: Card) -> Card {
    Card { flags: model::hold_stepped(e.layout, c.flags, field, up), ..c }
}

pub open spec fn hold_stepper(e: Env, field: HoldField, up: bool) -> spec_fn(Card) -> Card {
    |c: Card| hold_step(e, field, up, c)
}

/// `db` with the step applied to every version of the card after `t`.
pub open spec fn hold_propagated(e: Env, db: Db, card_id: u32, t: u64, field: HoldField, up: bool) -> Db {
    Db { cards: history::on_future(db.cards, card_id, t, hold_stepper(e, field, up)), ..db }
}

/// `db` after taking (`up`) or giving back one reference at `t`: on the row in
/// force then, and on every later version of the card.
pub open spec fn held(e: Env, db: Db, card_id: u32, t: u64, field: HoldField, up: bool) -> Db {
    hold_propagated(e, edited(e, db, card_id, t, hold_stepper(e, field, up)), card_id, t, field, up)
}

fn step_hold(e: &Env, field: HoldField, up: bool, c: Card) -> (r: Card)
    requires
        e.wf(),
    ensures
        r == hold_step(*e, field, up, c),
{
    let mut r = c;
    r.flags = model::step_hold(&e.layout, c.flags, field, up);
    r
}

/// Apply one step of a hold family to every row of the card after `time_ms`.
/// Nothing else about those rows changes.
pub fn propagate_hold_forward(
    e: &Env,
    tb: &mut Tables,
    card_id: u32,
    time_ms: u64,
    field: HoldField,
    up: bool,
)
    requires
        e.wf(),
    ensures
        final(tb)@ == hold_propagated(*e, old(tb)@, card_id, time_ms, field, up),
{
    let ghost before = tb@;
    let ghost after = hold_propagated(*e, before, card_id, time_ms, field, up).cards;
    let mut i: usize = 0;
    while i < tb.cards.len()
        invariant
            i <= tb.cards.len(),
            e.wf(),
            tb.cards.len() == before.cards.len(),
            tb@ == (Db { cards: tb@.cards, ..before }),
            after == hold_propagated(*e, before, card_id, time_ms, field, up).cards,
            forall|j: int| 0 <= j < i ==> #[trigger] tb@.cards[j] == after[j],
            forall|j: int|
                i <= j < before.cards.len() ==> #[trigger] tb@.cards[j] == before.cards[j],
        decreases tb.cards.len() - i,
    {
        let row = tb.cards[i];
        if row.card_id == card_id && packed::valid_at_time(row.valid_at) > time_ms {
            tb.cards.set(i, step_hold(e, field, up, row));
        }
        i = i + 1;
    }
    assert(tb@.cards =~= after);
}

fn change_hold(e: &Env, tb: &mut Tables, card_id: u32, time_ms: u64, field: HoldField, up: bool)
    requires
        e.wf(),
    ensures
        final(tb)@ == held(*e, old(tb)@, card_id, time_ms, field, up),
{
    match prior_at(tb, card_id, time_ms) {
        None => {},
        Some(c) => {
            let _ = write_at(e, tb, step_hold(e, field, up, c), time_ms);
        },
    }
    propagate_hold_forward(e, tb, card_id, time_ms, field, up);
}

/// Take one reference of a hold family on a card at `time_ms`.
pub fn acquire_hold(e: &Env, tb: &mut Tables, card_id: u32, time_ms: u64, field: HoldField)
    requires
        e.wf(),
    ensures
        final(tb)@ == held(*e, old(tb)@, card_id, time_ms, field, true),
{
    change_hold(e, tb, card_id, time_ms, field, true);
}

/// Give back one reference of a hold family on a card at `time_ms`.
pub fn release_hold(e: &Env, tb: &mut Tables, card_id: u32, time_ms: u64, field: HoldField)
    requires
        e.wf(),
    ensures
        final(tb)@ == held(*e, old(tb)@, card_id, time_ms, field, false),
{
    change_hold(e, tb, card_id, time_ms, field, false);
}

// ---- ids -----------------------------------------------------------
/// The `(card_db, shard)` of a deployment.
pub open spec fn identity_of(db: Db) -> (u8, u16) {
    match db.identity {
        Some(row) => (row.card_db, row.shard),
        None => (packed::CARD_DB_CARDS, DATA_SHARD),
    }
}

/// The seeded identity, or that of a plain card shard.
pub fn identity(tb: &Tables) -> (who: (u8, u16))
    ensures
        who == identity_of(tb@),
{
    match tb.identity {
        Some(row) => (row.card_db, row.shard),
        None => (packed::CARD_DB_CARDS, DATA_SHARD),
    }
}

/// Seed, or overwrite, the identity.
pub fn set_identity(tb: &mut Tables, card_db: u8, shard: u16)
    ensures
        final(tb)@ == (Db { identity: Some(ShardIdentity { id: 0, card_db, shard }), ..old(tb)@ }),
        identity_of(final(tb)@) == (card_db, shard),
{
    tb.identity = Some(ShardIdentity { id: 0, card_db, shard });
}

/// The greatest local id among the cards, `0` for an empty table.
pub open spec fn max_local(cards: Seq<Card>) -> u32
    decreases cards.len(),
{
    if cards.len() == 0 {
        0
    } else {
        let before = max_local(cards.drop_last());
        let local = packed::card_local(cards.last().card_id);
        if local > before {
            local
        } else {
            before
        }
    }
}

/// The local id that the allocator hands out next.
pub open spec fn next_local(db: Db) -> u32 {
    match db.card_id_counter {
        Some(c) => c.next,
        None => {
            let m = max_local(db.cards) + 1;
            if m < FIRST_CARD_ID {
                FIRST_CARD_ID
            } else {
                m as u32
            }
        },
    }
}

/// `db` after handing out one id.
pub open spec fn id_taken(db: Db) -> Db {
    let local = next_local(db);
    Db {
        card_id_counter: Some(
            CardIdCounter {
                id: 0,
                next: if local >= packed::CARD_LOCAL_MASK {
                    packed::CARD_LOCAL_MASK
                } else {
                    (local + 1) as u32
                },
            },
        ),
        ..db
    }
}

/// The id that the allocator hands out next.
pub open spec fn next_id(db: Db) -> u32 {
    let who = identity_of(db);
    packed::card_id_word(who.0, who.1, next_local(db))
}

/// Allocate a card id. The first call scans the cards; later ones count on.
/// The local part is capped at its 20-bit ceiling.
pub fn next_card_id(tb: &mut Tables) -> (id: u32)
    ensures
        id == next_id(old(tb)@),
        final(tb)@ == id_taken(old(tb)@),
{
    let who: (u8, u16) = identity(tb);
    let local: u32 = match tb.card_id_counter {
        Some(c) => c.next,
        None => {
            let mut max: u32 = 0;
            let mut i: usize = 0;
            while i < tb.cards.len()
                invariant
                    i <= tb.cards.len(),
                    max == max_local(tb@.cards.take(i as int)),
                    max <= packed::CARD_LOCAL_MASK,
                decreases tb.cards.len() - i,
            {
                let row = tb.cards[i];
                proof {
                    let next = tb@.cards.take(i + 1);
                    assert(next.drop_last() =~= tb@.cards.take(i as int));
                    assert(next.last() == row);
                }
                let l: u32 = packed::card_local_of(row.card_id);
                if l > max {
                    max = l;
                }
                i = i + 1;
            }
            assert(tb@.cards.take(tb@.cards.len() as int) =~= tb@.cards);
            if max + 1 < FIRST_CARD_ID {
                FIRST_CARD_ID
            } else {
                max + 1
            }
        },
    };
    let next: u32 = if local >= packed::CARD_LOCAL_MASK {
        packed::CARD_LOCAL_MASK
    } else {
        local + 1
    };
    tb.card_id_counter = Some(CardIdCounter { id: 0, next });
    packed::pack_card_id(who.0, who.1, local)
}

// ---- time and counts -----------------------------------------------
/// Resolve the time that a request of a client at `client_time_ms` uses: the
/// client's own, which may not be ahead of the server.
pub fn effective_now_ms(e: &Env, client_time_ms: u64) -> (r: Result<u64, TimeDrift>)
    ensures
        r == time::resolved(e.now_ms, client_time_ms, TIME_DRIFT_BUFFER_MS),
        r matches Ok(t) ==> t == client_time_ms,
{
    time::resolve(e.now_ms, client_time_ms, TIME_DRIFT_BUFFER_MS)
}

/// The latest version of `id` is a live soul that the player owns directly.
pub open spec fn is_players_soul(e: Env, cards: Seq<Card>, id: u32, player_id: u32) -> bool {
    match history::latest(cards, id) {
        None => false,
        Some(c) => c.owner_id == player_id && is_player_soul(c) && !is_dead(e, c),
    }
}

/// The live souls of a player, each once, in the order in which `prefix` first
/// shows them.
pub open spec fn player_souls(e: Env, cards: Seq<Card>, prefix: Seq<Card>, player_id: u32) -> Seq<u32>
    decreases prefix.len(),
{
    if prefix.len() == 0 {
        Seq::empty()
    } else {
        let before = player_souls(e, cards, prefix.drop_last(), player_id);
        let id = prefix.last().card_id;
        if !before.contains(id) && is_players_soul(e, cards, id, player_id) {
            before.push(id)
        } else {
            before
        }
    }
}

/// Count a player's live souls: distinct cards whose latest version the player
/// owns directly and that is not dead.
pub fn count_player_souls(e: &Env, tb: &Tables, player_id: u32) -> (n: usize)
    ensures
        n == player_souls(*e, tb@.cards, tb@.cards, player_id).len(),
{
    let mut out: Vec<u32> = Vec::new();
    let mut i: usize = 0;
    while i < tb.cards.len()
        invariant
            i <= tb.cards.len(),
            out@ == player_souls(*e, tb@.cards, tb@.cards.take(i as int), player_id),
        decreases tb.cards.len() - i,
    {
        let id: u32 = tb.cards[i].card_id;
        proof {
            let next = tb@.cards.take(i + 1);
            assert(next.drop_last() =~= tb@.cards.take(i as int));
            assert(next.last() == tb@.cards[i as int]);
        }
        if !crate::cards::cards::holds_id(&out, id) {
            match history::find_prior_at(&tb.cards, id, u64::MAX) {
                None => {},
                Some(c) => {
                    if c.owner_id == player_id && model::is_player_soul(c.packed_definition)
                        && c.flags & e.state.dead == 0 {
                        out.push(id);
                    }
                },
            }
        }
        i = i + 1;
    }
    assert(tb@.cards.take(tb@.cards.len() as int) =~= tb@.cards);
    out.len()
}

} // verus!
