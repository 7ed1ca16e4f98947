//! Souls: the public mirror of soul cards, and their private progression.
use vstd::prelude::*;

use crate::cards::cards;
use crate::cards::cards::Card;
use crate::cards::env::Env;
use crate::content;
use crate::content::Catalog;
use crate::history;
use crate::history::Version;
use crate::packed;
use crate::players::rosters;
use crate::tables;
use crate::tables::Db;
use crate::tables::Tables;

verus! {

/// A version of a soul's public state.
#[derive(Clone, Copy, Debug, PartialEq, Eq, Structural)]
pub struct Soul {
    pub valid_at: u64,
    /// Data-shard partition of the row.
    pub data_shard: u16,
    pub card_id: u32,
    pub owner_id: u32,
    pub macro_zone: u64,
    pub micro_location: u32,
    /// `[corpus | anima | sollertia | aether]`, lowest byte first.
    pub stats: u32,
    /// The fatigued counterparts.
    pub fatigued: u32,
    /// The injured counterparts.
    pub injured: u32,
}

/// A soul's private progression: one row per soul card, updated in place.
#[derive(Clone, Copy, Debug, PartialEq, Eq, Structural)]
pub struct SoulPrivate {
    pub card_id: u32,
    /// Data-shard partition of the row.
    pub data_shard: u16,
    /// Discovered blueprints, ids `1..=64`; id `n` is bit `n - 1`.
    pub blueprints_0: u64,
    /// Live blueprint cards that the soul owns.
    pub active_blueprints: u8,
}

impl Version for Soul {
    open spec fn spec_entity(self) -> u32 {
        self.card_id
    }

    open spec fn spec_key(self) -> u64 {
        self.valid_at
    }

    fn entity(&self) -> (id: u32) {
        self.card_id
    }

    fn key(&self) -> (k: u64) {
        self.valid_at
    }
}

// ---- portraits -----------------------------------------------------
/// The bits of `flags_state` that hold a soul's portrait: the high nibble.
pub const FLAG_PORTRAIT_MASK: u32 = 0xF000_0000;

/// The lowest of those bits.
pub const PORTRAIT_SHIFT: u32 = 28;

pub open spec fn portrait(flags_state: u32) -> u8 {
    (flags_state / 0x1000_0000) as u8
}

pub open spec fn portrayed(flags_state: u32, id: u8) -> u32 {
    (flags_state % 0x1000_0000 + (id % 16) * 0x1000_0000) as u32
}

/// Read the soul portrait index out of a `flags_state` word.
pub fn portrait_id(flags_state: u32) -> (id: u8)
    ensures
        id == portrait(flags_state),
        id < 16,
{
    (flags_state / 0x1000_0000) as u8
}

/// Stamp the soul portrait index; only the low nibble of `id` is kept.
pub fn with_portrait(flags_state: u32, id: u8) -> (out: u32)
    ensures
        out == portrayed(flags_state, id),
{
    flags_state % 0x1000_0000 + (id % 16) as u32 * 0x1000_0000
}

/// A stamped portrait reads back as its low nibble, and every bit outside the
/// portrait stays as it was.
pub proof fn portrait_round_trip(flags_state: u32, id: u8)
    ensures
        portrait(portrayed(flags_state, id)) == id % 16,
        portrayed(flags_state, id) % 0x1000_0000 == flags_state % 0x1000_0000,
        portrayed(flags_state, id) & !FLAG_PORTRAIT_MASK == flags_state & !FLAG_PORTRAIT_MASK,
{
    let w = portrayed(flags_state, id);
    assert(w % 0x1000_0000 == w & !0xF000_0000u32) by (bit_vector);
    assert(flags_state % 0x1000_0000 == flags_state & !0xF000_0000u32) by (bit_vector);
}

// ---- packed quads --------------------------------------------------
pub open spec fn quad_word(b0: u8, b1: u8, b2: u8, b3: u8) -> u32 {
    (b0 as u32 + b1 as u32 * 0x100 + b2 as u32 * 0x1_0000 + b3 as u32 * 0x100_0000) as u32
}

/// Byte `i` of a packed quad.
pub open spec fn quad_byte(v: u32, i: u8) -> u8 {
    if i == 0 {
        (v % 0x100) as u8
    } else if i == 1 {
        (v / 0x100 % 0x100) as u8
    } else if i == 2 {
        (v / 0x1_0000 % 0x100) as u8
    } else {
        (v / 0x100_0000) as u8
    }
}

/// A packed quad with byte `i` replaced.
pub open spec fn quad_with(v: u32, i: u8, byte: u8) -> u32 {
    quad_word(
        if i == 0 { byte } else { quad_byte(v, 0) },
        if i == 1 { byte } else { quad_byte(v, 1) },
        if i == 2 { byte } else { quad_byte(v, 2) },
        if i == 3 { byte } else { quad_byte(v, 3) },
    )
}

proof fn lemma_quad_bytes(b0: u8, b1: u8, b2: u8, b3: u8, w: u32)
    by (bit_vector)
    requires
        w == b0 as u32 + b1 as u32 * 0x100u32 + b2 as u32 * 0x1_0000u32 + b3 as u32 * 0x100_0000u32,
    ensures
        w % 0x100 == b0 as u32,
        w / 0x100 % 0x100 == b1 as u32,
        w / 0x1_0000 % 0x100 == b2 as u32,
        w / 0x100_0000 == b3 as u32,
{
}

/// A quad gives back the bytes it was packed from.
pub proof fn quad_round_trip(b0: u8, b1: u8, b2: u8, b3: u8)
    ensures
        quad_byte(quad_word(b0, b1, b2, b3), 0) == b0,
        quad_byte(quad_word(b0, b1, b2, b3), 1) == b1,
        quad_byte(quad_word(b0, b1, b2, b3), 2) == b2,
        quad_byte(quad_word(b0, b1, b2, b3), 3) == b3,
{
    lemma_quad_bytes(b0, b1, b2, b3, quad_word(b0, b1, b2, b3));
}

/// Replacing a byte reads back and leaves the other bytes.
pub proof fn quad_read_over_write(v: u32, i: u8, byte: u8, j: u8)
    requires
        i < 4,
        j < 4,
    ensures
        quad_byte(quad_with(v, i, byte), j) == if j == i {
            byte
        } else {
            quad_byte(v, j)
        },
{
    quad_round_trip(
        if i == 0 { byte } else { quad_byte(v, 0) },
        if i == 1 { byte } else { quad_byte(v, 1) },
        if i == 2 { byte } else { quad_byte(v, 2) },
        if i == 3 { byte } else { quad_byte(v, 3) },
    );
}

/// Pack four bytes, lowest first.
pub fn pack_quad(b0: u8, b1: u8, b2: u8, b3: u8) -> (v: u32)
    ensures
        v == quad_word(b0, b1, b2, b3),
{
    b0 as u32 + b1 as u32 * 0x100 + b2 as u32 * 0x1_0000 + b3 as u32 * 0x100_0000
}

/// The four bytes of a packed quad, lowest first.
pub fn unpack_quad(v: u32) -> (b: (u8, u8, u8, u8))
    ensures
        b == (quad_byte(v, 0), quad_byte(v, 1), quad_byte(v, 2), quad_byte(v, 3)),
{
    (
        (v % 0x100) as u8,
        (v / 0x100 % 0x100) as u8,
        (v / 0x1_0000 % 0x100) as u8,
        (v / 0x100_0000) as u8,
    )
}

/// Read one byte of a packed quad.
pub fn quad_get(v: u32, byte_index: u8) -> (b: u8)
    requires
        byte_index < 4,
    ensures
        b == quad_byte(v, byte_index),
{
    if byte_index == 0 {
        (v % 0x100) as u8
    } else if byte_index == 1 {
        (v / 0x100 % 0x100) as u8
    } else if byte_index == 2 {
        (v / 0x1_0000 % 0x100) as u8
    } else {
        (v / 0x100_0000) as u8
    }
}

/// Replace one byte of a packed quad.
pub fn quad_set(v: u32, byte_index: u8, byte: u8) -> (out: u32)
    requires
        byte_index < 4,
    ensures
        out == quad_with(v, byte_index, byte),
{
    let b: (u8, u8, u8, u8) = unpack_quad(v);
    match byte_index {
        0 => pack_quad(byte, b.1, b.2, b.3),
        1 => pack_quad(b.0, byte, b.2, b.3),
        2 => pack_quad(b.0, b.1, byte, b.3),
        _ => pack_quad(b.0, b.1, b.2, byte),
    }
}

// ---- stat slots ----------------------------------------------------
/// Which packed field of a soul a counter lives in.
#[derive(Clone, Copy, Debug, PartialEq, Eq, Structural)]
pub enum StatField {
    Stats,
    Fatigued,
    Injured,
}

/// Address of one counter: the field, and the byte inside it (corpus, anima,
/// sollertia, aether).
#[derive(Clone, Copy, Debug, PartialEq, Eq, Structural)]
pub struct StatSlot {
    pub field: StatField,
    pub byte_index: u8,
}

/// `key` names the definition `packed_def`.
pub open spec fn names(c: Catalog, key: Seq<char>, packed_def: u16) -> bool {
    content::packed_by_key(c.definitions@, key) == Some(packed_def)
}

pub open spec fn slot(field: StatField, byte_index: u8) -> Option<StatSlot> {
    Some(StatSlot { field, byte_index })
}

/// The counter that cards of a definition feed. Should one definition carry
/// several of the tracked names, the injured one goes before the fatigued one
/// before the plain one, and aether before sollertia before anima before corpus.
pub open spec fn slot_of(c: Catalog, packed_def: u16) -> Option<StatSlot> {
    if names(c, "aether-i"@, packed_def) {
        slot(StatField::Injured, 3)
    } else if names(c, "sollertia-i"@, packed_def) {
        slot(StatField::Injured, 2)
    } else if names(c, "anima-i"@, packed_def) {
        slot(StatField::Injured, 1)
    } else if names(c, "corpus-i"@, packed_def) {
        slot(StatField::Injured, 0)
    } else if names(c, "aether-"@, packed_def) {
        slot(StatField::Fatigued, 3)
    } else if names(c, "sollertia-"@, packed_def) {
        slot(StatField::Fatigued, 2)
    } else if names(c, "anima-"@, packed_def) {
        slot(StatField::Fatigued, 1)
    } else if names(c, "corpus-"@, packed_def) {
        slot(StatField::Fatigued, 0)
    } else if names(c, "aether"@, packed_def) {
        slot(StatField::Stats, 3)
    } else if names(c, "sollertia"@, packed_def) {
        slot(StatField::Stats, 2)
    } else if names(c, "anima"@, packed_def) {
        slot(StatField::Stats, 1)
    } else if names(c, "corpus"@, packed_def) {
        slot(StatField::Stats, 0)
    } else {
        None
    }
}

fn is_named(c: &Catalog, key: &str, packed_def: u16) -> (r: bool)
    ensures
        r == names(*c, key@, packed_def),
{
    let key: String = key.to_owned();
    match c.find_packed_by_key(&key) {
        Some(p) => p == packed_def,
        None => false,
    }
}

/// Resolve the counter that a definition contributes to, if any.
pub fn stat_slot_for(c: &Catalog, packed_def: u16) -> (s: Option<StatSlot>)
    ensures
        s == slot_of(*c, packed_def),
        s matches Some(x) ==> x.byte_index < 4,
{
    if is_named(c, "aether-i", packed_def) {
        Some(StatSlot { field: StatField::Injured, byte_index: 3 })
    } else if is_named(c, "sollertia-i", packed_def) {
        Some(StatSlot { field: StatField::Injured, byte_index: 2 })
    } else if is_named(c, "anima-i", packed_def) {
        Some(StatSlot { field: StatField::Injured, byte_index: 1 })
    } else if is_named(c, "corpus-i", packed_def) {
        Some(StatSlot { field: StatField::Injured, byte_index: 0 })
    } else if is_named(c, "aether-", packed_def) {
        Some(StatSlot { field: StatField::Fatigued, byte_index: 3 })
    } else if is_named(c, "sollertia-", packed_def) {
        Some(StatSlot { field: StatField::Fatigued, byte_index: 2 })
    } else if is_named(c, "anima-", packed_def) {
        Some(StatSlot { field: StatField::Fatigued, byte_index: 1 })
    } else if is_named(c, "corpus-", packed_def) {
        Some(StatSlot { field: StatField::Fatigued, byte_index: 0 })
    } else if is_named(c, "aether", packed_def) {
        Some(StatSlot { field: StatField::Stats, byte_index: 3 })
    } else if is_named(c, "sollertia", packed_def) {
        Some(StatSlot { field: StatField::Stats, byte_index: 2 })
    } else if is_named(c, "anima", packed_def) {
        Some(StatSlot { field: StatField::Stats, byte_index: 1 })
    } else if is_named(c, "corpus", packed_def) {
        Some(StatSlot { field: StatField::Stats, byte_index: 0 })
    } else {
        None
    }
}

/// Card type of soul cards.
pub const SOUL_CARD_TYPE: u8 = 6;

/// Card type of blueprint cards.
pub const BLUEPRINT_CARD_TYPE: u8 = 1;

/// True for a soul-type definition.
pub fn is_soul_card(packed_def: u16) -> (r: bool)
    ensures
        r == (packed::card_type(packed_def) == SOUL_CARD_TYPE),
{
    packed_def / 4096 == SOUL_CARD_TYPE as u16
}

/// True for a blueprint-type definition.
pub fn is_blueprint_card(packed_def: u16) -> (r: bool)
    ensures
        r == (packed::card_type(packed_def) == BLUEPRINT_CARD_TYPE),
{
    packed_def / 4096 == BLUEPRINT_CARD_TYPE as u16
}

// ---- the souls table -----------------------------------------------
/// The packed field that a counter lives in.
pub open spec fn field_of(s: Soul, f: StatField) -> u32 {
    match f {
        StatField::Stats => s.stats,
        StatField::Fatigued => s.fatigued,
        StatField::Injured => s.injured,
    }
}

pub open spec fn with_field(s: Soul, f: StatField, v: u32) -> Soul {
    match f {
        StatField::Stats => Soul { stats: v, ..s },
        StatField::Fatigued => Soul { fatigued: v, ..s },
        StatField::Injured => Soul { injured: v, ..s },
    }
}

/// A counter one up (`delta > 0`) or one down, within `0..=255`.
pub open spec fn stepped(b: u8, delta: i8) -> u8 {
    if delta > 0 {
        if b < 255 {
            (b + 1) as u8
        } else {
            b
        }
    } else {
        if b > 0 {
            (b - 1) as u8
        } else {
            b
        }
    }
}

/// A soul with one counter stepped.
pub open spec fn with_delta(s: Soul, x: StatSlot, delta: i8) -> Soul {
    let v = field_of(s, x.field);
    with_field(
        s,
        x.field,
        quad_with(v, x.byte_index, stepped(quad_byte(v, x.byte_index), delta)),
    )
}

fn step(b: u8, delta: i8) -> (out: u8)
    ensures
        out == stepped(b, delta),
{
    if delta > 0 {
        if b < 255 {
            b + 1
        } else {
            b
        }
    } else {
        if b > 0 {
            b - 1
        } else {
            b
        }
    }
}

/// Step one counter of a soul row, saturating.
pub fn apply_delta_to_soul(s: &mut Soul, x: StatSlot, delta: i8)
    requires
        x.byte_index < 4,
    ensures
        *final(s) == with_delta(*old(s), x, delta),
{
    let v: u32 = match x.field {
        StatField::Stats => s.stats,
        StatField::Fatigued => s.fatigued,
        StatField::Injured => s.injured,
    };
    let next: u8 = step(quad_get(v, x.byte_index), delta);
    let updated: u32 = quad_set(v, x.byte_index, next);
    match x.field {
        StatField::Stats => {
            s.stats = updated;
        },
        StatField::Fatigued => {
            s.fatigued = updated;
        },
        StatField::Injured => {
            s.injured = updated;
        },
    }
}

/// Stepping a counter changes that counter alone.
pub proof fn delta_is_isolated(s: Soul, x: StatSlot, delta: i8, f: StatField, j: u8)
    requires
        x.byte_index < 4,
        j < 4,
    ensures
        quad_byte(field_of(with_delta(s, x, delta), f), j) == if f == x.field && j == x.byte_index {
            stepped(quad_byte(field_of(s, f), j), delta)
        } else {
            quad_byte(field_of(s, f), j)
        },
        with_delta(s, x, delta).card_id == s.card_id,
        with_delta(s, x, delta).valid_at == s.valid_at,
{
    let v = field_of(s, x.field);
    quad_read_over_write(v, x.byte_index, stepped(quad_byte(v, x.byte_index), delta), j);
}

/// The row of a soul with the greatest time.
pub fn latest(t: &Tables, card_id: u32) -> (found: Option<Soul>)
    ensures
        found == history::latest(t@.souls, card_id),
{
    history::find_prior_at(&t.souls, card_id, u64::MAX)
}

/// `db` after storing `soul` as the version at `time_ms` under a fresh key.
pub open spec fn soul_written(db: Db, soul: Soul, time_ms: u64) -> Db {
    let row = Soul { valid_at: packed::valid_at_key(time_ms, db.next_sequence), ..soul };
    Db {
        souls: history::stored(db.souls, row, time_ms),
        next_sequence: tables::sequence_after(db.next_sequence),
        ..db
    }
}

/// Store a soul row at `time_ms`; the last write at a time wins.
pub fn write_at(t: &mut Tables, soul: Soul, time_ms: u64) -> (row: Soul)
    ensures
        final(t)@ == soul_written(old(t)@, soul, time_ms),
        row == (Soul {
            valid_at: packed::valid_at_key(time_ms, old(t)@.next_sequence),
            ..soul
        }),
{
    let seq: u16 = t.take_sequence();
    let mut row = soul;
    row.valid_at = packed::pack_valid_at(time_ms, seq);
    history::store(&mut t.souls, row, time_ms);
    row
}

/// Edit the latest row of a soul and store the result at `time_ms`.
pub fn update_with_at<F: FnOnce(Soul) -> Soul>(t: &mut Tables, card_id: u32, time_ms: u64, f: F) -> (row:
    Option<Soul>)
    requires
        forall|s: Soul| #[trigger] f.requires((s,)),
    ensures
        match history::latest(old(t)@.souls, card_id) {
            None => row is None && final(t)@ == old(t)@,
            Some(s) => exists|edited: Soul| #[trigger]
                f.ensures((s,), edited) && final(t)@ == soul_written(old(t)@, edited, time_ms)
                    && row == Some(
                    Soul {
                        valid_at: packed::valid_at_key(time_ms, old(t)@.next_sequence),
                        ..edited
                    },
                ),
        },
{
    match latest(t, card_id) {
        None => None,
        Some(s) => {
            let edited: Soul = f(s);
            Some(write_at(t, edited, time_ms))
        },
    }
}

/// Edit the latest row of a soul and store the result now.
pub fn update_with<F: FnOnce(Soul) -> Soul>(e: &Env, t: &mut Tables, card_id: u32, f: F) -> (row:
    Option<Soul>)
    requires
        forall|s: Soul| #[trigger] f.requires((s,)),
    ensures
        match history::latest(old(t)@.souls, card_id) {
            None => row is None && final(t)@ == old(t)@,
            Some(s) => exists|edited: Soul| #[trigger]
                f.ensures((s,), edited) && final(t)@ == soul_written(old(t)@, edited, e.now_ms)
                    && row == Some(
                    Soul {
                        valid_at: packed::valid_at_key(e.now_ms, old(t)@.next_sequence),
                        ..edited
                    },
                ),
        },
{
    update_with_at(t, card_id, e.now_ms, f)
}

/// The value of one counter of a soul, from its latest row.
pub fn read_slot(t: &Tables, card_id: u32, x: StatSlot) -> (v: Option<u8>)
    requires
        x.byte_index < 4,
    ensures
        v == match history::latest(t@.souls, card_id) {
            Some(s) => Some(quad_byte(field_of(s, x.field), x.byte_index)),
            None => None,
        },
{
    match latest(t, card_id) {
        None => None,
        Some(s) => {
            let field: u32 = match x.field {
                StatField::Stats => s.stats,
                StatField::Fatigued => s.fatigued,
                StatField::Injured => s.injured,
            };
            Some(quad_get(field, x.byte_index))
        },
    }
}

// ---- counters over card writes -------------------------------------
/// The step that every later version of a soul takes with a counter.
pub open spec fn future_step(x: StatSlot, delta: i8) -> spec_fn(Soul) -> Soul {
    |s: Soul| with_delta(s, x, delta)
}

/// `db` after stepping one counter of a soul at `time_ms` and on every later
/// version; nothing happens to a soul without a row in force.
pub open spec fn slot_delta(db: Db, soul_card_id: u32, x: StatSlot, delta: i8, time_ms: u64) -> Db {
    if soul_card_id == 0 {
        db
    } else {
        match history::prior_at(db.souls, soul_card_id, time_ms) {
            None => db,
            Some(s) => {
                let w = soul_written(db, with_delta(s, x, delta), time_ms);
                Db {
                    souls: history::on_future(
                        w.souls,
                        soul_card_id,
                        time_ms,
                        future_step(x, delta),
                    ),
                    ..w
                }
            },
        }
    }
}

/// Step one counter of a soul at `time_ms`, and carry the step into every
/// future row.
pub fn apply_slot_delta(t: &mut Tables, soul_card_id: u32, x: StatSlot, delta: i8, time_ms: u64)
    requires
        x.byte_index < 4,
    ensures
        final(t)@ == slot_delta(old(t)@, soul_card_id, x, delta, time_ms),
{
    if soul_card_id == 0 {
        return;
    }
    let mut prior = match history::find_prior_at(&t.souls, soul_card_id, time_ms) {
        None => {
            return;
        },
        Some(s) => s,
    };
    apply_delta_to_soul(&mut prior, x, delta);
    let _ = write_at(t, prior, time_ms);
    let ghost before = t@;
    let ghost after = history::on_future(
        before.souls,
        soul_card_id,
        time_ms,
        future_step(x, delta),
    );
    let mut i: usize = 0;
    while i < t.souls.len()
        invariant
            i <= t.souls.len(),
            x.byte_index < 4,
            t.souls.len() == before.souls.len(),
            t@ == (Db { souls: t@.souls, ..before }),
            after == history::on_future(
                before.souls,
                soul_card_id,
                time_ms,
                future_step(x, delta),
            ),
            forall|j: int| 0 <= j < i ==> #[trigger] t@.souls[j] == after[j],
            forall|j: int| i <= j < before.souls.len() ==> #[trigger] t@.souls[j] == before.souls[j],
        decreases t.souls.len() - i,
    {
        let mut row = t.souls[i];
        if row.card_id == soul_card_id && packed::valid_at_time(row.valid_at) > time_ms {
            apply_delta_to_soul(&mut row, x, delta);
            t.souls.set(i, row);
        }
        i = i + 1;
    }
    assert(t@.souls =~= after);
}

/// What a card row adds to a soul's blueprint count: the soul that holds it.
pub open spec fn blueprint_contribution(e: Env, db: Db, card: Card) -> Option<u32> {
    if packed::card_type(card.packed_definition) != BLUEPRINT_CARD_TYPE || cards::is_dead(e, card)
        || card.owner_id == 0 {
        None
    } else {
        cards::soul_at(e, db, card.owner_id, e.now_ms)
    }
}

/// What a card row adds to a soul's counters: the soul and the counter.
pub open spec fn card_contribution(e: Env, db: Db, card: Card) -> Option<(u32, StatSlot)> {
    if cards::is_dead(e, card) || cards::player_owned(e, card) {
        None
    } else {
        match slot_of(e.catalog, card.packed_definition) {
            None => None,
            Some(x) => if card.owner_id == 0 {
                None
            } else {
                match cards::soul_at(e, db, card.owner_id, e.now_ms) {
                    None => None,
                    Some(s) => Some((s, x)),
                }
            },
        }
    }
}

/// Index of the private row of a soul.
pub open spec fn private_index(rows: Seq<SoulPrivate>, card_id: u32) -> Option<int>
    decreases rows.len(),
{
    if rows.len() == 0 {
        None
    } else if rows.last().card_id == card_id {
        Some(rows.len() - 1)
    } else {
        private_index(rows.drop_last(), card_id)
    }
}

/// The index found is that of a row of the soul.
pub proof fn private_index_found(rows: Seq<SoulPrivate>, card_id: u32)
    ensures
        private_index(rows, card_id) matches Some(i) ==> 0 <= i < rows.len() && rows[i].card_id
            == card_id,
        private_index(rows, card_id) is None ==> forall|i: int|
            0 <= i < rows.len() ==> (#[trigger] rows[i]).card_id != card_id,
    decreases rows.len(),
{
    if rows.len() > 0 && rows.last().card_id != card_id {
        private_index_found(rows.drop_last(), card_id);
        assert forall|i: int| 0 <= i < rows.len() - 1 implies #[trigger] rows[i]
            == rows.drop_last()[i] by {}
    }
}

/// Find the private row of a soul.
pub fn private_position(rows: &Vec<SoulPrivate>, card_id: u32) -> (found: Option<usize>)
    ensures
        match found {
            Some(i) => private_index(rows@, card_id) == Some(i as int) && i < rows.len()
                && rows@[i as int].card_id == card_id,
            None => private_index(rows@, card_id) is None,
        },
{
    let mut i: usize = rows.len();
    assert(rows@.take(i as int) =~= rows@);
    while i > 0
        invariant
            i <= rows.len(),
            private_index(rows@, card_id) == private_index(rows@.take(i as int), card_id),
        decreases i,
    {
        let ghost head = rows@.take(i as int);
        assert(head.drop_last() =~= rows@.take(i - 1));
        assert(head.last() == rows@[i - 1]);
        i = i - 1;
        if rows[i].card_id == card_id {
            return Some(i);
        }
    }
    None
}

/// Find the private row of a soul.
pub fn find_private(t: &Tables, card_id: u32) -> (found: Option<usize>)
    ensures
        match found {
            Some(i) => private_index(t@.soul_privates, card_id) == Some(i as int) && i
                < t@.soul_privates.len() && t@.soul_privates[i as int].card_id == card_id,
            None => private_index(t@.soul_privates, card_id) is None,
        },
{
    private_position(&t.soul_privates, card_id)
}

/// `db` with a soul's blueprint count stepped; nothing for a soul without a
/// private row.
pub open spec fn blueprint_delta(db: Db, soul_card_id: u32, delta: i8) -> Db {
    match private_index(db.soul_privates, soul_card_id) {
        None => db,
        Some(i) => {
            let row = db.soul_privates[i];
            Db {
                soul_privates: db.soul_privates.update(
                    i,
                    SoulPrivate {
                        active_blueprints: stepped(row.active_blueprints, delta),
                        ..row
                    },
                ),
                ..db
            }
        },
    }
}

fn apply_blueprint_delta(t: &mut Tables, soul_card_id: u32, delta: i8)
    ensures
        final(t)@ == blueprint_delta(old(t)@, soul_card_id, delta),
{
    match find_private(t, soul_card_id) {
        None => {},
        Some(i) => {
            let mut row = t.soul_privates[i];
            row.active_blueprints = step(row.active_blueprints, delta);
            t.soul_privates.set(i, row);
        },
    }
}

fn blueprint_holder(e: &Env, t: &Tables, card: &Card) -> (s: Option<u32>)
    ensures
        s == blueprint_contribution(*e, t@, *card),
{
    if !is_blueprint_card(card.packed_definition) {
        return None;
    }
    if card.flags_state & e.state.dead != 0 {
        return None;
    }
    if card.owner_id == 0 {
        return None;
    }
    cards::owning_soul(e, t, card.owner_id)
}

fn stat_contribution(e: &Env, t: &Tables, card: &Card) -> (s: Option<(u32, StatSlot)>)
    ensures
        s == card_contribution(*e, t@, *card),
        s matches Some(c) ==> c.1.byte_index < 4,
{
    if card.flags_state & e.state.dead != 0 {
        return None;
    }
    if card.flags_state & e.state.is_owned_by_player != 0 {
        return None;
    }
    match stat_slot_for(&e.catalog, card.packed_definition) {
        None => None,
        Some(x) => {
            if card.owner_id == 0 {
                return None;
            }
            match cards::owning_soul(e, t, card.owner_id) {
                None => None,
                Some(s) => Some((s, x)),
            }
        },
    }
}

/// `db` after moving one blueprint from `was` to `is_now`.
pub open spec fn blueprint_shift(db: Db, was: Option<u32>, is_now: Option<u32>) -> Db {
    if was == is_now {
        db
    } else {
        let down = match was {
            Some(p) => blueprint_delta(db, p, (-1) as i8),
            None => db,
        };
        match is_now {
            Some(n) => blueprint_delta(down, n, 1),
            None => down,
        }
    }
}

/// `db` after mirroring a soul card onto its soul row at `time_ms`.
pub open spec fn soul_mirrored(db: Db, card: Card, time_ms: u64) -> Db {
    if packed::card_type(card.packed_definition) != SOUL_CARD_TYPE {
        db
    } else {
        match history::prior_at(db.souls, card.card_id, time_ms) {
            Some(s) => soul_written(
                db,
                Soul {
                    owner_id: card.owner_id,
                    macro_zone: card.macro_zone,
                    micro_location: card.micro_location,
                    ..s
                },
                time_ms,
            ),
            None => soul_written(
                db,
                Soul {
                    valid_at: 0,
                    data_shard: cards::DATA_SHARD,
                    card_id: card.card_id,
                    owner_id: card.owner_id,
                    macro_zone: card.macro_zone,
                    micro_location: card.micro_location,
                    stats: 0,
                    fatigued: 0,
                    injured: 0,
                },
                time_ms,
            ),
        }
    }
}

/// `db` after moving one stat card from the counter `was` to `is_now`.
pub open spec fn stat_shift(
    db: Db,
    was: Option<(u32, StatSlot)>,
    is_now: Option<(u32, StatSlot)>,
    time_ms: u64,
) -> Db {
    if was == is_now {
        db
    } else {
        let down = match was {
            Some(p) => slot_delta(db, p.0, p.1, (-1) as i8, time_ms),
            None => db,
        };
        match is_now {
            Some(n) => slot_delta(down, n.0, n.1, 1, time_ms),
            None => down,
        }
    }
}

/// `db` after the soul tables followed the write of `new_card`, which replaces
/// `prev` at `time_ms`.
pub open spec fn card_write_followed(
    e: Env,
    db: Db,
    prev: Option<Card>,
    new_card: Card,
    time_ms: u64,
) -> Db {
    let prev_bp = match prev {
        Some(c) => blueprint_contribution(e, db, c),
        None => None,
    };
    let prev_stat = match prev {
        Some(c) => card_contribution(e, db, c),
        None => None,
    };
    let d1 = blueprint_shift(db, prev_bp, blueprint_contribution(e, db, new_card));
    let d2 = soul_mirrored(d1, new_card, time_ms);
    let d3 = stat_shift(d2, prev_stat, card_contribution(e, db, new_card), time_ms);
    Db {
        rosters: rosters::followed(
            d3.rosters,
            rosters::kept_by(e, prev),
            rosters::keeper(e, new_card),
        ),
        ..d3
    }
}

/// Keep the soul tables in step with one card write: the blueprint count of the
/// owning soul, the soul row that mirrors a soul card, the stat counters, and the
/// count of a player's souls.
pub fn on_card_write(
    e: &Env,
    t: &mut Tables,
    prev_latest: Option<Card>,
    new_card: &Card,
    time_ms: u64,
)
    ensures
        final(t)@ == card_write_followed(*e, old(t)@, prev_latest, *new_card, time_ms),
{
    let ghost start = t@;
    let prev_bp: Option<u32> = match prev_latest {
        Some(c) => blueprint_holder(e, t, &c),
        None => None,
    };
    let new_bp: Option<u32> = blueprint_holder(e, t, new_card);
    match (prev_bp, new_bp) {
        (Some(p), Some(n)) => {
            if p != n {
                apply_blueprint_delta(t, p, -1);
                apply_blueprint_delta(t, n, 1);
            }
        },
        (Some(p), None) => {
            apply_blueprint_delta(t, p, -1);
        },
        (None, Some(n)) => {
            apply_blueprint_delta(t, n, 1);
        },
        (None, None) => {},
    }
    let ghost d1 = t@;
    assert(d1 == blueprint_shift(start, prev_bp, new_bp));
    assert(d1.cards == start.cards);
    if is_soul_card(new_card.packed_definition) {
        match history::find_prior_at(&t.souls, new_card.card_id, time_ms) {
            Some(found) => {
                let mut s = found;
                s.owner_id = new_card.owner_id;
                s.macro_zone = new_card.macro_zone;
                s.micro_location = new_card.micro_location;
                let _ = write_at(t, s, time_ms);
            },
            None => {
                let s = Soul {
                    valid_at: 0,
                    data_shard: cards::DATA_SHARD,
                    card_id: new_card.card_id,
                    owner_id: new_card.owner_id,
                    macro_zone: new_card.macro_zone,
                    micro_location: new_card.micro_location,
                    stats: 0,
                    fatigued: 0,
                    injured: 0,
                };
                let _ = write_at(t, s, time_ms);
            },
        }
    }
    let ghost d2 = t@;
    assert(d2 == soul_mirrored(d1, *new_card, time_ms));
    assert(d2.cards == start.cards);
    let prev_contrib: Option<(u32, StatSlot)> = match prev_latest {
        Some(c) => stat_contribution(e, t, &c),
        None => None,
    };
    let new_contrib: Option<(u32, StatSlot)> = stat_contribution(e, t, new_card);
    match (prev_contrib, new_contrib) {
        (Some(p), Some(n)) => {
            if !(p.0 == n.0 && p.1 == n.1) {
                apply_slot_delta(t, p.0, p.1, -1, time_ms);
                apply_slot_delta(t, n.0, n.1, 1, time_ms);
            }
        },
        (Some(p), None) => {
            apply_slot_delta(t, p.0, p.1, -1, time_ms);
        },
        (None, Some(n)) => {
            apply_slot_delta(t, n.0, n.1, 1, time_ms);
        },
        (None, None) => {},
    }
    rosters::on_card_write(e, &mut t.rosters, &prev_latest, new_card);
}

} // verus!
