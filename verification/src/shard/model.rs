//! The packed fields of a data-shard card: its placement, its holds and its
//! stock.
use vstd::prelude::*;

use crate::cards::env;
use crate::cards::env::CountField;
use crate::packed;
use crate::shard::flags::StateFlags;

verus! {

// ---- holds ---------------------------------------------------------
/// The six hold families.
#[derive(Clone, Copy, Debug, PartialEq, Eq, Structural)]
pub enum HoldField {
    Touch,
    /// Exclusive.
    SlotClaim,
    /// Shared.
    SlotBorrow,
    PositionHold,
    /// Blocks stacking.
    DropHold,
    Server,
}

/// Where the hold counts lie in the `flags` word.
#[derive(Clone, Copy, Debug, PartialEq, Eq, Structural)]
pub struct Layout {
    pub touch: CountField,
    pub slot_claim: CountField,
    pub slot_borrow: CountField,
    pub position_hold: CountField,
    pub drop_hold: CountField,
    pub server: CountField,
}

impl Layout {
    /// Every field starts inside the 32-bit word.
    pub open spec fn wf(self) -> bool {
        &&& self.touch.shift < 32
        &&& self.slot_claim.shift < 32
        &&& self.slot_borrow.shift < 32
        &&& self.position_hold.shift < 32
        &&& self.drop_hold.shift < 32
        &&& self.server.shift < 32
    }

    /// Test whether every field starts inside the word.
    pub fn is_wf(&self) -> (ok: bool)
        ensures
            ok == self.wf(),
    {
        self.touch.shift < 32 && self.slot_claim.shift < 32 && self.slot_borrow.shift < 32
            && self.position_hold.shift < 32 && self.drop_hold.shift < 32 && self.server.shift < 32
    }

    pub open spec fn spec_field(self, f: HoldField) -> CountField {
        match f {
            HoldField::Touch => self.touch,
            HoldField::SlotClaim => self.slot_claim,
            HoldField::SlotBorrow => self.slot_borrow,
            HoldField::PositionHold => self.position_hold,
            HoldField::DropHold => self.drop_hold,
            HoldField::Server => self.server,
        }
    }

    pub fn field(&self, f: HoldField) -> (c: CountField)
        ensures
            c == self.spec_field(f),
            self.wf() ==> c.shift < 32,
    {
        match f {
            HoldField::Touch => self.touch,
            HoldField::SlotClaim => self.slot_claim,
            HoldField::SlotBorrow => self.slot_borrow,
            HoldField::PositionHold => self.position_hold,
            HoldField::DropHold => self.drop_hold,
            HoldField::Server => self.server,
        }
    }
}

pub open spec fn hold_value(l: Layout, flags: u32, f: HoldField) -> u32 {
    env::field_value(flags, l.spec_field(f))
}

/// The count of a hold family in a `flags` word.
pub fn hold_count(l: &Layout, flags: u32, f: HoldField) -> (n: u32)
    requires
        l.wf(),
    ensures
        n == hold_value(*l, flags, f),
{
    env::read_field(flags, l.field(f))
}

/// One reference of a hold family more or less.
pub open spec fn hold_stepped(l: Layout, flags: u32, f: HoldField, up: bool) -> u32 {
    if up {
        env::incremented(flags, l.spec_field(f))
    } else {
        env::decremented(flags, l.spec_field(f))
    }
}

/// Add or take one reference of a hold family, saturating.
pub fn step_hold(l: &Layout, flags: u32, f: HoldField, up: bool) -> (out: u32)
    requires
        l.wf(),
    ensures
        out == hold_stepped(*l, flags, f, up),
{
    if up {
        env::increment(flags, l.field(f))
    } else {
        env::decrement(flags, l.field(f))
    }
}

/// Some hold count of a flag word is not zero.
pub open spec fn held(l: Layout, flags: u32) -> bool {
    exists|f: HoldField| #[trigger] hold_value(l, flags, f) > 0
}

/// Test whether some hold count of a flag word is not zero.
pub fn has_active_holds(l: &Layout, flags: u32) -> (r: bool)
    requires
        l.wf(),
    ensures
        r == held(*l, flags),
{
    let r: bool = hold_count(l, flags, HoldField::Touch) > 0 || hold_count(
        l,
        flags,
        HoldField::SlotClaim,
    ) > 0 || hold_count(l, flags, HoldField::SlotBorrow) > 0 || hold_count(
        l,
        flags,
        HoldField::PositionHold,
    ) > 0 || hold_count(l, flags, HoldField::DropHold) > 0 || hold_count(
        l,
        flags,
        HoldField::Server,
    ) > 0;
    proof {
        if held(*l, flags) {
            let f = choose|f: HoldField| #[trigger] hold_value(*l, flags, f) > 0;
            match f {
                HoldField::Touch => {},
                HoldField::SlotClaim => {},
                HoldField::SlotBorrow => {},
                HoldField::PositionHold => {},
                HoldField::DropHold => {},
                HoldField::Server => {},
            }
        }
    }
    r
}

// ---- state ---------------------------------------------------------
/// The state bits, which propagate bit by bit.
pub open spec fn state_bits(s: StateFlags) -> u32 {
    s.dead | s.pos_need | s.pos_want | s.player_owned | s.surface_locked | s.zone_born
}

/// The mask of all state bits.
pub fn state_mask(s: &StateFlags) -> (mask: u32)
    ensures
        mask == state_bits(*s),
{
    s.dead | s.pos_need | s.pos_want | s.player_owned | s.surface_locked | s.zone_born
}

/// The packed definitions of player souls: the top of the range.
pub const PLAYER_SOUL_FLOOR: u16 = 0xFFF0;

/// The definition is that of a player soul.
pub fn is_player_soul(packed_definition: u16) -> (r: bool)
    ensures
        r == (packed_definition >= PLAYER_SOUL_FLOOR),
{
    packed_definition >= PLAYER_SOUL_FLOOR
}

// ---- placement -----------------------------------------------------
/// The low byte of `flags` holds the placement `[index:u4 | stack:u4]`; a stack
/// of 0 means loose, else the branch is one less.
pub const PLACEMENT_RADIX: u32 = 256;

/// Where a card is placed within its location.
#[derive(Clone, Copy, Debug, PartialEq, Eq, Structural)]
pub enum Micro {
    Loose { local_q: u8, local_r: u8, x: i16, y: i16 },
    Stacked { root: u32, branch: u8, index: u8 },
}

/// `(micro_location, flags)` of a row with a placement written over it.
pub open spec fn applied(m: Micro, flags: u32) -> (u32, u32) {
    match m {
        Micro::Loose { local_q, local_r, x, y } => (
            packed::micro_loose_word(local_q, local_r, x, y),
            (flags / 256 * 256) as u32,
        ),
        Micro::Stacked { root, branch, index } => (
            root,
            (flags / 256 * 256 + (index % 16) * 16 + (branch + 1) % 16) as u32,
        ),
    }
}

/// The placement that a row's fields denote.
pub open spec fn decoded(micro_location: u32, flags: u32) -> Micro {
    if flags % 16 == 0 {
        let f = packed::micro_loose_fields(micro_location);
        Micro::Loose { local_q: f.0, local_r: f.1, x: f.2, y: f.3 }
    } else {
        Micro::Stacked {
            root: micro_location,
            branch: (flags % 16 - 1) as u8,
            index: (flags / 16 % 16) as u8,
        }
    }
}

impl Micro {
    /// Loose exactly on a cell.
    pub fn snap(q: u8, r: u8) -> (m: Micro)
        ensures
            m == (Micro::Loose { local_q: q, local_r: r, x: 0, y: 0 }),
    {
        Micro::Loose { local_q: q, local_r: r, x: 0, y: 0 }
    }

    /// Write the placement over `flags`: gives `(micro_location, flags)`.
    pub fn apply(self, flags: u32) -> (out: (u32, u32))
        ensures
            out == applied(self, flags),
    {
        let rest: u32 = flags / PLACEMENT_RADIX * PLACEMENT_RADIX;
        match self {
            Micro::Loose { local_q, local_r, x, y } => (
                packed::pack_micro_loose(local_q, local_r, x, y),
                rest,
            ),
            Micro::Stacked { root, branch, index } => (
                root,
                rest + (index % 16) as u32 * 16 + (branch as u32 + 1) % 16,
            ),
        }
    }

    /// Decode a row's placement.
    pub fn of(micro_location: u32, flags: u32) -> (m: Micro)
        ensures
            m == decoded(micro_location, flags),
            m matches Micro::Loose { local_q, local_r, .. } ==> local_q < 8 && local_r < 8,
    {
        if flags % 16 == 0 {
            let f: (u8, u8, i16, i16) = packed::unpack_micro_loose(micro_location);
            Micro::Loose { local_q: f.0, local_r: f.1, x: f.2, y: f.3 }
        } else {
            Micro::Stacked {
                root: micro_location,
                branch: (flags % 16 - 1) as u8,
                index: (flags / 16 % 16) as u8,
            }
        }
    }
}

/// The placement fits its packed fields.
pub open spec fn fits(m: Micro) -> bool {
    match m {
        Micro::Loose { local_q, local_r, x, y } => local_q < 8 && local_r < 8 && -2048 <= x < 2048
            && -2048 <= y < 2048,
        Micro::Stacked { root, branch, index } => branch < 15 && index < 16,
    }
}

/// A written placement reads back, and leaves every flag above it alone.
pub proof fn placement_round_trip(m: Micro, flags: u32)
    requires
        fits(m),
    ensures
        decoded(applied(m, flags).0, applied(m, flags).1) == m,
        applied(m, flags).1 / 256 == flags / 256,
{
    match m {
        Micro::Loose { local_q, local_r, x, y } => {
            packed::micro_loose_round_trip(local_q, local_r, x, y);
        },
        Micro::Stacked { .. } => {},
    }
}

// ---- stock ---------------------------------------------------------
/// The stock bits that a zone tile can keep: two slots of two bits.
pub const STOCK_ZONE_SAVE_MASK: u64 = 0xF;

/// The value of a two-bit stock slot; a card has two that a tile knows.
pub open spec fn stock_value(stock: u64, slot: int) -> u8 {
    if slot == 0 {
        (stock % 4) as u8
    } else if slot == 1 {
        (stock / 4 % 4) as u8
    } else {
        0
    }
}

/// A stock word with a slot set to the low bits of `value`.
pub open spec fn with_stock(stock: u64, slot: int, value: u8) -> u64 {
    if slot == 0 {
        (stock / 4 * 4 + value % 4) as u64
    } else if slot == 1 {
        (stock / 16 * 16 + (value % 4) * 4 + stock % 4) as u64
    } else {
        stock
    }
}

/// Read a stock slot; an unknown one is empty.
pub fn stock(word: u64, slot: usize) -> (v: u8)
    ensures
        v == stock_value(word, slot as int),
        v < 4,
{
    if slot == 0 {
        (word % 4) as u8
    } else if slot == 1 {
        (word / 4 % 4) as u8
    } else {
        0
    }
}

/// Write a stock slot; nothing happens to an unknown one.
pub fn write_stock(stock: u64, slot: usize, value: u8) -> (out: u64)
    ensures
        out == with_stock(stock, slot as int, value),
{
    if slot == 0 {
        stock / 4 * 4 + (value % 4) as u64
    } else if slot == 1 {
        stock / 16 * 16 + (value % 4) as u64 * 4 + stock % 4
    } else {
        stock
    }
}

/// A slot reads back what was written to it; the other slot and everything that
/// a tile cannot keep stay.
pub proof fn stock_read_over_write(stock: u64, slot: int, value: u8, other: int)
    requires
        0 <= slot < 2,
        0 <= other < 2,
    ensures
        stock_value(with_stock(stock, slot, value), slot) == value % 4,
        other != slot ==> stock_value(with_stock(stock, slot, value), other) == stock_value(
            stock,
            other,
        ),
        with_stock(stock, slot, value) / 16 == stock / 16,
{
    let h = stock as int / 16;
    let b = stock as int / 4 % 4;
    let a = stock as int % 4;
    let v = value as int % 4;
    assert(stock == 16 * h + 4 * b + a);
    let w = if slot == 0 {
        16 * h + 4 * b + v
    } else {
        16 * h + 4 * v + a
    };
    assert(stock as int / 4 == 4 * h + b);
    assert(with_stock(stock, slot, value) == w);
    assert(w / 16 == h);
    assert(w % 4 == if slot == 0 {
        v
    } else {
        a
    });
    assert(w / 4 % 4 == if slot == 0 {
        b
    } else {
        v
    });
}

} // verus!
