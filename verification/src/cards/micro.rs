//! A card's micro placement: loose on a cell, or a member of a stack.
//!
//! The placement is the value of `micro_location` together with the
//! `micro_is_card`, `stack_state` and `stack_index` bits of `flags_bk`. They are
//! written together, so the discriminator and the value it gates never drift.
use vstd::prelude::*;

use crate::cards::env;
use crate::cards::env::CountField;
use crate::cards::flags::BkFlags;
use crate::packed;

verus! {

#[derive(Clone, Copy, Debug, PartialEq, Eq, Structural)]
pub enum Micro {
    /// On the cell `(local_q, local_r)` with an offset. `kind` is the loose kind.
    Loose { local_q: u8, local_r: u8, x: i16, y: i16, kind: u8 },
    /// A member of the stack of `root`, in `branch` at `index`.
    Stacked { root: u32, branch: u8, index: u8 },
}

pub open spec fn stack_state_field(bk: BkFlags) -> CountField {
    CountField { mask: bk.stack_state_mask, shift: bk.stack_state_shift, max: bk.stack_state_max }
}

pub open spec fn stack_index_field(bk: BkFlags) -> CountField {
    CountField { mask: bk.stack_index_mask, shift: bk.stack_index_shift, max: bk.stack_index_max }
}

/// The mask of all placement bits.
pub open spec fn stack_mask(bk: BkFlags) -> u32 {
    bk.micro_is_card | bk.stack_state_mask | bk.stack_index_mask
}

/// The `(micro_location, flags_bk)` that a placement writes over `flags_bk`.
pub open spec fn applied(m: Micro, flags_bk: u32, bk: BkFlags) -> (u32, u32) {
    match m {
        Micro::Loose { local_q, local_r, x, y, kind } => (
            packed::micro_loose_word(local_q, local_r, x, y),
            env::with_field(
                env::with_field(
                    flags_bk & !bk.micro_is_card,
                    stack_state_field(bk),
                    kind as u32,
                ),
                stack_index_field(bk),
                0,
            ),
        ),
        Micro::Stacked { root, branch, index } => (
            root,
            env::with_field(
                env::with_field(
                    flags_bk | bk.micro_is_card,
                    stack_state_field(bk),
                    branch as u32,
                ),
                stack_index_field(bk),
                index as u32,
            ),
        ),
    }
}

/// The placement that a row's fields denote.
pub open spec fn decoded(micro_location: u32, flags_bk: u32, bk: BkFlags) -> Micro {
    let state = env::field_value(flags_bk, stack_state_field(bk)) as u8;
    if flags_bk & bk.micro_is_card != 0 {
        Micro::Stacked {
            root: micro_location,
            branch: state,
            index: env::field_value(flags_bk, stack_index_field(bk)) as u8,
        }
    } else {
        let f = packed::micro_loose_fields(micro_location);
        Micro::Loose { local_q: f.0, local_r: f.1, x: f.2, y: f.3, kind: state }
    }
}

impl Micro {
    /// Loose exactly on a cell.
    pub fn snap(q: u8, r: u8, kind: u8) -> (m: Micro)
        ensures
            m == (Micro::Loose { local_q: q, local_r: r, x: 0, y: 0, kind }),
    {
        Micro::Loose { local_q: q, local_r: r, x: 0, y: 0, kind }
    }

    /// A stack member whose place under `host` is resolved later.
    pub fn deferred(host: u32) -> (m: Micro)
        ensures
            m == (Micro::Stacked { root: host, branch: packed::STACK_STATE_DEFERRED, index: 0 }),
    {
        Micro::Stacked { root: host, branch: packed::STACK_STATE_DEFERRED, index: 0 }
    }

    /// Write the placement over `flags_bk`: gives `(micro_location, flags_bk)`.
    pub fn apply(self, flags_bk: u32, bk: &BkFlags) -> (out: (u32, u32))
        requires
            bk.wf(),
        ensures
            out == applied(self, flags_bk, *bk),
    {
        let state = CountField {
            mask: bk.stack_state_mask,
            shift: bk.stack_state_shift,
            max: bk.stack_state_max,
        };
        let slot = CountField {
            mask: bk.stack_index_mask,
            shift: bk.stack_index_shift,
            max: bk.stack_index_max,
        };
        match self {
            Micro::Loose { local_q, local_r, x, y, kind } => {
                let w: u32 = env::write_field(flags_bk & !bk.micro_is_card, state, kind as u32);
                (packed::pack_micro_loose(local_q, local_r, x, y), env::write_field(w, slot, 0))
            },
            Micro::Stacked { root, branch, index } => {
                let w: u32 = env::write_field(flags_bk | bk.micro_is_card, state, branch as u32);
                (root, env::write_field(w, slot, index as u32))
            },
        }
    }

    /// Decode a row's placement.
    pub fn of(micro_location: u32, flags_bk: u32, bk: &BkFlags) -> (m: Micro)
        requires
            bk.wf(),
        ensures
            m == decoded(micro_location, flags_bk, *bk),
    {
        let state = CountField {
            mask: bk.stack_state_mask,
            shift: bk.stack_state_shift,
            max: bk.stack_state_max,
        };
        let slot = CountField {
            mask: bk.stack_index_mask,
            shift: bk.stack_index_shift,
            max: bk.stack_index_max,
        };
        let kind: u8 = env::read_field(flags_bk, state) as u8;
        if flags_bk & bk.micro_is_card != 0 {
            Micro::Stacked {
                root: micro_location,
                branch: kind,
                index: env::read_field(flags_bk, slot) as u8,
            }
        } else {
            let f: (u8, u8, i16, i16) = packed::unpack_micro_loose(micro_location);
            Micro::Loose { local_q: f.0, local_r: f.1, x: f.2, y: f.3, kind }
        }
    }
}

// ---- laws ----------------------------------------------------------
/// The placement bits are two fields and a discriminator that do not overlap.
pub open spec fn laid_out(bk: BkFlags) -> bool {
    &&& env::shaped(stack_state_field(bk))
    &&& env::shaped(stack_index_field(bk))
    &&& bk.micro_is_card != 0
    &&& bk.stack_state_mask & bk.stack_index_mask == 0
    &&& bk.micro_is_card & bk.stack_state_mask == 0
    &&& bk.micro_is_card & bk.stack_index_mask == 0
}

/// Test whether the placement bits do not overlap.
pub fn is_laid_out(bk: &BkFlags) -> (ok: bool)
    ensures
        ok == laid_out(*bk),
{
    env::is_shaped(
        CountField {
            mask: bk.stack_state_mask,
            shift: bk.stack_state_shift,
            max: bk.stack_state_max,
        },
    ) && env::is_shaped(
        CountField {
            mask: bk.stack_index_mask,
            shift: bk.stack_index_shift,
            max: bk.stack_index_max,
        },
    ) && bk.micro_is_card != 0 && bk.stack_state_mask & bk.stack_index_mask == 0 && bk.micro_is_card
        & bk.stack_state_mask == 0 && bk.micro_is_card & bk.stack_index_mask == 0
}

/// The placement fits its packed fields.
pub open spec fn fits(m: Micro, bk: BkFlags) -> bool {
    match m {
        Micro::Loose { local_q, local_r, x, y, kind } => local_q < 8 && local_r < 8 && -2048 <= x
            < 2048 && -2048 <= y < 2048 && kind <= bk.stack_state_max,
        Micro::Stacked { root, branch, index } => branch <= bk.stack_state_max && index
            <= bk.stack_index_max,
    }
}

/// Two words that agree outside `i` agree on what lies apart from `i`.
proof fn lemma_apart(a: u32, b: u32, s: u32, i: u32)
    by (bit_vector)
    requires
        a & !i == b & !i,
        s & i == 0,
    ensures
        a & s == b & s,
{
}

proof fn lemma_discriminator(word: u32, mic: u32, s: u32, i: u32)
    by (bit_vector)
    ensures
        (word & !mic) & mic == 0,
        (word | mic) & mic == mic,
        (word & !mic) & !((mic | s) | i) == word & !((mic | s) | i),
        (word | mic) & !((mic | s) | i) == word & !((mic | s) | i),
        !((mic | s) | i) & s == 0,
        !((mic | s) | i) & i == 0,
{
}

/// A placement reads back what was written, and writing it leaves every other bit
/// of the flag word alone.
pub proof fn placement_round_trip(m: Micro, flags_bk: u32, bk: BkFlags)
    requires
        laid_out(bk),
        fits(m, bk),
    ensures
        ({
            let a = applied(m, flags_bk, bk);
            &&& decoded(a.0, a.1, bk) == m
            &&& a.1 & !stack_mask(bk) == flags_bk & !stack_mask(bk)
        }),
{
    let sf = stack_state_field(bk);
    let xf = stack_index_field(bk);
    let state_width = choose|w: u32| env::well_shaped(sf, w);
    let index_width = choose|w: u32| env::well_shaped(xf, w);
    let mic = bk.micro_is_card;
    let rest = !stack_mask(bk);
    lemma_discriminator(flags_bk, mic, sf.mask, xf.mask);
    let (w1, state, slot) = match m {
        Micro::Loose { local_q, local_r, x, y, kind } => {
            packed::micro_loose_round_trip(local_q, local_r, x, y);
            (flags_bk & !mic, kind as u32, 0u32)
        },
        Micro::Stacked { root, branch, index } => (flags_bk | mic, branch as u32, index as u32),
    };
    let w2 = env::with_field(w1, sf, state);
    let w3 = env::with_field(w2, xf, slot);
    env::field_read_over_write(w1, sf, state_width, state);
    env::field_read_over_write(w2, xf, index_width, slot);
    lemma_apart(w3, w2, sf.mask, xf.mask);
    lemma_apart(w3, w2, mic, xf.mask);
    lemma_apart(w2, w1, mic, sf.mask);
    lemma_apart(w3, w2, rest, xf.mask);
    lemma_apart(w2, w1, rest, sf.mask);
}

/// Whatever its numbers, a stacked placement marks the row as a stack member and a
/// loose one clears the mark; both leave every bit outside the placement alone.
pub proof fn placement_marks_members(m: Micro, flags_bk: u32, bk: BkFlags, other: u32)
    requires
        laid_out(bk),
        other & stack_mask(bk) == 0,
    ensures
        (applied(m, flags_bk, bk).1 & bk.micro_is_card != 0) == (m is Stacked),
        applied(m, flags_bk, bk).1 & other == flags_bk & other,
{
    let sf = stack_state_field(bk);
    let xf = stack_index_field(bk);
    let mic = bk.micro_is_card;
    let (w1, state, slot) = match m {
        Micro::Loose { local_q, local_r, x, y, kind } => (flags_bk & !mic, kind as u32, 0u32),
        Micro::Stacked { root, branch, index } => (flags_bk | mic, branch as u32, index as u32),
    };
    let w2 = env::with_field(w1, sf, state);
    let sm = sf.mask;
    let xm = xf.mask;
    assert((flags_bk & !mic) & mic == 0 && (flags_bk | mic) & mic == mic && other & mic == 0
        && other & sm == 0 && other & xm == 0 && (flags_bk & !mic) & other == flags_bk & other && (
    flags_bk | mic) & other == flags_bk & other) by (bit_vector)
        requires
            other & ((mic | sm) | xm) == 0,
    ;
    env::write_is_confined(w1, sf, state, mic);
    env::write_is_confined(w2, xf, slot, mic);
    env::write_is_confined(w1, sf, state, other);
    env::write_is_confined(w2, xf, slot, other);
}

} // verus!
