//! What every card operation reads besides the tables: the clock, the flag
//! masks and the content catalog.
use vstd::prelude::*;

use crate::cards::flags::BkFlags;
use crate::cards::flags::StateFlags;
use crate::cards::micro;
use crate::content::Catalog;
use crate::players::souls;
use crate::regions::cards as tiles;
use crate::registry;
use crate::registry::FlagEntry;

verus! {

pub struct Env {
    /// Wall-clock now in unix milliseconds.
    pub now_ms: u64,
    pub state: StateFlags,
    pub bk: BkFlags,
    pub catalog: Catalog,
    /// Loose placement kind of each surface, indexed by the surface byte.
    pub loose_kinds: Vec<u8>,
    /// Loose placement kind of rectangular grids.
    pub loose_rect: u8,
}

/// A refcount field of `flags_bk`.
#[derive(Clone, Copy, Debug, PartialEq, Eq, Structural)]
pub struct CountField {
    pub mask: u32,
    pub shift: u32,
    pub max: u32,
}

/// The six hold families.
#[derive(Clone, Copy, Debug, PartialEq, Eq, Structural)]
pub enum HoldKind {
    Touch,
    SlotHold,
    SlotShare,
    PositionHold,
    DropHold,
    Server,
}

impl BkFlags {
    /// Every field starts inside the 32-bit word.
    pub open spec fn wf(self) -> bool {
        &&& self.position_hold_count_shift < 32
        &&& self.slot_share_count_shift < 32
        &&& self.drop_hold_count_shift < 32
        &&& self.slot_hold_count_shift < 32
        &&& self.touch_count_shift < 32
        &&& self.server_count_shift < 32
        &&& self.tile_stock_0_shift < 32
        &&& self.tile_stock_1_shift < 32
        &&& self.stack_state_shift < 32
        &&& self.stack_index_shift < 32
    }

    /// Test whether every field starts inside the word.
    pub fn is_wf(&self) -> (ok: bool)
        ensures
            ok == self.wf(),
    {
        self.position_hold_count_shift < 32 && self.slot_share_count_shift < 32
            && self.drop_hold_count_shift < 32 && self.slot_hold_count_shift < 32
            && self.touch_count_shift < 32 && self.server_count_shift < 32
            && self.tile_stock_0_shift < 32 && self.tile_stock_1_shift < 32
            && self.stack_state_shift < 32 && self.stack_index_shift < 32
    }

    pub open spec fn spec_count_field(self, kind: HoldKind) -> CountField {
        match kind {
            HoldKind::Touch => CountField {
                mask: self.touch_count_mask,
                shift: self.touch_count_shift,
                max: self.touch_count_max,
            },
            HoldKind::SlotHold => CountField {
                mask: self.slot_hold_count_mask,
                shift: self.slot_hold_count_shift,
                max: self.slot_hold_count_max,
            },
            HoldKind::SlotShare => CountField {
                mask: self.slot_share_count_mask,
                shift: self.slot_share_count_shift,
                max: self.slot_share_count_max,
            },
            HoldKind::PositionHold => CountField {
                mask: self.position_hold_count_mask,
                shift: self.position_hold_count_shift,
                max: self.position_hold_count_max,
            },
            HoldKind::DropHold => CountField {
                mask: self.drop_hold_count_mask,
                shift: self.drop_hold_count_shift,
                max: self.drop_hold_count_max,
            },
            HoldKind::Server => CountField {
                mask: self.server_count_mask,
                shift: self.server_count_shift,
                max: self.server_count_max,
            },
        }
    }

    /// The refcount field of a hold family.
    pub fn count_field(&self, kind: HoldKind) -> (f: CountField)
        ensures
            f == self.spec_count_field(kind),
            self.wf() ==> f.shift < 32,
    {
        match kind {
            HoldKind::Touch => CountField {
                mask: self.touch_count_mask,
                shift: self.touch_count_shift,
                max: self.touch_count_max,
            },
            HoldKind::SlotHold => CountField {
                mask: self.slot_hold_count_mask,
                shift: self.slot_hold_count_shift,
                max: self.slot_hold_count_max,
            },
            HoldKind::SlotShare => CountField {
                mask: self.slot_share_count_mask,
                shift: self.slot_share_count_shift,
                max: self.slot_share_count_max,
            },
            HoldKind::PositionHold => CountField {
                mask: self.position_hold_count_mask,
                shift: self.position_hold_count_shift,
                max: self.position_hold_count_max,
            },
            HoldKind::DropHold => CountField {
                mask: self.drop_hold_count_mask,
                shift: self.drop_hold_count_shift,
                max: self.drop_hold_count_max,
            },
            HoldKind::Server => CountField {
                mask: self.server_count_mask,
                shift: self.server_count_shift,
                max: self.server_count_max,
            },
        }
    }
}

impl Env {
    pub open spec fn wf(self) -> bool {
        &&& self.bk.wf()
        &&& self.state.progress_style_shift < 32
        &&& self.loose_kinds.len() == 256
        &&& self.state.portrait_id_mask == souls::FLAG_PORTRAIT_MASK
        &&& self.state.portrait_id_shift == souls::PORTRAIT_SHIFT
        &&& self.laid_out()
    }

    /// The registry lays out the bookkeeping word without overlaps: the placement,
    /// the hold counts, the tile stocks and the dirty markers each have bits of their
    /// own.
    #[verifier::opaque]
    pub open spec fn laid_out(self) -> bool {
        &&& micro::laid_out(self.bk)
        &&& counts_laid_out(self.bk)
        &&& marks_laid_out(self.bk)
    }

    /// Test whether the rules can work with what this holds.
    pub fn is_valid(&self) -> (ok: bool)
        ensures
            ok == self.wf(),
    {
        proof {
            reveal(Env::laid_out);
        }
        self.bk.is_wf() && self.state.progress_style_shift < 32 && self.loose_kinds.len() == 256
            && self.state.portrait_id_mask == souls::FLAG_PORTRAIT_MASK
            && self.state.portrait_id_shift == souls::PORTRAIT_SHIFT && micro::is_laid_out(&self.bk)
            && are_counts_laid_out(&self.bk) && are_marks_laid_out(&self.bk)
    }

    /// The loose placement kind of a surface.
    pub fn loose_kind_for_surface(&self, surface: u8) -> (kind: u8)
        requires
            self.wf(),
        ensures
            kind == self.loose_kinds@[surface as int],
    {
        self.loose_kinds[surface as usize]
    }
}

// ---- refcount arithmetic -------------------------------------------
/// The value of a field of a flag word.
pub open spec fn field_value(word: u32, f: CountField) -> u32 {
    (word & f.mask) >> f.shift
}

/// `word` with the field set to the low bits of `count`.
pub open spec fn with_field(word: u32, f: CountField, count: u32) -> u32 {
    (word & !f.mask) | ((count & f.max) << f.shift)
}

/// One more reference, at most the field's maximum.
pub open spec fn incremented(word: u32, f: CountField) -> u32 {
    let v = field_value(word, f);
    with_field(
        word,
        f,
        if v < f.max {
            (v + 1) as u32
        } else {
            f.max
        },
    )
}

/// One reference less, at least zero.
pub open spec fn decremented(word: u32, f: CountField) -> u32 {
    let v = field_value(word, f);
    with_field(
        word,
        f,
        if v > 0 {
            (v - 1) as u32
        } else {
            0
        },
    )
}

/// Read a field.
pub fn read_field(word: u32, f: CountField) -> (v: u32)
    requires
        f.shift < 32,
    ensures
        v == field_value(word, f),
{
    (word & f.mask) >> f.shift
}

/// Replace a field.
pub fn write_field(word: u32, f: CountField, count: u32) -> (out: u32)
    requires
        f.shift < 32,
    ensures
        out == with_field(word, f, count),
{
    (word & !f.mask) | ((count & f.max) << f.shift)
}

/// Add one to a field, saturating at its maximum.
pub fn increment(word: u32, f: CountField) -> (out: u32)
    requires
        f.shift < 32,
    ensures
        out == incremented(word, f),
{
    let v: u32 = read_field(word, f);
    let next: u32 = if v < f.max {
        v + 1
    } else {
        f.max
    };
    write_field(word, f, next)
}

/// Subtract one from a field, saturating at zero.
pub fn decrement(word: u32, f: CountField) -> (out: u32)
    requires
        f.shift < 32,
    ensures
        out == decremented(word, f),
{
    let v: u32 = read_field(word, f);
    let next: u32 = if v > 0 {
        v - 1
    } else {
        0
    };
    write_field(word, f, next)
}

/// Bit `n` of a flag word.
pub open spec fn bit(word: u32, n: u32) -> bool {
    word & (1u32 << n) != 0
}

/// Setting and clearing disjoint bits of a word, and the part of them that changes
/// it, bit by bit.
pub proof fn changed_bits(word: u32, set_bits: u32, clear_bits: u32, n: u32)
    by (bit_vector)
    requires
        n < 32,
        set_bits & clear_bits == 0,
    ensures
        !bit(0, n),
        !(bit(set_bits, n) && bit(clear_bits, n)),
        bit(set_bits & !word, n) == (bit(set_bits, n) && !bit(word, n)),
        bit(clear_bits & word, n) == (bit(clear_bits, n) && bit(word, n)),
        (set_bits & !word) & (clear_bits & word) == 0,
        bit((word & !(clear_bits & word)) | (set_bits & !word), n) == (bit(set_bits, n) || (bit(
            word,
            n,
        ) && !bit(clear_bits, n))),
{
}

/// A field of `width` bits at `shift` inside a 32-bit word.
pub open spec fn well_shaped(f: CountField, width: u32) -> bool {
    &&& 0 < width < 32
    &&& f.shift + width <= 32
    &&& f.max == ((1u32 << width) - 1) as u32
    &&& f.mask == f.max << f.shift
}

/// A field of some width inside a 32-bit word.
pub open spec fn shaped(f: CountField) -> bool {
    exists|width: u32| well_shaped(f, width)
}

/// Two fields of a word that share no bit.
pub open spec fn apart(f: CountField, g: CountField) -> bool {
    f.mask & g.mask == 0
}

/// The count of a hold family is a field of the bookkeeping word that shares no bit
/// with another count, nor with the placement, the tile stocks or the dirty markers.
pub open spec fn count_laid_out(bk: BkFlags, kind: HoldKind) -> bool {
    let f = bk.spec_count_field(kind);
    &&& shaped(f)
    &&& f.mask & micro::stack_mask(bk) == 0
    &&& f.mask & (bk.position_dirty | bk.data_dirty) == 0
    &&& apart(f, tiles::stock_field(bk, 0))
    &&& apart(f, tiles::stock_field(bk, 1))
    &&& forall|other: HoldKind|
        other != kind ==> apart(f, #[trigger] bk.spec_count_field(other))
}

/// The hold counts and the tile stocks are fields of the bookkeeping word, and the
/// counts lie apart from everything else.
pub open spec fn counts_laid_out(bk: BkFlags) -> bool {
    &&& shaped(tiles::stock_field(bk, 0))
    &&& shaped(tiles::stock_field(bk, 1))
    &&& forall|kind: HoldKind|
        #![trigger bk.spec_count_field(kind)]
        count_laid_out(bk, kind)
}

/// The dirty markers are there, and lie apart from one another and from the
/// placement.
pub open spec fn marks_laid_out(bk: BkFlags) -> bool {
    &&& bk.position_dirty != 0
    &&& bk.data_dirty != 0
    &&& bk.position_dirty & bk.data_dirty == 0
    &&& (bk.position_dirty | bk.data_dirty) & micro::stack_mask(bk) == 0
}

/// A field that the registry declares inside the word is well shaped.
pub proof fn declared_fields_are_well_shaped(
    reg: Seq<FlagEntry>,
    section: Seq<char>,
    name: Seq<char>,
    shift: u32,
    width: u32,
)
    requires
        registry::field_of(reg, section, name) == Some((shift, width)),
        0 < width < 32,
        shift + width <= 32,
    ensures
        ({
            let p = registry::parts_of(reg, section, name);
            well_shaped(CountField { mask: p.0, shift: p.1, max: p.2 }, width)
        }),
{
    assert((((1u64 << width) - 1) as u64 & 0xFFFF_FFFF) as u32 == ((1u32 << width) - 1) as u32)
        by (bit_vector)
        requires
            0 < width < 32,
    ;
}

proof fn lemma_field_read_write(word: u32, mask: u32, shift: u32, max: u32, width: u32, count: u32)
    by (bit_vector)
    requires
        0 < width < 32,
        shift + width <= 32,
        max == (1u32 << width) - 1,
        mask == max << shift,
        count <= max,
    ensures
        (((word & !mask) | ((count & max) << shift)) & mask) >> shift == count,
        ((word & !mask) | ((count & max) << shift)) & !mask == word & !mask,
        (word & mask) >> shift <= max,
        (word & !mask) | (((word & mask) >> shift) << shift) == word,
        ((word & mask) >> shift) & max == (word & mask) >> shift,
        count & max == count,
{
}

/// A field reads back what was written, and writing it leaves every other bit
/// alone.
pub proof fn field_read_over_write(word: u32, f: CountField, width: u32, count: u32)
    requires
        well_shaped(f, width),
        count <= f.max,
    ensures
        field_value(with_field(word, f, count), f) == count,
        with_field(word, f, count) & !f.mask == word & !f.mask,
        field_value(word, f) <= f.max,
        with_field(word, f, field_value(word, f)) == word,
{
    assert(1u32 << width >= 1) by (bit_vector)
        requires
            0 < width < 32,
    ;
    assert(f.max == (1u32 << width) - 1);
    lemma_field_read_write(word, f.mask, f.shift, f.max, width, count);
}

proof fn lemma_write_confined(word: u32, mask: u32, shift: u32, max: u32, count: u32, other: u32)
    by (bit_vector)
    requires
        shift < 32,
        mask == max << shift,
        other & mask == 0,
    ensures
        ((word & !mask) | ((count & max) << shift)) & other == word & other,
{
}

/// Writing any value to a field leaves the bits outside the field alone.
pub proof fn write_is_confined(word: u32, f: CountField, count: u32, other: u32)
    requires
        shaped(f),
        other & f.mask == 0,
    ensures
        with_field(word, f, count) & other == word & other,
{
    let width = choose|width: u32| well_shaped(f, width);
    lemma_write_confined(word, f.mask, f.shift, f.max, count, other);
}

/// Acquiring and then releasing a reference gives the word back, unless the
/// count was already at its maximum.
pub proof fn acquire_release_inverse(word: u32, f: CountField, width: u32)
    requires
        well_shaped(f, width),
        field_value(word, f) < f.max,
    ensures
        decremented(incremented(word, f), f) == word,
        field_value(incremented(word, f), f) == field_value(word, f) + 1,
{
    let v = field_value(word, f);
    let up = incremented(word, f);
    field_read_over_write(word, f, width, (v + 1) as u32);
    assert(field_value(up, f) == v + 1);
    field_read_over_write(up, f, width, v);
    field_read_over_write(word, f, width, v);
    let back = decremented(up, f);
    assert(back == (up & !f.mask) | ((v & f.max) << f.shift));
    assert(up & !f.mask == word & !f.mask);
}

/// The count saturates at both ends.
pub proof fn counts_saturate(word: u32, f: CountField, width: u32)
    requires
        well_shaped(f, width),
    ensures
        field_value(word, f) == f.max ==> incremented(word, f) == word,
        field_value(word, f) == 0 ==> decremented(word, f) == word,
{
    field_read_over_write(word, f, width, 0);
    field_read_over_write(word, f, width, field_value(word, f));
}

// ---- testing a layout ----------------------------------------------
/// Test whether a field has some width inside a 32-bit word.
pub fn is_shaped(f: CountField) -> (ok: bool)
    ensures
        ok == shaped(f),
{
    let mut width: u32 = 1;
    while width < 32
        invariant
            1 <= width <= 32,
            forall|w: u32| w < width ==> !well_shaped(f, w),
        decreases 32 - width,
    {
        assert(1u32 << width >= 1) by (bit_vector)
            requires
                0 < width < 32,
        ;
        if f.shift <= 32 - width && f.max == (1u32 << width) - 1 && f.mask == f.max << f.shift {
            assert(well_shaped(f, width));
            return true;
        }
        width = width + 1;
    }
    false
}

fn is_count_laid_out(bk: &BkFlags, kind: HoldKind) -> (ok: bool)
    ensures
        ok == count_laid_out(*bk, kind),
{
    let f: CountField = bk.count_field(kind);
    let stack: u32 = bk.micro_is_card | bk.stack_state_mask | bk.stack_index_mask;
    let own: bool = is_shaped(f) && f.mask & stack == 0 && f.mask & (bk.position_dirty
        | bk.data_dirty) == 0 && f.mask & bk.tile_stock_0_mask == 0 && f.mask & bk.tile_stock_1_mask
        == 0;
    let alone: bool = (kind == HoldKind::Touch || f.mask & bk.touch_count_mask == 0) && (kind
        == HoldKind::SlotHold || f.mask & bk.slot_hold_count_mask == 0) && (kind
        == HoldKind::SlotShare || f.mask & bk.slot_share_count_mask == 0) && (kind
        == HoldKind::PositionHold || f.mask & bk.position_hold_count_mask == 0) && (kind
        == HoldKind::DropHold || f.mask & bk.drop_hold_count_mask == 0) && (kind
        == HoldKind::Server || f.mask & bk.server_count_mask == 0);
    proof {
        let all = forall|other: HoldKind|
            other != kind ==> apart(f, #[trigger] bk.spec_count_field(other));
        if alone {
            assert forall|other: HoldKind| other != kind implies apart(
                f,
                #[trigger] bk.spec_count_field(other),
            ) by {
                match other {
                    HoldKind::Touch => {},
                    HoldKind::SlotHold => {},
                    HoldKind::SlotShare => {},
                    HoldKind::PositionHold => {},
                    HoldKind::DropHold => {},
                    HoldKind::Server => {},
                }
            }
        }
        if all {
            assert(kind != HoldKind::Touch ==> apart(f, bk.spec_count_field(HoldKind::Touch)));
            assert(kind != HoldKind::SlotHold ==> apart(
                f,
                bk.spec_count_field(HoldKind::SlotHold),
            ));
            assert(kind != HoldKind::SlotShare ==> apart(
                f,
                bk.spec_count_field(HoldKind::SlotShare),
            ));
            assert(kind != HoldKind::PositionHold ==> apart(
                f,
                bk.spec_count_field(HoldKind::PositionHold),
            ));
            assert(kind != HoldKind::DropHold ==> apart(
                f,
                bk.spec_count_field(HoldKind::DropHold),
            ));
            assert(kind != HoldKind::Server ==> apart(f, bk.spec_count_field(HoldKind::Server)));
        }
    }
    own && alone
}

fn are_counts_laid_out(bk: &BkFlags) -> (ok: bool)
    ensures
        ok == counts_laid_out(*bk),
{
    let stock: bool = is_shaped(
        CountField {
            mask: bk.tile_stock_0_mask,
            shift: bk.tile_stock_0_shift,
            max: bk.tile_stock_0_max,
        },
    ) && is_shaped(
        CountField {
            mask: bk.tile_stock_1_mask,
            shift: bk.tile_stock_1_shift,
            max: bk.tile_stock_1_max,
        },
    );
    let counts: bool = is_count_laid_out(bk, HoldKind::Touch) && is_count_laid_out(
        bk,
        HoldKind::SlotHold,
    ) && is_count_laid_out(bk, HoldKind::SlotShare) && is_count_laid_out(
        bk,
        HoldKind::PositionHold,
    ) && is_count_laid_out(bk, HoldKind::DropHold) && is_count_laid_out(bk, HoldKind::Server);
    proof {
        let all = forall|kind: HoldKind|
            #![trigger bk.spec_count_field(kind)]
            count_laid_out(*bk, kind);
        if counts {
            assert forall|kind: HoldKind|
                #![trigger bk.spec_count_field(kind)]
                count_laid_out(*bk, kind) by {
                match kind {
                    HoldKind::Touch => {},
                    HoldKind::SlotHold => {},
                    HoldKind::SlotShare => {},
                    HoldKind::PositionHold => {},
                    HoldKind::DropHold => {},
                    HoldKind::Server => {},
                }
            }
        }
        if all {
            assert(shaped(bk.spec_count_field(HoldKind::Touch)));
            assert(shaped(bk.spec_count_field(HoldKind::SlotHold)));
            assert(shaped(bk.spec_count_field(HoldKind::SlotShare)));
            assert(shaped(bk.spec_count_field(HoldKind::PositionHold)));
            assert(shaped(bk.spec_count_field(HoldKind::DropHold)));
            assert(shaped(bk.spec_count_field(HoldKind::Server)));
        }
    }
    stock && counts
}

fn are_marks_laid_out(bk: &BkFlags) -> (ok: bool)
    ensures
        ok == marks_laid_out(*bk),
{
    let stack: u32 = bk.micro_is_card | bk.stack_state_mask | bk.stack_index_mask;
    bk.position_dirty != 0 && bk.data_dirty != 0 && bk.position_dirty & bk.data_dirty == 0 && (
    bk.position_dirty | bk.data_dirty) & stack == 0
}

} // verus!
