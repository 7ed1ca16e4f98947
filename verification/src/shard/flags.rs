//! Bit masks of the `cards.flags` and `cards.flags_bk` host integers, built once
//! from the flag registry.
use vstd::prelude::*;

use crate::registry;
use crate::registry::FlagEntry;

verus! {

/// Single-bit state masks within the propagating `flags` word.
#[derive(Clone, Copy, Debug, PartialEq, Eq, Structural)]
pub struct StateFlags {
    pub dead: u32,
    /// The server requires the row's position exactly.
    pub pos_need: u32,
    /// The server prefers the row's position.
    pub pos_want: u32,
    /// `owner_id` names a player.
    pub player_owned: u32,
    pub surface_locked: u32,
    /// The card was materialized from zone tile data.
    pub zone_born: u32,
}

/// Dirty and preserve markers within the `flags_bk` byte, which does not
/// propagate.
#[derive(Clone, Copy, Debug, PartialEq, Eq, Structural)]
pub struct BkFlags {
    pub position_dirty: u8,
    pub position_preserve: u8,
    pub data_dirty: u8,
    pub data_preserve: u8,
}

/// Concurrency cap on the touch count of a card that a proposal targets.
pub const TOUCH_COUNT_CLIENT_CAP: u32 = 3;

/// Concurrency cap on the server count.
pub const SERVER_COUNT_CAP: u32 = 3;

/// The registry declares every flag that [`state_flags`] reads.
pub open spec fn declares_state_flags(reg: Seq<FlagEntry>) -> bool {
    let s = "flags"@;
    &&& registry::has_bit(reg, s, "dead"@)
    &&& registry::has_bit(reg, s, "pos_need"@)
    &&& registry::has_bit(reg, s, "pos_want"@)
    &&& registry::has_bit(reg, s, "player_owned"@)
    &&& registry::has_bit(reg, s, "surface_locked"@)
    &&& registry::has_bit(reg, s, "zone_born"@)
}

/// Test whether the registry declares every flag that [`state_flags`] reads.
pub fn has_state_flags(reg: &Vec<FlagEntry>) -> (ok: bool)
    ensures
        ok == declares_state_flags(reg@),
{
    let s: &str = "flags";
    registry::is_bit(reg, s, "dead")
        && registry::is_bit(reg, s, "pos_need")
        && registry::is_bit(reg, s, "pos_want")
        && registry::is_bit(reg, s, "player_owned")
        && registry::is_bit(reg, s, "surface_locked")
        && registry::is_bit(reg, s, "zone_born")
}

/// Build the state masks from the registry.
pub fn state_flags(reg: &Vec<FlagEntry>) -> (flags: StateFlags)
    requires
        declares_state_flags(reg@),
    ensures
        ({
            let s = "flags"@;
            flags == (StateFlags {
                dead: registry::mask_of(reg@, s, "dead"@),
                pos_need: registry::mask_of(reg@, s, "pos_need"@),
                pos_want: registry::mask_of(reg@, s, "pos_want"@),
                player_owned: registry::mask_of(reg@, s, "player_owned"@),
                surface_locked: registry::mask_of(reg@, s, "surface_locked"@),
                zone_born: registry::mask_of(reg@, s, "zone_born"@),
            })
        }),
{
    let s: &str = "flags";
    StateFlags {
        dead: registry::bit_mask(reg, s, "dead"),
        pos_need: registry::bit_mask(reg, s, "pos_need"),
        pos_want: registry::bit_mask(reg, s, "pos_want"),
        player_owned: registry::bit_mask(reg, s, "player_owned"),
        surface_locked: registry::bit_mask(reg, s, "surface_locked"),
        zone_born: registry::bit_mask(reg, s, "zone_born"),
    }
}

/// `section.name` is declared as a bit of a byte.
pub open spec fn has_bit8(reg: Seq<FlagEntry>, section: Seq<char>, name: Seq<char>) -> bool {
    registry::bit_of(reg, section, name) matches Some(b) && b < 8
}

/// Test whether `section.name` is declared as a bit of a byte.
pub fn is_bit8(reg: &Vec<FlagEntry>, section: &str, name: &str) -> (ok: bool)
    ensures
        ok == has_bit8(reg@, section@, name@),
{
    match registry::flag_bit(reg, section, name) {
        Some(b) => b < 8,
        None => false,
    }
}

/// The byte mask of the single-bit flag `section.name`.
pub open spec fn mask8_of(reg: Seq<FlagEntry>, section: Seq<char>, name: Seq<char>) -> u8 {
    1u8 << registry::bit_of(reg, section, name)->0
}

/// Look up a single-bit flag of a byte and return its pre-shifted mask.
pub fn bit_mask8(reg: &Vec<FlagEntry>, section: &str, name: &str) -> (mask: u8)
    requires
        has_bit8(reg@, section@, name@),
    ensures
        mask == mask8_of(reg@, section@, name@),
{
    let bit: u32 = registry::flag_bit(reg, section, name).unwrap();
    1u8 << bit
}

/// The registry declares every flag that [`bk_flags`] reads.
pub open spec fn declares_bk_flags(reg: Seq<FlagEntry>) -> bool {
    let s = "flags_bk"@;
    &&& has_bit8(reg, s, "position_dirty"@)
    &&& has_bit8(reg, s, "position_preserve"@)
    &&& has_bit8(reg, s, "data_dirty"@)
    &&& has_bit8(reg, s, "data_preserve"@)
}

/// Test whether the registry declares every flag that [`bk_flags`] reads.
pub fn has_bk_flags(reg: &Vec<FlagEntry>) -> (ok: bool)
    ensures
        ok == declares_bk_flags(reg@),
{
    let s: &str = "flags_bk";
    is_bit8(reg, s, "position_dirty")
        && is_bit8(reg, s, "position_preserve")
        && is_bit8(reg, s, "data_dirty")
        && is_bit8(reg, s, "data_preserve")
}

/// Build the marker masks from the registry.
pub fn bk_flags(reg: &Vec<FlagEntry>) -> (flags: BkFlags)
    requires
        declares_bk_flags(reg@),
    ensures
        ({
            let s = "flags_bk"@;
            flags == (BkFlags {
                position_dirty: mask8_of(reg@, s, "position_dirty"@),
                position_preserve: mask8_of(reg@, s, "position_preserve"@),
                data_dirty: mask8_of(reg@, s, "data_dirty"@),
                data_preserve: mask8_of(reg@, s, "data_preserve"@),
            })
        }),
{
    let s: &str = "flags_bk";
    BkFlags {
        position_dirty: bit_mask8(reg, s, "position_dirty"),
        position_preserve: bit_mask8(reg, s, "position_preserve"),
        data_dirty: bit_mask8(reg, s, "data_dirty"),
        data_preserve: bit_mask8(reg, s, "data_preserve"),
    }
}

} // verus!
