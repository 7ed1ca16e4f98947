//! Bit masks of the `cards.flags_state` and `cards.flags_bk` host integers,
//! built once from the flag registry.
//!
//! All hold-style state lives in `flags_bk` as refcount fields, with the idiom
//! "a lock is a +1 that is never released".
use vstd::prelude::*;

use crate::registry;
use crate::registry::FlagEntry;

verus! {

/// Masks of the `cards_state` section.
#[derive(Clone, Copy, Debug, PartialEq, Eq, Structural)]
pub struct StateFlags {
    pub dead: u32,
    /// The server requires the row's position exactly.
    pub pos_need: u32,
    pub magnetic: u32,
    pub surface_locked: u32,
    pub is_owned_by_player: u32,
    pub progress_style_mask: u32,
    pub progress_style_shift: u32,
    pub portrait_id_mask: u32,
    pub portrait_id_shift: u32,
    /// The server prefers the row's position.
    pub pos_want: u32,
    /// The card was materialized from zone tile data.
    pub zone_born: u32,
}

/// Masks of the `cards_bk` section: dirty and preserve markers, refcount
/// fields, tile stock, and the stacking bits.
#[derive(Clone, Copy, Debug, PartialEq, Eq, Structural)]
pub struct BkFlags {
    pub position_dirty: u32,
    pub position_preserve: u32,
    pub data_dirty: u32,
    pub data_preserve: u32,
    pub position_hold_count_mask: u32,
    pub position_hold_count_shift: u32,
    pub position_hold_count_max: u32,
    pub slot_share_count_mask: u32,
    pub slot_share_count_shift: u32,
    pub slot_share_count_max: u32,
    pub drop_hold_count_mask: u32,
    pub drop_hold_count_shift: u32,
    pub drop_hold_count_max: u32,
    pub slot_hold_count_mask: u32,
    pub slot_hold_count_shift: u32,
    pub slot_hold_count_max: u32,
    pub touch_count_mask: u32,
    pub touch_count_shift: u32,
    pub touch_count_max: u32,
    pub server_count_mask: u32,
    pub server_count_shift: u32,
    pub server_count_max: u32,
    pub tile_stock_0_mask: u32,
    pub tile_stock_0_shift: u32,
    pub tile_stock_0_max: u32,
    pub tile_stock_1_mask: u32,
    pub tile_stock_1_shift: u32,
    pub tile_stock_1_max: u32,
    /// Discriminates `micro_location`: set means a root card id.
    pub micro_is_card: u32,
    pub stack_state_mask: u32,
    pub stack_state_shift: u32,
    pub stack_state_max: u32,
    pub stack_index_mask: u32,
    pub stack_index_shift: u32,
    pub stack_index_max: u32,
}

/// Concurrency cap on `touch_count`: an action that targets a card at the cap
/// is rejected.
pub const TOUCH_COUNT_CLIENT_CAP: u32 = 3;

/// Concurrency cap on `server_count`.
pub const SERVER_COUNT_CAP: u32 = 3;

/// The registry declares every flag that [`state_flags`] reads.
pub open spec fn declares_state_flags(reg: Seq<FlagEntry>) -> bool {
    let s = "cards_state"@;
    &&& registry::has_bit(reg, s, "dead"@)
    &&& registry::has_bit(reg, s, "pos_need"@)
    &&& registry::has_bit(reg, s, "magnetic"@)
    &&& registry::has_bit(reg, s, "surface_locked"@)
    &&& registry::has_bit(reg, s, "is_owned_by_player"@)
    &&& registry::has_field(reg, s, "progress_style"@)
    &&& registry::has_field(reg, s, "portrait_id"@)
    &&& registry::has_bit(reg, s, "pos_want"@)
    &&& registry::has_bit(reg, s, "zone_born"@)
}

/// Test whether the registry declares every flag that [`state_flags`] reads.
pub fn has_state_flags(reg: &Vec<FlagEntry>) -> (ok: bool)
    ensures
        ok == declares_state_flags(reg@),
{
    let s: &str = "cards_state";
    registry::is_bit(reg, s, "dead")
        && registry::is_bit(reg, s, "pos_need")
        && registry::is_bit(reg, s, "magnetic")
        && registry::is_bit(reg, s, "surface_locked")
        && registry::is_bit(reg, s, "is_owned_by_player")
        && registry::is_field(reg, s, "progress_style")
        && registry::is_field(reg, s, "portrait_id")
        && registry::is_bit(reg, s, "pos_want")
        && registry::is_bit(reg, s, "zone_born")
}

/// Build the `cards_state` masks from the registry.
pub fn state_flags(reg: &Vec<FlagEntry>) -> (flags: StateFlags)
    requires
        declares_state_flags(reg@),
    ensures
        ({
            let s = "cards_state"@;
            flags == (StateFlags {
                dead: registry::mask_of(reg@, s, "dead"@),
                pos_need: registry::mask_of(reg@, s, "pos_need"@),
                magnetic: registry::mask_of(reg@, s, "magnetic"@),
                surface_locked: registry::mask_of(reg@, s, "surface_locked"@),
                is_owned_by_player: registry::mask_of(reg@, s, "is_owned_by_player"@),
                progress_style_mask: registry::parts_of(reg@, s, "progress_style"@).0,
                progress_style_shift: registry::parts_of(reg@, s, "progress_style"@).1,
                portrait_id_mask: registry::parts_of(reg@, s, "portrait_id"@).0,
                portrait_id_shift: registry::parts_of(reg@, s, "portrait_id"@).1,
                pos_want: registry::mask_of(reg@, s, "pos_want"@),
                zone_born: registry::mask_of(reg@, s, "zone_born"@),
            })
        }),
{
    let s: &str = "cards_state";
    let progress_style: (u32, u32, u32) = registry::field_parts(reg, s, "progress_style");
    let portrait: (u32, u32, u32) = registry::field_parts(reg, s, "portrait_id");
    StateFlags {
        dead: registry::bit_mask(reg, s, "dead"),
        pos_need: registry::bit_mask(reg, s, "pos_need"),
        magnetic: registry::bit_mask(reg, s, "magnetic"),
        surface_locked: registry::bit_mask(reg, s, "surface_locked"),
        is_owned_by_player: registry::bit_mask(reg, s, "is_owned_by_player"),
        progress_style_mask: progress_style.0,
        progress_style_shift: progress_style.1,
        portrait_id_mask: portrait.0,
        portrait_id_shift: portrait.1,
        pos_want: registry::bit_mask(reg, s, "pos_want"),
        zone_born: registry::bit_mask(reg, s, "zone_born"),
    }
}

/// The registry declares every flag that [`bk_flags`] reads.
pub open spec fn declares_bk_flags(reg: Seq<FlagEntry>) -> bool {
    let s = "cards_bk"@;
    &&& registry::has_bit(reg, s, "position_dirty"@)
    &&& registry::has_bit(reg, s, "position_preserve"@)
    &&& registry::has_bit(reg, s, "data_dirty"@)
    &&& registry::has_bit(reg, s, "data_preserve"@)
    &&& registry::has_bit(reg, s, "micro_is_card"@)
    &&& registry::has_field(reg, s, "position_hold_count"@)
    &&& registry::has_field(reg, s, "slot_share_count"@)
    &&& registry::has_field(reg, s, "drop_hold_count"@)
    &&& registry::has_field(reg, s, "slot_hold_count"@)
    &&& registry::has_field(reg, s, "touch_count"@)
    &&& registry::has_field(reg, s, "server_count"@)
    &&& registry::has_field(reg, s, "tile_stock_0"@)
    &&& registry::has_field(reg, s, "tile_stock_1"@)
    &&& registry::has_field(reg, s, "stack_state"@)
    &&& registry::has_field(reg, s, "stack_index"@)
}

/// Test whether the registry declares every flag that [`bk_flags`] reads.
pub fn has_bk_flags(reg: &Vec<FlagEntry>) -> (ok: bool)
    ensures
        ok == declares_bk_flags(reg@),
{
    let s: &str = "cards_bk";
    registry::is_bit(reg, s, "position_dirty")
        && registry::is_bit(reg, s, "position_preserve")
        && registry::is_bit(reg, s, "data_dirty")
        && registry::is_bit(reg, s, "data_preserve")
        && registry::is_bit(reg, s, "micro_is_card")
        && registry::is_field(reg, s, "position_hold_count")
        && registry::is_field(reg, s, "slot_share_count")
        && registry::is_field(reg, s, "drop_hold_count")
        && registry::is_field(reg, s, "slot_hold_count")
        && registry::is_field(reg, s, "touch_count")
        && registry::is_field(reg, s, "server_count")
        && registry::is_field(reg, s, "tile_stock_0")
        && registry::is_field(reg, s, "tile_stock_1")
        && registry::is_field(reg, s, "stack_state")
        && registry::is_field(reg, s, "stack_index")
}

/// Build the `cards_bk` masks from the registry.
pub fn bk_flags(reg: &Vec<FlagEntry>) -> (flags: BkFlags)
    requires
        declares_bk_flags(reg@),
    ensures
        ({
            let s = "cards_bk"@;
            flags == (BkFlags {
                position_dirty: registry::mask_of(reg@, s, "position_dirty"@),
                position_preserve: registry::mask_of(reg@, s, "position_preserve"@),
                data_dirty: registry::mask_of(reg@, s, "data_dirty"@),
                data_preserve: registry::mask_of(reg@, s, "data_preserve"@),
                position_hold_count_mask: registry::parts_of(reg@, s, "position_hold_count"@).0,
                position_hold_count_shift: registry::parts_of(reg@, s, "position_hold_count"@).1,
                position_hold_count_max: registry::parts_of(reg@, s, "position_hold_count"@).2,
                slot_share_count_mask: registry::parts_of(reg@, s, "slot_share_count"@).0,
                slot_share_count_shift: registry::parts_of(reg@, s, "slot_share_count"@).1,
                slot_share_count_max: registry::parts_of(reg@, s, "slot_share_count"@).2,
                drop_hold_count_mask: registry::parts_of(reg@, s, "drop_hold_count"@).0,
                drop_hold_count_shift: registry::parts_of(reg@, s, "drop_hold_count"@).1,
                drop_hold_count_max: registry::parts_of(reg@, s, "drop_hold_count"@).2,
                slot_hold_count_mask: registry::parts_of(reg@, s, "slot_hold_count"@).0,
                slot_hold_count_shift: registry::parts_of(reg@, s, "slot_hold_count"@).1,
                slot_hold_count_max: registry::parts_of(reg@, s, "slot_hold_count"@).2,
                touch_count_mask: registry::parts_of(reg@, s, "touch_count"@).0,
                touch_count_shift: registry::parts_of(reg@, s, "touch_count"@).1,
                touch_count_max: registry::parts_of(reg@, s, "touch_count"@).2,
                server_count_mask: registry::parts_of(reg@, s, "server_count"@).0,
                server_count_shift: registry::parts_of(reg@, s, "server_count"@).1,
                server_count_max: registry::parts_of(reg@, s, "server_count"@).2,
                tile_stock_0_mask: registry::parts_of(reg@, s, "tile_stock_0"@).0,
                tile_stock_0_shift: registry::parts_of(reg@, s, "tile_stock_0"@).1,
                tile_stock_0_max: registry::parts_of(reg@, s, "tile_stock_0"@).2,
                tile_stock_1_mask: registry::parts_of(reg@, s, "tile_stock_1"@).0,
                tile_stock_1_shift: registry::parts_of(reg@, s, "tile_stock_1"@).1,
                tile_stock_1_max: registry::parts_of(reg@, s, "tile_stock_1"@).2,
                micro_is_card: registry::mask_of(reg@, s, "micro_is_card"@),
                stack_state_mask: registry::parts_of(reg@, s, "stack_state"@).0,
                stack_state_shift: registry::parts_of(reg@, s, "stack_state"@).1,
                stack_state_max: registry::parts_of(reg@, s, "stack_state"@).2,
                stack_index_mask: registry::parts_of(reg@, s, "stack_index"@).0,
                stack_index_shift: registry::parts_of(reg@, s, "stack_index"@).1,
                stack_index_max: registry::parts_of(reg@, s, "stack_index"@).2,
            })
        }),
{
    let s: &str = "cards_bk";
    let position_hold_count: (u32, u32, u32) = registry::field_parts(reg, s, "position_hold_count");
    let slot_share_count: (u32, u32, u32) = registry::field_parts(reg, s, "slot_share_count");
    let drop_hold_count: (u32, u32, u32) = registry::field_parts(reg, s, "drop_hold_count");
    let slot_hold_count: (u32, u32, u32) = registry::field_parts(reg, s, "slot_hold_count");
    let touch_count: (u32, u32, u32) = registry::field_parts(reg, s, "touch_count");
    let server_count: (u32, u32, u32) = registry::field_parts(reg, s, "server_count");
    let tile_stock_0: (u32, u32, u32) = registry::field_parts(reg, s, "tile_stock_0");
    let tile_stock_1: (u32, u32, u32) = registry::field_parts(reg, s, "tile_stock_1");
    let stack_state: (u32, u32, u32) = registry::field_parts(reg, s, "stack_state");
    let stack_index: (u32, u32, u32) = registry::field_parts(reg, s, "stack_index");
    BkFlags {
        position_dirty: registry::bit_mask(reg, s, "position_dirty"),
        position_preserve: registry::bit_mask(reg, s, "position_preserve"),
        data_dirty: registry::bit_mask(reg, s, "data_dirty"),
        data_preserve: registry::bit_mask(reg, s, "data_preserve"),
        position_hold_count_mask: position_hold_count.0,
        position_hold_count_shift: position_hold_count.1,
        position_hold_count_max: position_hold_count.2,
        slot_share_count_mask: slot_share_count.0,
        slot_share_count_shift: slot_share_count.1,
        slot_share_count_max: slot_share_count.2,
        drop_hold_count_mask: drop_hold_count.0,
        drop_hold_count_shift: drop_hold_count.1,
        drop_hold_count_max: drop_hold_count.2,
        slot_hold_count_mask: slot_hold_count.0,
        slot_hold_count_shift: slot_hold_count.1,
        slot_hold_count_max: slot_hold_count.2,
        touch_count_mask: touch_count.0,
        touch_count_shift: touch_count.1,
        touch_count_max: touch_count.2,
        server_count_mask: server_count.0,
        server_count_shift: server_count.1,
        server_count_max: server_count.2,
        tile_stock_0_mask: tile_stock_0.0,
        tile_stock_0_shift: tile_stock_0.1,
        tile_stock_0_max: tile_stock_0.2,
        tile_stock_1_mask: tile_stock_1.0,
        tile_stock_1_shift: tile_stock_1.1,
        tile_stock_1_max: tile_stock_1.2,
        micro_is_card: registry::bit_mask(reg, s, "micro_is_card"),
        stack_state_mask: stack_state.0,
        stack_state_shift: stack_state.1,
        stack_state_max: stack_state.2,
        stack_index_mask: stack_index.0,
        stack_index_shift: stack_index.1,
        stack_index_max: stack_index.2,
    }
}

} // verus!
