//! Writes to player records that the gateway requests. The gateway authorizes
//! its callers.
use vstd::prelude::*;

use crate::players::players;
use crate::players::players::PlayerError;
use crate::tables::Tables;

verus! {

/// Set a player's faction at `time_ms`.
pub fn set_player_faction(tb: &mut Tables, player_id: u32, time_ms: u64, faction: u8) -> (r: Result<
    (),
    PlayerError,
>)
    ensures
        (final(tb)@, r) == players::faction_set(old(tb)@, player_id, time_ms, faction),
{
    players::set_faction(tb, player_id, time_ms, faction)
}

} // verus!
