//! Creating cards on request of the gateway.
use vstd::prelude::*;

use crate::packed;
use crate::players::souls;
use crate::players::souls::SoulPrivate;
use crate::shard::cards;
use crate::shard::model::Micro;
use crate::shard::tables::Db;
use crate::shard::tables::Env;
use crate::shard::tables::Tables;
use crate::time;
use crate::time::TimeDrift;

verus! {

/// Where a new card goes: to the given zone and cell; without one, an inventory
/// card to its owner's bucket, and any other to the first cell of its surface.
pub open spec fn spawn_point(owner_id: u32, surface: u8, macro_zone: u64, q: u8, r: u8) -> (u64, Micro) {
    if macro_zone != 0 {
        (macro_zone, Micro::Loose { local_q: q, local_r: r, x: 0, y: 0 })
    } else if surface == packed::INVENTORY_LAYER {
        (
            packed::macro_zone_key(owner_id, packed::INVENTORY_LAYER, 0, 0),
            Micro::Loose { local_q: 0, local_r: 0, x: 0, y: 0 },
        )
    } else {
        (
            packed::macro_zone_key(0, surface, 0, 0),
            Micro::Loose { local_q: 0, local_r: 0, x: 0, y: 0 },
        )
    }
}

/// `db` after creating a card, with an empty private row where it is a soul.
pub open spec fn card_created(
    e: Env,
    db: Db,
    t: u64,
    owner_id: u32,
    surface: u8,
    packed_definition: u16,
    stock: u32,
    macro_zone: u64,
    q: u8,
    r: u8,
) -> Db {
    let at = spawn_point(owner_id, surface, macro_zone, q, r);
    let id = cards::next_id(db);
    let d = cards::after_write(
        e,
        cards::id_taken(db),
        cards::fresh_card(id, at.0, at.1, owner_id, packed_definition, 0, stock as u64),
        t,
    );
    if packed::card_type(packed_definition) == souls::SOUL_CARD_TYPE {
        Db {
            soul_privates: d.soul_privates.push(
                SoulPrivate {
                    card_id: id,
                    data_shard: cards::DATA_SHARD,
                    blueprints_0: 0,
                    active_blueprints: 0,
                },
            ),
            ..d
        }
    } else {
        d
    }
}

/// Create a card owned by a player or by another card. The gateway authorizes
/// its callers.
pub fn create_card(
    e: &Env,
    tb: &mut Tables,
    client_time_ms: u64,
    owner_id: u32,
    surface: u8,
    packed_definition: u16,
    stock: u32,
    macro_zone: u64,
    q: u8,
    r: u8,
) -> (done: Result<(), TimeDrift>)
    ensures
        (final(tb)@, done) == match time::resolved(
            e.now_ms,
            client_time_ms,
            cards::TIME_DRIFT_BUFFER_MS,
        ) {
            Err(drift) => (old(tb)@, Err(drift)),
            Ok(now) => (
                card_created(
                    *e,
                    old(tb)@,
                    now,
                    owner_id,
                    surface,
                    packed_definition,
                    stock,
                    macro_zone,
                    q,
                    r,
                ),
                Ok(()),
            ),
        },
{
    let now_ms: u64 = match cards::effective_now_ms(e, client_time_ms) {
        Err(drift) => {
            return Err(drift);
        },
        Ok(t) => t,
    };
    let at: (u64, Micro) = if macro_zone != 0 {
        (macro_zone, Micro::snap(q, r))
    } else if surface == packed::INVENTORY_LAYER {
        (
            packed::pack_macro_zone_full(owner_id, packed::INVENTORY_LAYER, 0, 0),
            Micro::snap(0, 0),
        )
    } else {
        (packed::pack_macro_zone_full(0, surface, 0, 0), Micro::snap(0, 0))
    };
    let card_id: u32 = cards::next_card_id(tb);
    let _ = cards::create_at(
        e,
        tb,
        card_id,
        now_ms,
        at.0,
        at.1,
        owner_id,
        packed_definition,
        0,
        stock as u64,
    );
    if souls::is_soul_card(packed_definition) {
        tb.soul_privates.push(
            SoulPrivate {
                card_id,
                data_shard: cards::DATA_SHARD,
                blueprints_0: 0,
                active_blueprints: 0,
            },
        );
    }
    Ok(())
}

} // verus!
