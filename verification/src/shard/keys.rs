//! Writes whose rows take keys that no row uses.
use vstd::prelude::*;

use crate::shard::cards;
use crate::shard::cards::Card;
use crate::history;
use crate::packed;
use crate::shard::tables::Db;
use crate::shard::tables::Env;

verus! {

/// The next row written at `t` takes a key that no row uses.
pub open spec fn next_key_free(db: Db, t: u64) -> bool {
    t < packed::TIME_RADIX && history::key_free(
        db.cards,
        packed::valid_at_key(t, db.next_sequence),
    )
}

/// Bringing followers in step takes free keys only.
pub open spec fn followers_take_free_keys(
    e: Env,
    db: Db,
    ids: Seq<u32>,
    host_died: bool,
    macro_zone: u64,
    t: u64,
    depth: nat,
) -> bool
    decreases depth, ids.len() + 1,
{
    if ids.len() == 0 {
        true
    } else {
        let init = ids.drop_last();
        let d = cards::followers_written(e, db, init, host_died, macro_zone, t, depth);
        &&& followers_take_free_keys(e, db, init, host_died, macro_zone, t, depth)
        &&& history::prior_at(d.cards, ids.last(), t) matches Some(c) ==> write_takes_free_keys(
            e,
            d,
            cards::follower_edit(host_died, macro_zone, c),
            t,
            depth,
        )
    }
}

/// Writing a card, with every follower it moves, takes free keys only.
pub open spec fn write_takes_free_keys(e: Env, db: Db, card: Card, t: u64, depth: nat) -> bool
    decreases depth, 0nat,
{
    let prev = history::prior_at(db.cards, card.card_id, t);
    let d = cards::row_written(e, db, card, t);
    let moved = match prev {
        Some(p) => p.macro_zone != card.macro_zone,
        None => false,
    };
    let died = cards::is_dead(e, card) && match prev {
        Some(p) => !cards::is_dead(e, p),
        None => true,
    };
    &&& next_key_free(db, t)
    &&& depth == 0 || (!moved && !died) || followers_take_free_keys(
        e,
        d,
        cards::follower_ids(d.cards, d.cards, card.card_id, t),
        died,
        card.macro_zone,
        t,
        (depth - 1) as nat,
    )
}

} // verus!
