//! Soul spawning and card grants on behalf of the gateway.
use vstd::prelude::*;

use crate::cards::cards;
use crate::cards::cards::Card;
use crate::cards::env::Env;
use crate::cards::micro::Micro;
use crate::content;
use crate::history;
use crate::packed;
use crate::players::players;
use crate::players::souls;
use crate::tables;
use crate::tables::Db;
use crate::tables::Tables;
use crate::time;
use crate::time::TimeDrift;

verus! {

/// Player souls that a player may hold.
pub const MAX_PLAYER_SOULS: usize = 1;

/// Why a grant was rejected.
#[derive(Clone, Copy, Debug, PartialEq, Eq, Structural)]
pub enum GrantError {
    Time(TimeDrift),
    /// The soul is unknown, or the world owns it.
    NoPlayer { soul_card_id: u32 },
    /// The catalog has no card of this name.
    UnknownCard,
}

/// The outcome of spawning a player's starter souls. A player who already holds
/// the maximum is left alone.
pub open spec fn souls_spawned(
    e: Env,
    db: Db,
    client_time_ms: u64,
    player_id: u32,
    soul_packed: u16,
    human_packed: u16,
    loadout: Seq<u16>,
) -> (Db, Result<(), GrantError>) {
    if cards::player_souls(e, db.cards, db.cards, player_id).len() >= MAX_PLAYER_SOULS {
        (db, Ok(()))
    } else {
        match time::resolved(e.now_ms, client_time_ms, cards::TIME_DRIFT_BUFFER_MS) {
            Err(d) => (db, Err(GrantError::Time(d))),
            Ok(t) => (
                players::starter_set(e, db, player_id, t, soul_packed, human_packed, loadout),
                Ok(()),
            ),
        }
    }
}

/// Spawn a player soul, a world-facing human and a loadout in its inventory.
/// Idempotent per player up to [`MAX_PLAYER_SOULS`].
pub fn spawn_soul(
    e: &Env,
    tb: &mut Tables,
    client_time_ms: u64,
    player_id: u32,
    soul_packed: u16,
    human_packed: u16,
    loadout_packed: &Vec<u16>,
) -> (r: Result<(), GrantError>)
    requires
        e.wf(),
    ensures
        (final(tb)@, r) == souls_spawned(
            *e,
            old(tb)@,
            client_time_ms,
            player_id,
            soul_packed,
            human_packed,
            loadout_packed@,
        ),
{
    if cards::count_player_souls(e, tb, player_id) >= MAX_PLAYER_SOULS {
        return Ok(());
    }
    match cards::effective_now_ms(e, client_time_ms) {
        Err(d) => Err(GrantError::Time(d)),
        Ok(t) => {
            players::give_starter_set(
                e,
                tb,
                player_id,
                t,
                soul_packed,
                human_packed,
                loadout_packed,
            );
            Ok(())
        },
    }
}

/// The card is owned, in the end, by a player.
pub open spec fn has_player(e: Env, db: Db, card_id: u32) -> bool {
    match cards::player_of(e, db, card_id) {
        Some(p) => p != cards::WORLD_PLAYER_ID,
        None => false,
    }
}

/// The outcome of adding a card to a soul's inventory.
pub open spec fn card_added(e: Env, db: Db, client_time_ms: u64, soul_card_id: u32, def: u16) -> (
    Db,
    Result<(), GrantError>,
) {
    match time::resolved(e.now_ms, client_time_ms, cards::TIME_DRIFT_BUFFER_MS) {
        Err(d) => (db, Err(GrantError::Time(d))),
        Ok(t) => if !has_player(e, db, soul_card_id) {
            (db, Err(GrantError::NoPlayer { soul_card_id }))
        } else {
            (
                cards::after_write(
                    e,
                    cards::id_taken(db),
                    cards::fresh_card(
                        e,
                        cards::next_id(db),
                        packed::macro_zone_key(soul_card_id, packed::INVENTORY_LAYER, 0, 0),
                        Micro::Loose { local_q: 0, local_r: 0, x: 0, y: 0, kind: e.loose_rect },
                        soul_card_id,
                        def,
                        0,
                        0,
                    ),
                    t,
                ),
                Ok(()),
            )
        },
    }
}

/// Add a card to the inventory bucket of a player's soul, on its rectangular grid.
pub fn add_card(
    e: &Env,
    tb: &mut Tables,
    client_time_ms: u64,
    soul_card_id: u32,
    packed_definition: u16,
) -> (r: Result<(), GrantError>)
    requires
        e.wf(),
    ensures
        (final(tb)@, r) == card_added(
            *e,
            old(tb)@,
            client_time_ms,
            soul_card_id,
            packed_definition,
        ),
{
    let t: u64 = match cards::effective_now_ms(e, client_time_ms) {
        Err(d) => {
            return Err(GrantError::Time(d));
        },
        Ok(t) => t,
    };
    let owned: bool = match cards::owning_player(e, tb, soul_card_id) {
        Some(p) => p != cards::WORLD_PLAYER_ID,
        None => false,
    };
    if !owned {
        return Err(GrantError::NoPlayer { soul_card_id });
    }
    let card_id: u32 = cards::next_card_id(tb);
    let _ = cards::create_at(
        e,
        tb,
        card_id,
        t,
        packed::pack_macro_zone_full(soul_card_id, packed::INVENTORY_LAYER, 0, 0),
        Micro::snap(0, 0, e.loose_rect),
        soul_card_id,
        packed_definition,
        0,
        0,
    );
    Ok(())
}

/// Add a card, named by its catalog key, to the inventory of a player's soul.
pub fn add_card_by_key(
    e: &Env,
    tb: &mut Tables,
    client_time_ms: u64,
    soul_card_id: u32,
    card_key: &String,
) -> (r: Result<(), GrantError>)
    requires
        e.wf(),
    ensures
        (final(tb)@, r) == match time::resolved(
            e.now_ms,
            client_time_ms,
            cards::TIME_DRIFT_BUFFER_MS,
        ) {
            Err(d) => (old(tb)@, Err::<(), GrantError>(GrantError::Time(d))),
            Ok(_) => match content::packed_by_key(e.catalog.definitions@, card_key@) {
                None => (old(tb)@, Err(GrantError::UnknownCard)),
                Some(def) => card_added(*e, old(tb)@, client_time_ms, soul_card_id, def),
            },
        },
{
    match cards::effective_now_ms(e, client_time_ms) {
        Err(d) => {
            return Err(GrantError::Time(d));
        },
        Ok(_) => {},
    }
    match e.catalog.find_packed_by_key(card_key) {
        None => Err(GrantError::UnknownCard),
        Some(def) => add_card(e, tb, client_time_ms, soul_card_id, def),
    }
}

// ---- repeated spawning ---------------------------------------------
/// The write sequence after `n` writes.
pub open spec fn stepped_by(seq: u16, n: int) -> u16 {
    ((seq + n) % 0x1_0000) as u16
}

/// Every card of the table has an id that was allocated before.
pub open spec fn ids_below(db: Db) -> bool {
    forall|i: int|
        0 <= i < db.cards.len() ==> packed::card_local((#[trigger] db.cards[i]).card_id)
            < cards::next_local(db)
}

/// `r` is in the table, and the only row of its card.
pub open spec fn sole_row(rows: Seq<Card>, r: Card) -> bool {
    &&& rows.contains(r)
    &&& forall|i: int|
        0 <= i < rows.len() && (#[trigger] rows[i]).card_id == r.card_id ==> rows[i] == r
}

proof fn lemma_steps_add(seq: u16, a: int, b: int)
    requires
        0 <= a,
        0 <= b,
    ensures
        stepped_by(stepped_by(seq, a), b) == stepped_by(seq, a + b),
        tables::sequence_after(seq) == stepped_by(seq, 1),
        stepped_by(seq, 0) == seq,
{
    assert(((seq + a) % 0x1_0000 + b) % 0x1_0000 == (seq + (a + b)) % 0x1_0000);
}

/// Following the first row of a card takes at most two values of the sequence.
proof fn lemma_follow_steps(e: Env, db: Db, card: Card, t: u64) -> (n: int)
    ensures
        0 <= n <= 2,
        souls::card_write_followed(e, db, None, card, t).next_sequence == stepped_by(
            db.next_sequence,
            n,
        ),
{
    let d1 = souls::blueprint_shift(db, None, souls::blueprint_contribution(e, db, card));
    let d2 = souls::soul_mirrored(d1, card, t);
    let d3 = souls::card_write_followed(e, db, None, card, t);
    let a: int = if packed::card_type(card.packed_definition) != souls::SOUL_CARD_TYPE {
        0
    } else {
        1
    };
    let b: int = if d3.next_sequence == d2.next_sequence {
        0
    } else {
        1
    };
    lemma_steps_add(db.next_sequence, 0, 0);
    lemma_steps_add(d2.next_sequence, 0, 0);
    lemma_steps_add(db.next_sequence, a, b);
    assert(d1.next_sequence == db.next_sequence);
    assert(d2.next_sequence == stepped_by(db.next_sequence, a));
    assert(d3.next_sequence == stepped_by(d2.next_sequence, b));
    a + b
}

/// What creating a card does to the table: one row, under the next id and key.
proof fn lemma_spawned(
    e: Env,
    db: Db,
    t: u64,
    macro_zone: u64,
    surface: u8,
    owner_id: u32,
    def: u16,
    flags_state: u32,
) -> (out: (Card, int))
    requires
        ids_below(db),
        cards::next_local(db) < packed::CARD_LOCAL_MASK,
        (flags_state | cards::definition_flags(e, def)) & e.state.dead == 0,
    ensures
        ({
            let d = players::spawned(e, db, t, macro_zone, surface, owner_id, def, flags_state);
            let row = out.0;
            &&& 1 <= out.1 <= 3
            &&& d.next_sequence == stepped_by(db.next_sequence, out.1)
            &&& d.cards == history::stored(db.cards, row, t)
            &&& row.card_id == cards::next_id(db)
            &&& row.owner_id == owner_id
            &&& row.flags_state == flags_state | cards::definition_flags(e, def)
            &&& row.valid_at == packed::valid_at_key(t, db.next_sequence)
            &&& cards::next_local(d) == cards::next_local(db) + 1
            &&& ids_below(d)
        }),
{
    let d = players::spawned(e, db, t, macro_zone, surface, owner_id, def, flags_state);
    let id = cards::next_id(db);
    let before = cards::id_taken(db);
    let card = cards::fresh_card(
        e,
        id,
        macro_zone,
        Micro::Loose {
            local_q: 0,
            local_r: 0,
            x: 0,
            y: 0,
            kind: e.loose_kinds@[surface as int],
        },
        owner_id,
        def,
        flags_state,
        0,
    );
    packed::card_id_round_trip(packed::CARD_DB_CARDS, cards::DATA_SHARD, cards::next_local(db));
    history::prior_at_is_greatest(db.cards, id, t);
    if let Some(r) = history::prior_at(db.cards, id, t) {
        let k = choose|k: int| 0 <= k < db.cards.len() && db.cards[k] == r;
        assert(packed::card_local(db.cards[k].card_id) < cards::next_local(db));
    }
    assert(history::prior_at(before.cards, id, t) is None);
    let row = cards::stamped(e, before, card, t);
    let d1 = Db {
        cards: history::stored(before.cards, row, t),
        next_sequence: tables::sequence_after(before.next_sequence),
        ..before
    };
    let n = lemma_follow_steps(e, d1, row, t);
    assert(d == cards::row_written(e, before, card, t));
    lemma_steps_add(db.next_sequence, 1, n);
    history::stored_members(db.cards, row, t);
    assert forall|i: int| 0 <= i < d.cards.len() implies packed::card_local(
        (#[trigger] d.cards[i]).card_id,
    ) < cards::next_local(d) by {
        assert(d.cards.contains(d.cards[i]));
        if d.cards[i] != row {
            let k = choose|k: int| 0 <= k < db.cards.len() && db.cards[k] == d.cards[i];
            assert(packed::card_local(db.cards[k].card_id) < cards::next_local(db));
        }
    }
    (row, n + 1)
}

/// The only row of a card survives the creation of another card, as long as the
/// sequence has not come round to its key.
proof fn lemma_row_survives(rows: Seq<Card>, r: Card, row: Card, t: u64)
    requires
        sole_row(rows, r),
        row.card_id != r.card_id,
        row.valid_at != r.valid_at,
    ensures
        sole_row(history::stored(rows, row, t), r),
{
    let out = history::stored(rows, row, t);
    history::stored_members(rows, row, t);
    assert forall|i: int| 0 <= i < out.len() && (#[trigger] out[i]).card_id == r.card_id implies out[i]
        == r by {
        assert(out.contains(out[i]));
        let k = choose|k: int| 0 <= k < rows.len() && rows[k] == out[i];
        assert(rows[k].card_id == r.card_id);
    }
}

proof fn lemma_filling(
    e: Env,
    db: Db,
    holder: u32,
    t: u64,
    loadout: Seq<u16>,
    r: Card,
    seq: u16,
    n: int,
) -> (m: int)
    requires
        t < packed::TIME_RADIX,
        sole_row(db.cards, r),
        r.valid_at == packed::valid_at_key(t, seq),
        packed::card_local(r.card_id) < cards::next_local(db),
        ids_below(db),
        db.next_sequence == stepped_by(seq, n),
        1 <= n,
        n + 3 * loadout.len() < 0x1_0000,
        cards::next_local(db) + loadout.len() <= packed::CARD_LOCAL_MASK,
        forall|i: int|
            0 <= i < loadout.len() ==> cards::definition_flags(e, #[trigger] loadout[i])
                & e.state.dead == 0,
    ensures
        n <= m <= n + 3 * loadout.len(),
        ({
            let d = players::inventory_filled(e, db, holder, t, loadout);
            &&& sole_row(d.cards, r)
            &&& ids_below(d)
            &&& d.next_sequence == stepped_by(seq, m)
            &&& cards::next_local(d) == cards::next_local(db) + loadout.len()
        }),
    decreases loadout.len(),
{
    if loadout.len() == 0 {
        n
    } else {
        let init = loadout.drop_last();
        assert forall|i: int| 0 <= i < init.len() implies cards::definition_flags(
            e,
            #[trigger] init[i],
        ) & e.state.dead == 0 by {
            assert(init[i] == loadout[i]);
        }
        let k = lemma_filling(e, db, holder, t, init, r, seq, n);
        let d = players::inventory_filled(e, db, holder, t, init);
        let def = loadout.last();
        assert(loadout[loadout.len() - 1] == def);
        lemma_no_flags(cards::definition_flags(e, def));
        let (row, step) = lemma_spawned(
            e,
            d,
            t,
            packed::macro_zone_key(holder, packed::INVENTORY_LAYER, 0, 0),
            packed::INVENTORY_LAYER,
            holder,
            def,
            0,
        );
        lemma_keys_differ(t, seq, k);
        packed::card_id_round_trip(packed::CARD_DB_CARDS, cards::DATA_SHARD, cards::next_local(d));
        lemma_row_survives(d.cards, r, row, t);
        lemma_steps_add(seq, k, step);
        k + step
    }
}

/// No flags add nothing.
pub proof fn lemma_no_flags(x: u32)
    by (bit_vector)
    ensures
        0u32 | x == x,
{
}

/// Less than one round of the sequence gives another key.
proof fn lemma_keys_differ(t: u64, seq: u16, n: int)
    requires
        t < packed::TIME_RADIX,
        1 <= n < 0x1_0000,
    ensures
        packed::valid_at_key(t, stepped_by(seq, n)) != packed::valid_at_key(t, seq),
{
    packed::valid_at_round_trip(t, seq);
    packed::valid_at_round_trip(t, stepped_by(seq, n));
    assert((seq + n) % 0x1_0000 != seq);
}

/// A card of the table that is a live soul of the player is counted.
proof fn lemma_counted(e: Env, rows: Seq<Card>, prefix: Seq<Card>, r: Card, player_id: u32)
    requires
        prefix.contains(r),
        cards::is_players_soul(e, rows, r.card_id, player_id),
    ensures
        cards::player_souls(e, rows, prefix, player_id).contains(r.card_id),
    decreases prefix.len(),
{
    let init = prefix.drop_last();
    let before = cards::player_souls(e, rows, init, player_id);
    let all = cards::player_souls(e, rows, prefix, player_id);
    if prefix.last() == r {
        if !before.contains(r.card_id) {
            assert(all[before.len() as int] == r.card_id);
        }
    } else {
        let k = choose|k: int| 0 <= k < prefix.len() && prefix[k] == r;
        assert(init[k] == r);
        lemma_counted(e, rows, init, r, player_id);
        let j = choose|j: int| 0 <= j < before.len() && before[j] == r.card_id;
        assert(all[j] == r.card_id);
    }
}

/// The flags that mark a live soul of a player: one bit each, apart from one
/// another and from the portrait.
pub open spec fn soul_flags_apart(e: Env) -> bool {
    &&& e.state.is_owned_by_player != 0
    &&& e.state.is_owned_by_player < 0x1000_0000
    &&& e.state.dead < 0x1000_0000
    &&& e.state.is_owned_by_player & e.state.dead == 0
}

/// A portrait leaves a soul's mark in place, and kills nobody.
pub proof fn lemma_portrayed_flags(owned: u32, dead: u32, portrait: u8, flags: u32)
    requires
        owned != 0,
        owned < 0x1000_0000,
        dead < 0x1000_0000,
        owned & dead == 0,
        flags & dead == 0,
    ensures
        (souls::portrayed(owned, portrait) | flags) & owned != 0,
        (souls::portrayed(owned, portrait) | flags) & dead == 0,
        (souls::portrayed(0, portrait) | flags) & dead == 0,
{
    let high = ((portrait % 16) * 0x1000_0000) as u32;
    assert(souls::portrayed(owned, portrait) == owned + high);
    assert(souls::portrayed(0, portrait) == high);
    let p = (portrait % 16) as u32;
    assert(high == p * 0x1000_0000);
    lemma_high_bits(owned, dead, p, (owned + high) as u32, high, flags);
}

proof fn lemma_high_bits(owned: u32, dead: u32, p: u32, both: u32, high: u32, flags: u32)
    by (bit_vector)
    requires
        p < 16,
        high == p * 0x1000_0000,
        both == owned + high,
        owned != 0,
        owned < 0x1000_0000,
        dead < 0x1000_0000,
        owned & dead == 0,
        flags & dead == 0,
    ensures
        (both | flags) & owned != 0,
        (both | flags) & dead == 0,
        (high | flags) & dead == 0,
{
}

/// After one spawn the player has a soul, and a second spawn changes nothing,
/// whenever it comes and whatever it asks for. The write sequence and the ids have
/// room for the starter set, and no definition of it is born dead.
pub proof fn second_spawn_changes_nothing(
    e: Env,
    db: Db,
    client_time_ms: u64,
    player_id: u32,
    soul_packed: u16,
    human_packed: u16,
    loadout: Seq<u16>,
    later: Env,
    later_time_ms: u64,
    later_soul: u16,
    later_human: u16,
    later_loadout: Seq<u16>,
)
    requires
        e.now_ms < packed::TIME_RADIX,
        later.state == e.state,
        souls_spawned(e, db, client_time_ms, player_id, soul_packed, human_packed, loadout).1 is Ok,
        ids_below(db),
        cards::next_local(db) + loadout.len() + 2 <= packed::CARD_LOCAL_MASK,
        3 * (loadout.len() + 2) < 0x1_0000,
        soul_flags_apart(e),
        cards::definition_flags(e, soul_packed) & e.state.dead == 0,
        cards::definition_flags(e, human_packed) & e.state.dead == 0,
        forall|i: int|
            0 <= i < loadout.len() ==> cards::definition_flags(e, #[trigger] loadout[i])
                & e.state.dead == 0,
    ensures
        ({
            let first = souls_spawned(
                e,
                db,
                client_time_ms,
                player_id,
                soul_packed,
                human_packed,
                loadout,
            ).0;
            souls_spawned(
                later,
                first,
                later_time_ms,
                player_id,
                later_soul,
                later_human,
                later_loadout,
            ) == (first, Ok::<(), GrantError>(()))
        }),
{
    let first = souls_spawned(
        e,
        db,
        client_time_ms,
        player_id,
        soul_packed,
        human_packed,
        loadout,
    ).0;
    lemma_same_souls(e, later, first.cards, first.cards, player_id);
    if cards::player_souls(e, db.cards, db.cards, player_id).len() < MAX_PLAYER_SOULS {
        let t = time::resolved(e.now_ms, client_time_ms, cards::TIME_DRIFT_BUFFER_MS)->Ok_0;
        assert(t <= e.now_ms);
        let id = cards::next_id(db);
        let portrait = players::portrait_pick(t, player_id, id);
        let owned = e.state.is_owned_by_player;
        lemma_portrayed_flags(
            owned,
            e.state.dead,
            portrait,
            cards::definition_flags(e, soul_packed),
        );
        let (r, a) = lemma_spawned(
            e,
            db,
            t,
            packed::on_surface(packed::macro_zone_key(0, 0, 0, 0), players::PLAYER_SOUL_SURFACE),
            players::PLAYER_SOUL_SURFACE,
            player_id,
            soul_packed,
            souls::portrayed(owned, portrait),
        );
        let d1 = players::soul_spawned(
            e,
            db,
            t,
            packed::on_surface(packed::macro_zone_key(0, 0, 0, 0), players::PLAYER_SOUL_SURFACE),
            players::PLAYER_SOUL_SURFACE,
            player_id,
            player_id,
            soul_packed,
            owned,
        );
        packed::card_id_round_trip(packed::CARD_DB_CARDS, cards::DATA_SHARD, cards::next_local(db));
        packed::valid_at_round_trip(t, db.next_sequence);
        history::stored_members(db.cards, r, t);
        assert(d1.cards.contains(r));
        assert forall|i: int|
            0 <= i < d1.cards.len() && (#[trigger] d1.cards[i]).card_id
                == r.card_id implies d1.cards[i] == r by {
            assert(d1.cards.contains(d1.cards[i]));
            if d1.cards[i] != r {
                let k = choose|k: int| 0 <= k < db.cards.len() && db.cards[k] == d1.cards[i];
                assert(packed::card_local(db.cards[k].card_id) < cards::next_local(db));
            }
        }
        assert(sole_row(d1.cards, r));
        let human_id = cards::next_id(d1);
        let face = players::portrait_pick(t, player_id, human_id);
        lemma_portrayed_flags(
            owned,
            e.state.dead,
            face,
            cards::definition_flags(e, human_packed),
        );
        let (h, b) = lemma_spawned(
            e,
            d1,
            t,
            packed::macro_zone_key(0, packed::WORLD_LAYER, 0, 0),
            packed::WORLD_LAYER,
            id,
            human_packed,
            souls::portrayed(0, face),
        );
        let d2 = players::soul_spawned(
            e,
            d1,
            t,
            packed::macro_zone_key(0, packed::WORLD_LAYER, 0, 0),
            packed::WORLD_LAYER,
            id,
            player_id,
            human_packed,
            0,
        );
        lemma_keys_differ(t, db.next_sequence, a);
        packed::card_id_round_trip(packed::CARD_DB_CARDS, cards::DATA_SHARD, cards::next_local(d1));
        lemma_row_survives(d1.cards, r, h, t);
        lemma_steps_add(db.next_sequence, a, b);
        let m = lemma_filling(e, d2, human_id, t, loadout, r, db.next_sequence, a + b);
        assert(first == players::inventory_filled(e, d2, human_id, t, loadout));
        history::prior_at_is_greatest(first.cards, r.card_id, u64::MAX);
        let k = choose|k: int| 0 <= k < first.cards.len() && first.cards[k] == r;
        assert(history::covers(first.cards[k], r.card_id, u64::MAX));
        let found = history::prior_at(first.cards, r.card_id, u64::MAX)->0;
        let j = choose|j: int| 0 <= j < first.cards.len() && first.cards[j] == found;
        assert(first.cards[j].card_id == r.card_id);
        assert(cards::is_players_soul(e, first.cards, r.card_id, player_id));
        lemma_counted(e, first.cards, first.cards, r, player_id);
    }
}

/// The count of souls depends on the flag layout alone.
proof fn lemma_same_souls(a: Env, b: Env, rows: Seq<Card>, prefix: Seq<Card>, player_id: u32)
    requires
        a.state == b.state,
    ensures
        cards::player_souls(a, rows, prefix, player_id) == cards::player_souls(
            b,
            rows,
            prefix,
            player_id,
        ),
    decreases prefix.len(),
{
    if prefix.len() > 0 {
        lemma_same_souls(a, b, rows, prefix.drop_last(), player_id);
    }
}

} // verus!
