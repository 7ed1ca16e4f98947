//! What player operations come to: the rows that a reader finds after them.
use vstd::prelude::*;

use crate::cards::cards;
use crate::cards::cards::Card;
use crate::cards::env::Env;
use crate::cards::env::HoldKind;
use crate::cards::keys;
use crate::cards::micro;
use crate::cards::micro::Micro;
use crate::cards::outcomes;
use crate::content;
use crate::history;
use crate::packed;
use crate::players::character_creation;
use crate::players::character_creation::StarterPack;
use crate::players::lifecycle_pending;
use crate::players::mini_zone;
use crate::players::player_dimension;
use crate::players::players;
use crate::players::players::ConnectionId;
use crate::players::players::Player;
use crate::players::relocation;
use crate::players::rosters;
use crate::players::rosters::Roster;
use crate::players::souls;
use crate::regions::zones;
use crate::regions::zones::Zone;
use crate::tables::Db;

verus! {

// ---- records -------------------------------------------------------
/// Setting a faction changes the low two bits of the player's flags, from then on. The
/// name and the last login stay, and so does every other player.
pub proof fn factions_are_set(db: Db, player_id: u32, t: u64, faction: u8, p: Player, id: u32, at: u64)
    requires
        t < packed::TIME_RADIX,
        history::distinct_versions(db.players),
        history::key_free(db.players, packed::valid_at_key(t, db.next_sequence)),
        history::prior_at(db.players, player_id, t) == Some(p),
    ensures
        ({
            let out = players::faction_set(db, player_id, t, faction);
            &&& out.1 is Ok
            &&& history::prior_at(out.0.players, player_id, t) matches Some(n) && n.flags % 4
                == faction % 4 && n.flags / 4 == p.flags / 4 && n.name == p.name && n.player_id
                == player_id && n.last_login_secs == p.last_login_secs
            &&& id != player_id || at < t ==> history::prior_at(out.0.players, id, at)
                == history::prior_at(db.players, id, at)
        }),
{
    let n = players::stamped(db, players::with_faction(p, faction), t);
    history::prior_at_is_greatest(db.players, player_id, t);
    packed::valid_at_round_trip(t, db.next_sequence);
    history::read_over_write(db.players, n, t);
    if id != player_id || at < t {
        history::write_leaves_the_rest(db.players, n, t, id, at);
    }
}

/// A login is stamped in whole seconds, with nothing else of the player changed.
pub proof fn logins_are_stamped(db: Db, player_id: u32, t: u64, p: Player)
    requires
        t < packed::TIME_RADIX,
        t / 1_000 <= u32::MAX,
        history::distinct_versions(db.players),
        history::prior_at(db.players, player_id, t) == Some(p),
    ensures
        history::prior_at(players::login_stamped(db, player_id, t).players, player_id, t) matches Some(
            n,
        ) && 1_000 * n.last_login_secs <= t < 1_000 * n.last_login_secs + 1_000 && n.flags == p.flags
            && n.name == p.name && n.player_id == player_id,
{
    let n = players::stamped(db, Player { last_login_secs: (t / 1_000) as u32, ..p }, t);
    history::prior_at_is_greatest(db.players, player_id, t);
    packed::valid_at_round_trip(t, db.next_sequence);
    history::read_over_write(db.players, n, t);
}

/// Looking a name up finds a row of that name, and no row of that name is newer. It
/// finds none only where no row has the name.
pub proof fn names_lead_to_their_newest_row(rows: Seq<Player>, name: Seq<char>, i: int)
    requires
        0 <= i < rows.len(),
        rows[i].name@ == name,
    ensures
        players::latest_named(rows, name) matches Some(p) && p.name@ == name && rows.contains(p)
            && history::time(rows[i]) <= history::time(p),
    decreases rows.len(),
{
    let init = rows.drop_last();
    if i < init.len() {
        assert(init[i] == rows[i]);
        names_lead_to_their_newest_row(init, name, i);
        let b = players::latest_named(init, name)->0;
        let k = choose|k: int| 0 <= k < init.len() && init[k] == b;
        assert(rows[k] == b);
    } else if let Some(b) = players::latest_named(init, name) {
        lemma_named(init, name);
        let k = choose|k: int| 0 <= k < init.len() && init[k] == b;
        assert(rows[k] == b);
    }
    assert(rows[rows.len() - 1] == rows.last());
}

proof fn lemma_named(rows: Seq<Player>, name: Seq<char>)
    ensures
        players::latest_named(rows, name) matches Some(p) ==> p.name@ == name && rows.contains(p),
    decreases rows.len(),
{
    if rows.len() > 0 {
        let init = rows.drop_last();
        lemma_named(init, name);
        if let Some(b) = players::latest_named(init, name) {
            let k = choose|k: int| 0 <= k < init.len() && init[k] == b;
            assert(rows[k] == b);
        }
        assert(rows[rows.len() - 1] == rows.last());
    }
}

/// A login under a name that no player has makes the player: the caller's connection
/// leads to an id no row has, and under that id stands a record with the name, without
/// a faction, last seen at the login. The login counts from the server time less the
/// usual buffer.
pub proof fn logins_register_unknown_names(
    e: Env,
    db: Db,
    caller: ConnectionId,
    name: String,
    t: u64,
    id: u32,
)
    requires
        players::name_error(name@) is None,
        forall|i: int| 0 <= i < db.players.len() ==> (#[trigger] db.players[i]).name@ != name@,
        e.now_ms >= cards::TIME_DRIFT_BUFFER_MS,
        t + cards::TIME_DRIFT_BUFFER_MS == e.now_ms,
        t < packed::TIME_RADIX,
        t / 1_000 <= u32::MAX,
        history::distinct_versions(db.players),
        id == players::next_id(db),
    ensures
        ({
            let out = players::logged_in(e, db, caller, name);
            &&& out.1 is Ok
            &&& players::session_player(out.0.player_sessions, caller) == Some(id)
            &&& history::prior_at(out.0.players, id, t) matches Some(p) && p.name == name && p.flags
                == 0 && p.player_id == id && 1_000 * p.last_login_secs <= t < 1_000
                * p.last_login_secs + 1_000
            &&& out.0.player_profiles.len() == db.player_profiles.len() + 1
            &&& out.0.player_profiles.last().player_id == id
            &&& out.0.player_profiles.last().lifecycle_count == 0
            &&& out.0.cards == db.cards
        }),
{
    lemma_named(db.players, name@);
    if let Some(p) = players::latest_named(db.players, name@) {
        let k = choose|k: int| 0 <= k < db.players.len() && db.players[k] == p;
        assert(db.players[k].name@ == name@);
    }
    let d = players::registered(db, name, t);
    let row = players::stamped(players::id_taken(db), players::fresh_player(id, name), t);
    packed::valid_at_round_trip(t, db.next_sequence);
    history::read_over_write(db.players, row, t);
    history::store_keeps_distinct(db.players, row, t);
    players::login_binds_caller(d, caller, id, t);
    let s = Db {
        player_sessions: d.player_sessions.filter(players::other_connection(caller)).push(
            players::PlayerSession { identity: caller, player_id: id },
        ),
        ..d
    };
    logins_are_stamped(s, id, t, row);
}

/// A login under a known name binds the connection to the player whose newest record
/// has the name, and makes no player. A reserved player is refused.
pub proof fn logins_lead_to_the_named_player(
    e: Env,
    db: Db,
    caller: ConnectionId,
    name: String,
    i: int,
)
    requires
        players::name_error(name@) is None,
        0 <= i < db.players.len(),
        db.players[i].name@ == name@,
    ensures
        ({
            let out = players::logged_in(e, db, caller, name);
            let p = players::latest_named(db.players, name@)->0;
            &&& p.name@ == name@
            &&& history::time(db.players[i]) <= history::time(p)
            &&& out.1 is Ok <==> p.player_id >= 1024
            &&& out.1 is Ok ==> players::session_player(out.0.player_sessions, caller) == Some(
                p.player_id,
            )
            &&& out.1 is Err ==> out.0 == db
            &&& out.0.player_id_counter == db.player_id_counter
            &&& out.0.player_profiles == db.player_profiles
        }),
{
    names_lead_to_their_newest_row(db.players, name@, i);
    let p = players::latest_named(db.players, name@)->0;
    players::login_binds_caller(db, caller, p.player_id, players::buffered_now(e));
}

/// Deleting a player takes every row of the player, every session and every version of
/// each card that the player ultimately owns, and leaves every other row.
pub proof fn deletion_takes_what_the_player_has(
    e: Env,
    db: Db,
    player_id: u32,
    c: Card,
    p: Player,
    s: players::PlayerSession,
)
    ensures
        ({
            let d = players::player_deleted(e, db, player_id);
            &&& d.cards.contains(c) <==> db.cards.contains(c) && cards::player_of(e, db, c.card_id)
                != Some(player_id)
            &&& d.players.contains(p) <==> db.players.contains(p) && p.player_id != player_id
            &&& d.player_sessions.contains(s) <==> db.player_sessions.contains(s) && s.player_id
                != player_id
            &&& d.zones == db.zones
        }),
{
    history::filter_members(db.cards, players::not_owned_by(e, db, player_id));
    history::filter_members(db.players, players::not_player(player_id));
    history::filter_members(db.player_sessions, players::other_player(player_id));
}

// ---- starter souls -------------------------------------------------
/// The zone of a location key: the owner band, the surface byte, and the coordinates.
pub open spec fn zone_is(key: u64, owner: u32, surface: u8, q: int, r: int) -> bool {
    &&& key / 0x1_0000_0000 == owner
    &&& key / 0x100_0000 % 0x100 == surface
    &&& key / 0x1000 % 0x1000 == q % 0x1000
    &&& key % 0x1000 == r % 0x1000
}

pub proof fn lemma_zone_is(owner: u32, surface: u8, q: i32, r: i32)
    ensures
        zone_is(packed::macro_zone_key(owner, surface, q, r), owner, surface, q as int, r as int),
{
    let k = owner * 0x1_0000_0000 + surface * 0x100_0000 + (q as int % 4096) * 4096 + (r as int
        % 4096);
    assert(k / 0x1_0000_0000 == owner);
    assert(k / 0x100_0000 == owner * 256 + surface);
    assert(k / 4096 == (owner * 256 + surface) * 4096 + (q as int % 4096));
}

/// The card stands loose on a cell of its zone.
pub open spec fn on_cell(e: Env, c: Card, q: u8, r: u8) -> bool {
    cards::placement(e, c) matches Micro::Loose { local_q, local_r, .. } && local_q == q && local_r
        == r
}

/// A spawned card is found loose on the first cell of its zone, with its owner and
/// its definition.
pub proof fn lemma_spawned(
    e: Env,
    db: Db,
    t: u64,
    macro_zone: u64,
    surface: u8,
    owner_id: u32,
    def: u16,
    flags_state: u32,
)
    requires
        e.wf(),
        t < packed::TIME_RADIX,
        history::distinct_versions(db.cards),
        e.loose_kinds@[surface as int] <= e.bk.stack_state_max,
        spawn_takes_free_keys(e, db, t, macro_zone, surface, owner_id, def, flags_state),
    ensures
        ({
            let d = players::spawned(e, db, t, macro_zone, surface, owner_id, def, flags_state);
            &&& history::distinct_versions(d.cards)
            &&& outcomes::stands_alone(e, d.cards, cards::next_id(db), t)
            &&& history::prior_at(d.cards, cards::next_id(db), t) matches Some(c) && c.macro_zone
                == macro_zone && c.owner_id == owner_id && c.packed_definition == def
                && c.flags_state == flags_state | cards::definition_flags(e, def)
                && on_cell(e, c, 0, 0)
        }),
{
    outcomes::lemma_nothing_shared(micro::stack_mask(e.bk));
    outcomes::lemma_nothing_shared(e.bk.position_dirty | e.bk.data_dirty);
    let m = Micro::Loose {
        local_q: 0,
        local_r: 0,
        x: 0,
        y: 0,
        kind: e.loose_kinds@[surface as int],
    };
    outcomes::created_cards_are_found(
        e,
        cards::id_taken(db),
        cards::next_id(db),
        t,
        macro_zone,
        m,
        owner_id,
        def,
        flags_state,
        0,
        0,
    );
}

/// A player who is granted the starter souls has three cards: a soul that the player
/// owns, a human on the first world zone that the soul owns, and dust in the human's
/// inventory that the human owns.
#[verifier::rlimit(40)]
#[verifier::spinoff_prover]
pub proof fn starters_own_each_other(
    e: Env,
    db: Db,
    player_id: u32,
    t: u64,
    soul: u16,
    human: u16,
    dust: u16,
    soul_id: u32,
    human_id: u32,
    dust_id: u32,
    d1: Db,
    d2: Db,
    d3: Db,
)
    requires
        e.wf(),
        t < packed::TIME_RADIX,
        e.loose_kinds@[0] <= e.bk.stack_state_max,
        e.loose_kinds@[1] <= e.bk.stack_state_max,
        e.loose_kinds@[64] <= e.bk.stack_state_max,
        history::distinct_versions(db.cards),
        content::packed_by_key(e.catalog.definitions@, "player_soul"@) == Some(soul),
        content::packed_by_key(e.catalog.definitions@, "human"@) == Some(human),
        content::packed_by_key(e.catalog.definitions@, "dust"@) == Some(dust),
        d1 == players::soul_spawned(
            e,
            db,
            t,
            packed::on_surface(packed::macro_zone_key(0, 0, 0, 0), 0),
            0,
            player_id,
            player_id,
            soul,
            e.state.is_owned_by_player,
        ),
        d2 == players::soul_spawned(
            e,
            d1,
            t,
            packed::macro_zone_key(0, 64, 0, 0),
            64,
            soul_id,
            player_id,
            human,
            0,
        ),
        d3 == players::inventory_region_seeded(d2, human_id, t),
        soul_id == cards::next_id(db),
        human_id == cards::next_id(d1),
        dust_id == cards::next_id(d3),
        soul_id != human_id && soul_id != dust_id && human_id != dust_id,
        spawn_takes_free_keys(
            e,
            db,
            t,
            packed::on_surface(packed::macro_zone_key(0, 0, 0, 0), 0),
            0,
            player_id,
            soul,
            souls::portrayed(
                e.state.is_owned_by_player,
                players::portrait_pick(t, player_id, soul_id),
            ),
        ),
        spawn_takes_free_keys(
            e,
            d1,
            t,
            packed::macro_zone_key(0, 64, 0, 0),
            64,
            soul_id,
            human,
            souls::portrayed(0, players::portrait_pick(t, player_id, human_id)),
        ),
        spawn_takes_free_keys(
            e,
            d3,
            t,
            packed::macro_zone_key(human_id, 1, 0, 0),
            1,
            human_id,
            dust,
            0,
        ),
    ensures
        ({
            let out = players::starter_granted(e, db, player_id, t);
            &&& out.1 is Ok
            &&& history::prior_at(out.0.cards, soul_id, t) matches Some(c) && c.owner_id
                == player_id && c.packed_definition == soul && c.macro_zone / 0x100_0000 % 0x100 == 0
            &&& history::prior_at(out.0.cards, human_id, t) matches Some(c) && c.owner_id == soul_id
                && c.packed_definition == human && zone_is(c.macro_zone, 0, 64, 0, 0) && on_cell(
                e,
                c,
                0,
                0,
            )
            &&& history::prior_at(out.0.cards, dust_id, t) matches Some(c) && c.owner_id == human_id
                && c.packed_definition == dust && zone_is(c.macro_zone, human_id, 1, 0, 0)
                && on_cell(e, c, 0, 0)
        }),
{
    let z0 = packed::on_surface(packed::macro_zone_key(0, 0, 0, 0), 0);
    let z1 = packed::macro_zone_key(0, 64, 0, 0);
    let z2 = packed::macro_zone_key(human_id, 1, 0, 0);
    let f0 = souls::portrayed(
        e.state.is_owned_by_player,
        players::portrait_pick(t, player_id, soul_id),
    );
    let f1 = souls::portrayed(0, players::portrait_pick(t, player_id, human_id));
    outcomes::lemma_lies_on(packed::macro_zone_key(0, 0, 0, 0), 0);
    lemma_zone_is(0, 64, 0, 0);
    lemma_zone_is(human_id, 1, 0, 0);
    lemma_spawned(e, db, t, z0, 0, player_id, soul, f0);
    lemma_spawned(e, d1, t, z1, 64, soul_id, human, f1);
    lemma_spawned(e, d3, t, z2, 1, human_id, dust, 0);
    outcomes::writes_spare_cards_that_stand_alone(
        e,
        cards::id_taken(d1),
        players::spawned_card(e, d1, z1, 64, soul_id, human, f1),
        t,
        soul_id,
    );
    let last = players::spawned_card(e, d3, z2, 1, human_id, dust, 0);
    outcomes::writes_spare_cards_that_stand_alone(e, cards::id_taken(d3), last, t, soul_id);
    outcomes::writes_spare_cards_that_stand_alone(e, cards::id_taken(d3), last, t, human_id);
    lemma_starter_steps(e, db, player_id, t, soul, human, dust);
}

/// The last of the starter cards is spawned into the inventory of the human.
proof fn lemma_starter_steps(
    e: Env,
    db: Db,
    player_id: u32,
    t: u64,
    soul: u16,
    human: u16,
    dust: u16,
)
    requires
        content::packed_by_key(e.catalog.definitions@, "player_soul"@) == Some(soul),
        content::packed_by_key(e.catalog.definitions@, "human"@) == Some(human),
        content::packed_by_key(e.catalog.definitions@, "dust"@) == Some(dust),
    ensures
        ({
            let d1 = players::soul_spawned(
                e,
                db,
                t,
                packed::on_surface(packed::macro_zone_key(0, 0, 0, 0), 0),
                0,
                player_id,
                player_id,
                soul,
                e.state.is_owned_by_player,
            );
            let d2 = players::soul_spawned(
                e,
                d1,
                t,
                packed::macro_zone_key(0, 64, 0, 0),
                64,
                cards::next_id(db),
                player_id,
                human,
                0,
            );
            let human_id = cards::next_id(d1);
            players::starter_granted(e, db, player_id, t) == (
                players::spawned(
                    e,
                    players::inventory_region_seeded(d2, human_id, t),
                    t,
                    packed::macro_zone_key(human_id, 1, 0, 0),
                    1,
                    human_id,
                    dust,
                    0,
                ),
                Ok::<(), players::PlayerError>(()),
            )
        }),
{
    assert(seq![dust].drop_last() =~= Seq::<u16>::empty());
    assert(seq![dust].last() == dust);
    reveal_with_fuel(players::inventory_filled, 2);
}

/// Spawning a card takes free keys only.
pub open spec fn spawn_takes_free_keys(
    e: Env,
    db: Db,
    t: u64,
    macro_zone: u64,
    surface: u8,
    owner_id: u32,
    def: u16,
    flags_state: u32,
) -> bool {
    keys::write_takes_free_keys(
        e,
        cards::id_taken(db),
        players::spawned_card(e, db, macro_zone, surface, owner_id, def, flags_state),
        t,
        cards::cascade_depth(cards::id_taken(db)),
    )
}

// ---- dimensions ----------------------------------------------------
/// A soul that entered the caller's dimension is found there: in the chunk of the
/// caller's own band that was asked for, on that cell. It was alive, unheld and the
/// caller's.
pub proof fn souls_enter_their_owners_dimension(
    e: Env,
    db: Db,
    caller: ConnectionId,
    client_time_ms: u64,
    card_id: u32,
    chunk_q: i16,
    chunk_r: i16,
    local_q: u8,
    local_r: u8,
    mid: Db,
    player: u32,
    t: u64,
    c: Card,
)
    requires
        e.wf(),
        e.loose_kinds@[packed::PLAYER_DIMENSION_LAYER as int] <= e.bk.stack_state_max,
        player_dimension::let_through(e, db, caller, client_time_ms) == (
            mid,
            Ok::<(u32, u64), player_dimension::DimensionError>((player, t)),
        ),
        t < packed::TIME_RADIX,
        history::distinct_versions(mid.cards),
        history::prior_at(mid.cards, card_id, t) == Some(c),
        keys::edit_takes_free_keys(
            e,
            mid,
            card_id,
            t,
            relocation::moved_to(
                e,
                packed::macro_zone_key(
                    player,
                    packed::PLAYER_DIMENSION_LAYER,
                    chunk_q as i32,
                    chunk_r as i32,
                ),
                Micro::Loose {
                    local_q,
                    local_r,
                    x: 0,
                    y: 0,
                    kind: e.loose_kinds@[packed::PLAYER_DIMENSION_LAYER as int],
                },
            ),
        ),
        player_dimension::entered(
            e,
            db,
            caller,
            client_time_ms,
            card_id,
            chunk_q,
            chunk_r,
            local_q,
            local_r,
        ).1 is Ok,
    ensures
        ({
            let d = player_dimension::entered(
                e,
                db,
                caller,
                client_time_ms,
                card_id,
                chunk_q,
                chunk_r,
                local_q,
                local_r,
            ).0;
            &&& players::session_player(db.player_sessions, caller) == Some(player)
            &&& history::prior_at(d.cards, card_id, t) matches Some(n) && outcomes::same_card(n, c)
                && zone_is(n.macro_zone, player, 62, chunk_q as int, chunk_r as int)
                && on_cell(e, n, local_q, local_r) && n.flags_state == c.flags_state
            &&& c.flags_state & e.state.dead == 0
            &&& c.packed_definition / 4096 == souls::SOUL_CARD_TYPE
            &&& cards::hold_value(e, HoldKind::SlotHold, c.flags_bk) == 0
            &&& cards::hold_value(e, HoldKind::SlotShare, c.flags_bk) == 0
            &&& cards::hold_value(e, HoldKind::PositionHold, c.flags_bk) == 0
        }),
{
    let location = packed::macro_zone_key(
        player,
        packed::PLAYER_DIMENSION_LAYER,
        chunk_q as i32,
        chunk_r as i32,
    );
    let m = Micro::Loose {
        local_q,
        local_r,
        x: 0,
        y: 0,
        kind: e.loose_kinds@[packed::PLAYER_DIMENSION_LAYER as int],
    };
    lemma_zone_is(player, packed::PLAYER_DIMENSION_LAYER, chunk_q as i32, chunk_r as i32);
    history::prior_at_is_greatest(mid.cards, card_id, t);
    outcomes::relocated_cards_are_found(e, mid, c, t, location, m, HoldKind::Touch);
}

/// A soul that left the caller's dimension is found on the world, in the zone and on
/// the cell that were asked for. It stood in a dimension, alive, unheld and the
/// caller's, and no live card stood on that cell.
pub proof fn souls_leave_for_a_free_world_cell(
    e: Env,
    db: Db,
    caller: ConnectionId,
    client_time_ms: u64,
    card_id: u32,
    world_macro_zone: u64,
    local_q: u8,
    local_r: u8,
    x: i16,
    y: i16,
    kind: u8,
    mid: Db,
    player: u32,
    t: u64,
    c: Card,
    other: u32,
)
    requires
        e.wf(),
        e.loose_kinds@[packed::WORLD_LAYER as int] <= e.bk.stack_state_max,
        local_q < 8,
        local_r < 8,
        player_dimension::let_through(e, db, caller, client_time_ms) == (
            mid,
            Ok::<(u32, u64), player_dimension::DimensionError>((player, t)),
        ),
        t < packed::TIME_RADIX,
        history::distinct_versions(mid.cards),
        history::prior_at(mid.cards, card_id, t) == Some(c),
        keys::edit_takes_free_keys(
            e,
            mid,
            card_id,
            t,
            relocation::moved_to(
                e,
                packed::on_surface(world_macro_zone, packed::WORLD_LAYER),
                relocation::world_cell(e, local_q, local_r),
            ),
        ),
        player_dimension::exited(
            e,
            db,
            caller,
            client_time_ms,
            card_id,
            world_macro_zone,
            Micro::Loose { local_q, local_r, x, y, kind },
        ).1 is Ok,
    ensures
        ({
            let d = player_dimension::exited(
                e,
                db,
                caller,
                client_time_ms,
                card_id,
                world_macro_zone,
                Micro::Loose { local_q, local_r, x, y, kind },
            ).0;
            &&& c.macro_zone / 0x100_0000 % 0x100 == 62
            &&& c.flags_state & e.state.dead == 0
            &&& history::prior_at(d.cards, card_id, t) matches Some(n) && outcomes::same_card(n, c)
                && outcomes::lies_on(n.macro_zone, world_macro_zone, 64) && on_cell(
                e,
                n,
                local_q,
                local_r,
            )
            &&& history::prior_at(mid.cards, other, t) matches Some(o) ==> !(outcomes::lies_on(
                o.macro_zone,
                world_macro_zone,
                64,
            ) && o.flags_state & e.state.dead == 0 && on_cell(e, o, local_q, local_r))
        }),
{
    let location = packed::on_surface(world_macro_zone, packed::WORLD_LAYER);
    outcomes::lemma_lies_on(world_macro_zone, packed::WORLD_LAYER);
    history::prior_at_is_greatest(mid.cards, card_id, t);
    outcomes::relocated_cards_are_found(
        e,
        mid,
        c,
        t,
        location,
        relocation::world_cell(e, local_q, local_r),
        HoldKind::Touch,
    );
    if let Some(o) = history::prior_at(mid.cards, other, t) {
        if outcomes::lies_on(o.macro_zone, world_macro_zone, 64) && o.flags_state & e.state.dead
            == 0 && on_cell(e, o, local_q, local_r) {
            assert(o.macro_zone == location);
            occupants_are_seen(e, mid, location, local_q, local_r, t, other, o);
        }
    }
}

/// A cell is occupied where a live card in force stands loose on it.
pub proof fn occupants_are_seen(
    e: Env,
    db: Db,
    location: u64,
    q: u8,
    r: u8,
    t: u64,
    id: u32,
    c: Card,
)
    requires
        history::prior_at(db.cards, id, t) == Some(c),
        c.macro_zone == location,
        c.flags_state & e.state.dead == 0,
        on_cell(e, c, q, r),
    ensures
        relocation::occupied(e, db, location, q, r, t),
{
    history::prior_at_is_greatest(db.cards, id, t);
    let k = choose|k: int| 0 <= k < db.cards.len() && db.cards[k] == c;
    assert(relocation::leads_to_occupant(e, db, db.cards[k], location, q, r, t));
}

/// An occupied cell has a live card in force that stands loose on it.
pub proof fn occupied_cells_have_an_occupant(e: Env, db: Db, location: u64, q: u8, r: u8, t: u64) -> (id: u32)
    requires
        relocation::occupied(e, db, location, q, r, t),
    ensures
        history::prior_at(db.cards, id, t) matches Some(c) && c.macro_zone == location
            && c.flags_state & e.state.dead == 0 && on_cell(e, c, q, r),
{
    let k = choose|k: int|
        0 <= k < db.cards.len() && relocation::leads_to_occupant(
            e,
            db,
            #[trigger] db.cards[k],
            location,
            q,
            r,
            t,
        );
    db.cards[k].card_id
}

// ---- mini zones ----------------------------------------------------
/// The global hex of a cell of a zone of eight by eight, on both axes.
pub open spec fn global_hex(key: u64, q: u8, r: u8) -> (int, int) {
    let zq = key as int / 0x1000 % 0x1000;
    let zr = key as int % 0x1000;
    (
        8 * (if zq >= 0x800 {
            zq - 0x1000
        } else {
            zq
        }) + q,
        8 * (if zr >= 0x800 {
            zr - 0x1000
        } else {
            zr
        }) + r,
    )
}

/// The hexes lie at most three steps apart.
pub open spec fn near(a: (int, int), b: (int, int)) -> bool {
    let dq = a.0 - b.0;
    let dr = a.1 - b.1;
    -3 <= dq <= 3 && -3 <= dr <= 3 && -3 <= dq + dr <= 3
}

proof fn lemma_coverer_in(e: Env, db: Db, rows: Seq<Card>, location: u64, hex: (i32, i32))
    ensures
        match mini_zone::coverer_in(e, db, rows, location, hex) {
            Some(c) => mini_zone::covers(e, c, location, hex) && exists|id: u32|
                cards::current(e, db, id) == Some(c),
            None => forall|i: int|
                #![trigger rows[i]]
                0 <= i < rows.len() && rows[i].macro_zone == location ==> (cards::current(
                    e,
                    db,
                    rows[i].card_id,
                ) matches Some(c) ==> !mini_zone::covers(e, c, location, hex)),
        },
    decreases rows.len(),
{
    if rows.len() > 0 {
        let rest = rows.skip(1);
        lemma_coverer_in(e, db, rest, location, hex);
        if mini_zone::coverer_in(e, db, rows, location, hex) is None {
            assert forall|i: int|
                #![trigger rows[i]]
                0 <= i < rows.len() && rows[i].macro_zone == location implies (cards::current(
                e,
                db,
                rows[i].card_id,
            ) matches Some(c) ==> !mini_zone::covers(e, c, location, hex)) by {
                if i > 0 {
                    assert(rest[i - 1] == rows[i]);
                }
            }
        }
    }
}

proof fn lemma_coverer_from(e: Env, db: Db, location: u64, hex: (i32, i32), i: int, n: int)
    requires
        0 <= i <= n < 7,
    ensures
        match mini_zone::coverer_from(e, db, location, hex, i) {
            Some(c) => mini_zone::covers(e, c, c.macro_zone, hex) && exists|id: u32|
                cards::current(e, db, id) == Some(c),
            None => mini_zone::coverer_in(e, db, db.cards, mini_zone::neighbour(location, n), hex) is None,
        },
    decreases 7 - i,
{
    lemma_coverer_in(e, db, db.cards, mini_zone::neighbour(location, i), hex);
    if i < n {
        lemma_coverer_from(e, db, location, hex, i + 1, n);
    } else if i < 6 {
        lemma_coverer_from(e, db, location, hex, i + 1, i + 1);
    }
}

/// What covers a hex is an anchor in force that stands loose at most three steps from
/// it.
pub proof fn coverers_stand_near(e: Env, db: Db, location: u64, hex: (i32, i32)) -> (cell: (u8, u8))
    requires
        mini_zone::coverer_from(e, db, location, hex, 0) is Some,
    ensures
        ({
            let c = mini_zone::coverer_from(e, db, location, hex, 0)->0;
            &&& on_cell(e, c, cell.0, cell.1)
            &&& near(
                global_hex(c.macro_zone, cell.0, cell.1),
                (hex.0 as int, hex.1 as int),
            )
            &&& e.catalog.mini_zone_type == Some((c.packed_definition / 4096) as u8)
            &&& exists|id: u32| cards::current(e, db, id) == Some(c)
        }),
{
    lemma_coverer_from(e, db, location, hex, 0, 0);
    let c = mini_zone::coverer_from(e, db, location, hex, 0)->0;
    match cards::placement(e, c) {
        Micro::Loose { local_q, local_r, x, y, kind } => (local_q, local_r),
        Micro::Stacked { root, branch, index } => (0u8, 0u8),
    }
}

/// An anchor in force that stands loose in a zone of the world, or in one of the six
/// zones round it, at most three steps from a hex, keeps the hex from being uncovered.
pub proof fn near_anchors_cover(
    e: Env,
    db: Db,
    location: u64,
    hex: (i32, i32),
    n: int,
    id: u32,
    c: Card,
    q: u8,
    r: u8,
)
    requires
        0 <= n < 7,
        cards::current(e, db, id) == Some(c),
        ({
            let z = packed::zone_coords(location);
            let d = seq![(0int, 0int), (1, 0), (-1, 0), (0, 1), (0, -1), (1, -1), (-1, 1)][n];
            zone_is(c.macro_zone, 0, 64, z.0 + d.0, z.1 + d.1)
        }),
        on_cell(e, c, q, r),
        mini_zone::is_anchor_definition(e, c.packed_definition),
        near(global_hex(c.macro_zone, q, r), (hex.0 as int, hex.1 as int)),
    ensures
        mini_zone::coverer_from(e, db, location, hex, 0) is Some,
{
    let z = packed::zone_coords(location);
    let d = mini_zone::reach(n);
    lemma_zone_is(0, 64, (z.0 + d.0) as i32, (z.1 + d.1) as i32);
    lemma_same_zone(c.macro_zone, mini_zone::neighbour(location, n));
    lemma_coverer_from(e, db, location, hex, 0, n);
    lemma_coverer_in(e, db, db.cards, mini_zone::neighbour(location, n), hex);
    history::prior_at_is_greatest(db.cards, id, e.now_ms);
    let k = choose|k: int| 0 <= k < db.cards.len() && db.cards[k] == c;
    assert(db.cards[k].card_id == id);
}

proof fn lemma_same_zone(a: u64, b: u64)
    requires
        a / 0x1_0000_0000 == b / 0x1_0000_0000,
        a / 0x100_0000 % 0x100 == b / 0x100_0000 % 0x100,
        a / 0x1000 % 0x1000 == b / 0x1000 % 0x1000,
        a % 0x1000 == b % 0x1000,
    ensures
        a == b,
{
    assert(a == a / 0x1_0000_0000 * 0x1_0000_0000 + a / 0x100_0000 % 0x100 * 0x100_0000 + a / 0x1000
        % 0x1000 * 0x1000 + a % 0x1000);
    assert(b == b / 0x1_0000_0000 * 0x1_0000_0000 + b / 0x100_0000 % 0x100 * 0x100_0000 + b / 0x1000
        % 0x1000 * 0x1000 + b % 0x1000);
}

/// The tile over a world hex is that of the anchor's own zone, the same number of
/// columns and rows from the middle cell as the hex lies from the anchor.
pub proof fn overlays_line_up_with_their_anchor(
    e: Env,
    db: Db,
    anchor: Card,
    hex: (i32, i32),
    q: u8,
    r: u8,
)
    requires
        on_cell(e, anchor, q, r),
        near(global_hex(anchor.macro_zone, q, r), (hex.0 as int, hex.1 as int)),
    ensures
        mini_zone::overlay_tile(e, db, anchor, hex) matches Some((def, at)) ==> {
            let h = global_hex(anchor.macro_zone, q, r);
            &&& at.col == 3 + hex.0 - h.0
            &&& at.row == 3 + hex.1 - h.1
            &&& zone_is(at.macro_zone, anchor.card_id, 63, 0, 0)
            &&& zones::latest_on(db.zones, at.macro_zone) matches Some(z) && z.zone_id == at.zone_id
                && z.owner_id == at.owner_id && def % 4096 == zones::tile_of(
                z,
                at.row as int,
                at.col as int,
            ).0 % 4096 && def / 4096 == z.packed_definition / 16
        },
{
    lemma_zone_is(anchor.card_id, 63, 0, 0);
    crate::regions::outcomes::lemma_latest_member(db.zones, mini_zone::home_of(anchor.card_id));
    if let Some(z) = zones::latest_on(db.zones, mini_zone::home_of(anchor.card_id)) {
        packed::definition_round_trip(
            z.packed_definition / 16,
            zones::tile_of(
                z,
                mini_zone::grid_cell(hex.1 - global_hex(anchor.macro_zone, q, r).1) as int,
                mini_zone::grid_cell(hex.0 - global_hex(anchor.macro_zone, q, r).0) as int,
            ).0,
        );
    }
}

/// A deployed anchor is found on the world, in the zone and on the cell that were asked
/// for, and a zone of its own without tiles has been made for it. It came from an
/// inventory.
pub proof fn deployed_anchors_stand_on_the_world(
    e: Env,
    db: Db,
    caller: ConnectionId,
    anchor: u32,
    target_zone: u64,
    local_q: u8,
    local_r: u8,
    x: i16,
    y: i16,
    kind: u8,
    player: u32,
    mid: Db,
    c: Card,
)
    requires
        e.wf(),
        e.now_ms < packed::TIME_RADIX,
        e.loose_kinds@[packed::WORLD_LAYER as int] <= e.bk.stack_state_max,
        local_q < 8,
        local_r < 8,
        players::session_player(db.player_sessions, caller) == Some(player),
        mid == lifecycle_pending::gate(db, player, e.now_ms, Seq::empty()).0,
        history::distinct_versions(mid.cards),
        history::prior_at(mid.cards, anchor, e.now_ms) == Some(c),
        keys::edit_takes_free_keys(
            e,
            mid,
            anchor,
            e.now_ms,
            relocation::moved_to(
                e,
                packed::on_surface(target_zone, packed::WORLD_LAYER),
                relocation::world_cell(e, local_q, local_r),
            ),
        ),
        mini_zone::deployed(
            e,
            db,
            caller,
            anchor,
            target_zone,
            Micro::Loose { local_q, local_r, x, y, kind },
        ).1 is Ok,
    ensures
        ({
            let d = mini_zone::deployed(
                e,
                db,
                caller,
                anchor,
                target_zone,
                Micro::Loose { local_q, local_r, x, y, kind },
            ).0;
            &&& c.macro_zone / 0x100_0000 % 0x100 == 1
            &&& history::prior_at(d.cards, anchor, e.now_ms) matches Some(n) && outcomes::same_card(
                n,
                c,
            ) && outcomes::lies_on(n.macro_zone, target_zone, 64) && on_cell(e, n, local_q, local_r)
            &&& exists|z: Zone| #[trigger]
                d.zones.contains(z) && zone_is(z.macro_zone, anchor, 63, 0, 0) && z.owner_id
                    == anchor && history::time(z) == e.now_ms && forall|i: int|
                    0 <= i < 16 ==> #[trigger] zones::words(z)[i] == 0
        }),
{
    let location = packed::on_surface(target_zone, packed::WORLD_LAYER);
    let m = relocation::world_cell(e, local_q, local_r);
    outcomes::lemma_lies_on(target_zone, packed::WORLD_LAYER);
    lemma_zone_is(anchor, 63, 0, 0);
    history::prior_at_is_greatest(mid.cards, anchor, e.now_ms);
    outcomes::relocated_cards_are_found(e, mid, c, e.now_ms, location, m, HoldKind::Touch);
    let a = cards::edited(e, mid, anchor, e.now_ms, relocation::moved_to(e, location, m));
    let fresh = zones::fresh_zone(
        zones::fresh_zone_id(a.zones),
        mini_zone::home_of(anchor),
        packed::zone_definition_word(mini_zone::TILE_TYPE),
        anchor,
        mini_zone::no_tiles(),
    );
    let z = zones::stamped(a.zone_state(), fresh, e.now_ms);
    packed::valid_at_round_trip(e.now_ms, a.next_sequence);
    history::stored_members(a.zones, z, e.now_ms);
    let d = mini_zone::landed(e, mid, anchor, location, Micro::Loose { local_q, local_r, x, y, kind });
    assert(d.zones.contains(z));
}

/// Spilling the contents of a mini zone takes free keys only.
pub open spec fn spill_takes_free_keys(
    e: Env,
    db: Db,
    ids: Seq<u32>,
    home: u64,
    location: u64,
    m: Micro,
) -> bool
    decreases ids.len(),
{
    ids.len() > 0 ==> {
        &&& spill_takes_free_keys(e, db, ids.drop_last(), home, location, m)
        &&& keys::edit_takes_free_keys(
            e,
            mini_zone::spilled(e, db, ids.drop_last(), home, location, m),
            ids.last(),
            e.now_ms,
            relocation::moved_to(e, location, m),
        )
    }
}

/// Spilled cards are found where they spill to. A card that is not among them, or is
/// dead or elsewhere, stays as it is.
pub proof fn spilled_cards_are_found(
    e: Env,
    db: Db,
    ids: Seq<u32>,
    home: u64,
    location: u64,
    m: Micro,
    id: u32,
)
    requires
        e.wf(),
        e.now_ms < packed::TIME_RADIX,
        history::distinct_versions(db.cards),
        micro::fits(m, e.bk),
        m is Loose,
        ids.no_duplicates(),
        spill_takes_free_keys(e, db, ids, home, location, m),
        outcomes::stands_alone(e, db.cards, id, e.now_ms),
    ensures
        ({
            let d = mini_zone::spilled(e, db, ids, home, location, m);
            let was = history::prior_at(db.cards, id, e.now_ms);
            let is = history::prior_at(d.cards, id, e.now_ms);
            &&& history::distinct_versions(d.cards)
            &&& outcomes::stands_alone(e, d.cards, id, e.now_ms)
            &&& match was {
                Some(c) if ids.contains(id) && c.macro_zone == home && c.flags_state & e.state.dead
                    == 0 => is matches Some(n) && outcomes::same_card(n, c) && n.macro_zone
                    == location && cards::placement(e, n) == m,
                _ => is == was,
            }
        }),
    decreases ids.len(),
{
    if ids.len() > 0 {
        let init = ids.drop_last();
        assert(init.no_duplicates());
        spilled_cards_are_found(e, db, init, home, location, m, id);
        let before = mini_zone::spilled(e, db, init, home, location, m);
        assert(ids[ids.len() - 1] == ids.last());
        assert(ids.contains(id) <==> init.contains(id) || id == ids.last()) by {
            if ids.contains(id) {
                let k = choose|k: int| 0 <= k < ids.len() && ids[k] == id;
                if k < init.len() {
                    assert(init[k] == id);
                }
            }
            if init.contains(id) {
                let k = choose|k: int| 0 <= k < init.len() && init[k] == id;
                assert(ids[k] == id);
            }
        }
        if let Some(c) = history::prior_at(before.cards, ids.last(), e.now_ms) {
            if c.macro_zone == home && !cards::is_dead(e, c) {
                history::prior_at_is_greatest(before.cards, ids.last(), e.now_ms);
                if id == ids.last() {
                    if init.contains(id) {
                        let k = choose|k: int| 0 <= k < init.len() && init[k] == id;
                        assert(ids[k] == ids[ids.len() - 1]);
                    }
                    outcomes::relocated_cards_are_found(
                        e,
                        before,
                        c,
                        e.now_ms,
                        location,
                        m,
                        HoldKind::Touch,
                    );
                } else {
                    outcomes::writes_spare_cards_that_stand_alone(
                        e,
                        before,
                        relocation::moved_to(e, location, m)(c),
                        e.now_ms,
                        id,
                    );
                }
            }
        }
    }
}

proof fn lemma_ids_at(prefix: Seq<Card>, location: u64, anchor: u32, i: int)
    ensures
        mini_zone::ids_at(prefix, location, anchor).no_duplicates(),
        !mini_zone::ids_at(prefix, location, anchor).contains(anchor),
        0 <= i < prefix.len() && prefix[i].macro_zone == location && prefix[i].card_id != anchor
            ==> mini_zone::ids_at(prefix, location, anchor).contains(prefix[i].card_id),
    decreases prefix.len(),
{
    if prefix.len() > 0 {
        let init = prefix.drop_last();
        let before = mini_zone::ids_at(init, location, anchor);
        let out = mini_zone::ids_at(prefix, location, anchor);
        lemma_ids_at(init, location, anchor, i);
        assert(forall|k: int| 0 <= k < before.len() ==> out[k] == before[k]);
        if out.contains(anchor) {
            let k = choose|k: int| 0 <= k < out.len() && out[k] == anchor;
            assert(k == before.len() || before[k] == anchor);
        }
        if 0 <= i < prefix.len() && prefix[i].macro_zone == location && prefix[i].card_id != anchor {
            let id = prefix[i].card_id;
            if before.contains(id) {
                let k = choose|k: int| 0 <= k < before.len() && before[k] == id;
                assert(out[k] == id);
            } else {
                assert(i == init.len()) by {
                    if i < init.len() {
                        assert(init[i] == prefix[i]);
                    }
                }
                assert(out[before.len() as int] == id);
            }
        }
    }
}

/// A picked up anchor is found in the inventory of the soul that held it, and belongs
/// to that soul. A live card that stood alone in the anchor's zone is found where the
/// anchor stood, on the cell that the anchor covered.
pub proof fn picked_up_anchors_are_stowed(
    e: Env,
    db: Db,
    caller: ConnectionId,
    anchor: u32,
    c: Card,
    soul: u32,
    b: Db,
    id: u32,
    q: u8,
    r: u8,
)
    requires
        e.wf(),
        e.now_ms < packed::TIME_RADIX,
        e.loose_kinds@[1] <= e.bk.stack_state_max,
        e.loose_kinds@[64] <= e.bk.stack_state_max,
        q < 8,
        r < 8,
        history::distinct_versions(db.cards),
        history::prior_at(db.cards, anchor, e.now_ms) == Some(c),
        cards::soul_at(e, db, anchor, e.now_ms) == Some(soul),
        on_cell(e, c, q, r),
        outcomes::stands_alone(e, db.cards, id, e.now_ms),
        id != anchor,
        ({
            let home = packed::macro_zone_key(anchor, 63, 0, 0);
            let ids = mini_zone::ids_at(db.cards, home, anchor);
            let m = relocation::world_cell(e, q, r);
            let a = mini_zone::spilled(e, db, ids, home, c.macro_zone, m);
            &&& spill_takes_free_keys(e, db, ids, home, c.macro_zone, m)
            &&& b == Db { zones: a.zones.filter(mini_zone::zone_not_at(home)), ..a }
            &&& keys::edit_takes_free_keys(e, b, anchor, e.now_ms, mini_zone::stowed(e, soul))
        }),
        mini_zone::picked_up(e, db, caller, anchor).1 is Ok,
    ensures
        ({
            let d = mini_zone::picked_up(e, db, caller, anchor).0;
            &&& c.macro_zone / 0x100_0000 % 0x100 == 64
            &&& history::prior_at(d.cards, anchor, e.now_ms) matches Some(n) && n.owner_id == soul
                && zone_is(n.macro_zone, soul, 1, 0, 0) && on_cell(e, n, 0, 0)
                && n.packed_definition == c.packed_definition
            &&& history::prior_at(db.cards, id, e.now_ms) matches Some(o) ==> (zone_is(
                o.macro_zone,
                anchor,
                63,
                0,
                0,
            ) && o.flags_state & e.state.dead == 0 ==> (history::prior_at(
                d.cards,
                id,
                e.now_ms,
            ) matches Some(n) && n.macro_zone == c.macro_zone && on_cell(e, n, q, r)))
        }),
{
    let home = packed::macro_zone_key(anchor, 63, 0, 0);
    let ids = mini_zone::ids_at(db.cards, home, anchor);
    let m = relocation::world_cell(e, q, r);
    lemma_zone_is(anchor, 63, 0, 0);
    lemma_zone_is(soul, 1, 0, 0);
    lemma_ids_at(db.cards, home, anchor, 0);
    history::prior_at_is_greatest(db.cards, anchor, e.now_ms);
    spilled_cards_are_found(e, db, ids, home, c.macro_zone, m, anchor);
    spilled_cards_are_found(e, db, ids, home, c.macro_zone, m, id);
    assert(history::prior_at(b.cards, anchor, e.now_ms) == Some(c));
    let at = Micro::Loose { local_q: 0, local_r: 0, x: 0, y: 0, kind: e.loose_kinds@[1] };
    let owned = Card { owner_id: soul, ..c };
    outcomes::relocated_cards_are_found(
        e,
        b,
        owned,
        e.now_ms,
        packed::macro_zone_key(soul, 1, 0, 0),
        at,
        HoldKind::Touch,
    );
    outcomes::writes_spare_cards_that_stand_alone(
        e,
        b,
        mini_zone::stowed(e, soul)(c),
        e.now_ms,
        id,
    );
    if let Some(o) = history::prior_at(db.cards, id, e.now_ms) {
        history::prior_at_is_greatest(db.cards, id, e.now_ms);
        let k = choose|k: int| 0 <= k < db.cards.len() && db.cards[k] == o;
        if zone_is(o.macro_zone, anchor, 63, 0, 0) {
            lemma_same_zone(o.macro_zone, home);
            lemma_ids_at(db.cards, home, anchor, k);
        }
    }
}

// ---- owned souls ---------------------------------------------------
/// The souls that a player is found to own are in force, directly the player's and
/// marked so; each is found once, and every such soul is found whose owner some row
/// shows.
pub proof fn owned_souls_are_the_players(e: Env, db: Db, player_id: u32, id: u32)
    ensures
        players::owned_souls(e, db, db.cards, player_id).no_duplicates(),
        players::owned_souls(e, db, db.cards, player_id).contains(id) <==> (cards::current(
            e,
            db,
            id,
        ) matches Some(c) && c.owner_id == player_id && c.flags_state & e.state.is_owned_by_player
            != 0),
{
    lemma_owned(e, db, db.cards, player_id, id);
    history::prior_at_is_greatest(db.cards, id, e.now_ms);
    if let Some(c) = cards::current(e, db, id) {
        let k = choose|k: int| 0 <= k < db.cards.len() && db.cards[k] == c;
        assert(db.cards[k].card_id == id);
    }
}

proof fn lemma_owned(e: Env, db: Db, prefix: Seq<Card>, player_id: u32, id: u32)
    ensures
        players::owned_souls(e, db, prefix, player_id).no_duplicates(),
        players::owned_souls(e, db, prefix, player_id).contains(id) <==> players::owns_directly(
            e,
            db,
            id,
            player_id,
        ) && exists|k: int|
            0 <= k < prefix.len() && (#[trigger] prefix[k]).card_id == id && prefix[k].owner_id
                == player_id,
    decreases prefix.len(),
{
    if prefix.len() > 0 {
        let init = prefix.drop_last();
        lemma_owned(e, db, init, player_id, id);
        lemma_owned(e, db, init, player_id, prefix.last().card_id);
        let before = players::owned_souls(e, db, init, player_id);
        let out = players::owned_souls(e, db, prefix, player_id);
        assert(prefix[prefix.len() - 1] == prefix.last());
        assert(forall|k: int| 0 <= k < init.len() ==> init[k] == prefix[k]);
        assert(forall|k: int| 0 <= k < before.len() ==> out[k] == before[k]);
        if out.contains(id) {
            let k = choose|k: int| 0 <= k < out.len() && out[k] == id;
            if k < before.len() {
                assert(before[k] == id);
                let j = choose|j: int|
                    0 <= j < init.len() && (#[trigger] init[j]).card_id == id && init[j].owner_id
                        == player_id;
                assert(prefix[j].card_id == id);
            }
        }
        if players::owns_directly(e, db, id, player_id) && exists|k: int|
            0 <= k < prefix.len() && (#[trigger] prefix[k]).card_id == id && prefix[k].owner_id
                == player_id {
            let k = choose|k: int|
                0 <= k < prefix.len() && (#[trigger] prefix[k]).card_id == id && prefix[k].owner_id
                    == player_id;
            if k < init.len() {
                assert(init[k].card_id == id);
            }
            if before.contains(id) {
                let j = choose|j: int| 0 <= j < before.len() && before[j] == id;
                assert(out[j] == id);
            } else {
                assert(out[out.len() - 1] == id);
            }
        }
    }
}

// ---- characters ----------------------------------------------------
/// The soul of a new character is found at the first cell of the first world zone, owned
/// by the player and marked so, and its private row knows the blueprints of the pack.
pub proof fn new_characters_stand_at_the_origin(
    e: Env,
    db: Db,
    player_id: u32,
    t: u64,
    soul_def: u16,
    pack: StarterPack,
)
    requires
        e.wf(),
        t < packed::TIME_RADIX,
        e.loose_kinds@[64] <= e.bk.stack_state_max,
        history::distinct_versions(db.cards),
        spawn_takes_free_keys(
            e,
            db,
            t,
            packed::macro_zone_key(0, 64, 0, 0),
            64,
            player_id,
            soul_def,
            character_creation::soul_flags(e, db, player_id, t),
        ),
    ensures
        ({
            let d = character_creation::soul_placed(e, db, player_id, t, soul_def, pack);
            let id = cards::next_id(db);
            &&& history::prior_at(d.cards, id, t) matches Some(c) && c.owner_id == player_id
                && c.packed_definition == soul_def && zone_is(c.macro_zone, 0, 64, 0, 0) && on_cell(
                e,
                c,
                0,
                0,
            )
            &&& d.soul_privates.last().card_id == id
            &&& d.soul_privates.last().active_blueprints == 0
            &&& d.soul_privates.last().blueprints_0 == character_creation::known_bits(
                pack.blueprints@,
            )
        }),
{
    lemma_zone_is(0, 64, 0, 0);
    lemma_spawned(
        e,
        db,
        t,
        packed::macro_zone_key(0, 64, 0, 0),
        64,
        player_id,
        soul_def,
        character_creation::soul_flags(e, db, player_id, t),
    );
}

/// The blueprints of a pack are known by the bits of their ids less one, and no other
/// bit is set.
pub proof fn packs_teach_their_blueprints(ids: Seq<u16>, n: u16)
    requires
        1 <= n <= 64,
    ensures
        character_creation::known_bits(ids) & (1u64 << ((n - 1) as u64)) != 0 <==> ids.contains(n),
    decreases ids.len(),
{
    if ids.len() == 0 {
        outcomes::lemma_bit_joined(0, 0, (n - 1) as u64);
    } else {
        let init = ids.drop_last();
        packs_teach_their_blueprints(init, n);
        assert(ids[ids.len() - 1] == ids.last());
        assert(ids.contains(n) <==> init.contains(n) || ids.last() == n) by {
            if ids.contains(n) {
                let k = choose|k: int| 0 <= k < ids.len() && ids[k] == n;
                if k < init.len() {
                    assert(init[k] == n);
                }
            }
            if init.contains(n) {
                let k = choose|k: int| 0 <= k < init.len() && init[k] == n;
                assert(ids[k] == n);
            }
        }
        if 0 < ids.last() <= 64 {
            outcomes::lemma_bit_joined(
                character_creation::known_bits(init),
                (ids.last() - 1) as u64,
                (n - 1) as u64,
            );
        }
    }
}

/// The last copy of a card that a pack gives is found in the soul's inventory and
/// belongs to the soul.
pub proof fn packs_fill_the_inventory(e: Env, db: Db, soul: u32, t: u64, def: u16, n: nat)
    requires
        e.wf(),
        t < packed::TIME_RADIX,
        n > 0,
        e.loose_kinds@[1] <= e.bk.stack_state_max,
        ({
            let before = character_creation::copies_added(e, db, soul, t, def, (n - 1) as nat);
            &&& history::distinct_versions(before.cards)
            &&& spawn_takes_free_keys(
                e,
                before,
                t,
                packed::macro_zone_key(soul, 1, 0, 0),
                1,
                soul,
                def,
                0,
            )
        }),
    ensures
        ({
            let before = character_creation::copies_added(e, db, soul, t, def, (n - 1) as nat);
            let d = character_creation::copies_added(e, db, soul, t, def, n);
            history::prior_at(d.cards, cards::next_id(before), t) matches Some(c) && c.owner_id
                == soul && c.packed_definition == def && zone_is(c.macro_zone, soul, 1, 0, 0)
        }),
        character_creation::copies_added(e, db, soul, t, def, 0) == db,
{
    let before = character_creation::copies_added(e, db, soul, t, def, (n - 1) as nat);
    lemma_zone_is(soul, 1, 0, 0);
    lemma_spawned(e, before, t, packed::macro_zone_key(soul, 1, 0, 0), 1, soul, def, 0);
}

/// A player may use a pack where the bit of its id less one is among the unlocked ones and
/// the player has fewer souls than allowed; and only there.
pub proof fn packs_are_open_where_unlocked(r: Roster, player_id: u32, id: u16)
    requires
        1 <= id <= 64,
    ensures
        character_creation::ineligible(Some(r), player_id, id) is None <==> {
            &&& r.starter_packs & (1u64 << ((id - 1) as u16)) != 0
            &&& r.soul_info / 16 < r.soul_info % 16
        },
{
}

/// A soul may be moved by its player where it is alive, a soul, and neither claimed, shared
/// nor pinned; and only there.
pub proof fn free_souls_may_be_moved(e: Env, db: Db, card_id: u32, caller: u32, t: u64, c: Card)
    requires
        history::prior_at(db.cards, card_id, t) == Some(c),
        cards::player_of(e, db, card_id) == Some(caller),
    ensures
        player_dimension::movable(e, db, card_id, caller, t) is Ok <==> {
            &&& c.flags_state & e.state.dead == 0
            &&& c.packed_definition / 4096 == souls::SOUL_CARD_TYPE
            &&& cards::hold_value(e, HoldKind::SlotHold, c.flags_bk) == 0
            &&& cards::hold_value(e, HoldKind::SlotShare, c.flags_bk) == 0
            &&& cards::hold_value(e, HoldKind::PositionHold, c.flags_bk) == 0
        },
{
}

// ---- what is accepted ----------------------------------------------
/// A name is accepted where it has a character that is no space, no control character,
/// and no more than 64 bytes; and only there.
pub proof fn names_are_accepted_where_they_show(name: Seq<char>)
    ensures
        players::name_error(name) is None <==> {
            &&& exists|i: int| 0 <= i < name.len() && !players::is_space(#[trigger] name[i])
            &&& forall|i: int| 0 <= i < name.len() ==> !players::is_control(#[trigger] name[i])
            &&& players::byte_len(name) <= 64
        },
{
    if players::name_error(name) is None {
        assert(!(forall|i: int| 0 <= i < name.len() ==> players::is_space(#[trigger] name[i])));
        let i = choose|i: int| 0 <= i < name.len() && !players::is_space(#[trigger] name[i]);
        assert(!players::is_space(name[i]));
    }
}

/// Coordinates lie in a dimension where both chunk numbers lie on its grid and both cell
/// numbers below eight; and only there.
pub proof fn coordinates_lie_on_the_grid(chunk_q: i16, chunk_r: i16, local_q: u8, local_r: u8)
    ensures
        player_dimension::coords_error(chunk_q, chunk_r, local_q, local_r) is None <==> {
            let n = player_dimension::PLAYER_DIMENSION_GRID_SIZE;
            0 <= chunk_q < n && 0 <= chunk_r < n && local_q < 8 && local_r < 8
        },
{
}

/// An anchor may be handled by its player while it is alive, and by nobody else.
pub proof fn anchors_are_handled_by_their_player(e: Env, db: Db, card_id: u32, caller: u32, c: Card)
    requires
        cards::current(e, db, card_id) == Some(c),
    ensures
        mini_zone::handled(e, db, card_id, caller) is Ok <==> c.flags_state & e.state.dead == 0 && (
        match cards::player_of(e, db, card_id) {
            Some(p) => p == caller,
            None => caller == 0,
        }),
{
}

/// The player behind a connection is the one of its last session row, and nobody where it
/// has none.
pub proof fn sessions_lead_to_their_player(rows: Seq<players::PlayerSession>, caller: ConnectionId, i: int)
    requires
        0 <= i < rows.len(),
        rows[i].identity == caller,
        forall|j: int| i < j < rows.len() ==> (#[trigger] rows[j]).identity != caller,
    ensures
        players::session_player(rows, caller) == Some(rows[i].player_id),
    decreases rows.len(),
{
    if i < rows.len() - 1 {
        let init = rows.drop_last();
        assert(init[i] == rows[i]);
        assert forall|j: int| i < j < init.len() implies (#[trigger] init[j]).identity != caller by {
            assert(init[j] == rows[j]);
        }
        assert(rows[rows.len() - 1].identity != caller);
        sessions_lead_to_their_player(init, caller, i);
    }
}

/// The profile of a player shows the number of the player's phases and the earliest end
/// of them; every other profile stays.
pub proof fn profiles_show_the_summary(db: Db, player_id: u32, i: int, k: int)
    requires
        player_id != 0,
        players::profile_index(db.player_profiles, player_id) == Some(i),
        0 <= i < db.player_profiles.len(),
        0 <= k < db.player_profiles.len(),
    ensures
        ({
            let d = players::resynced(db, player_id);
            let s = lifecycle_pending::summary(db.lifecycle_pending, player_id);
            &&& d.player_profiles[i].lifecycle_count == s.0
            &&& d.player_profiles[i].earliest_lifecycle_expires_ms == s.1
            &&& d.player_profiles[i].player_id == db.player_profiles[i].player_id
            &&& k != i ==> d.player_profiles[k] == db.player_profiles[k]
            &&& d.cards == db.cards && d.lifecycle_pending == db.lifecycle_pending
        }),
{
}

/// A new player has a roster: no souls yet, room for five, and the first pack open.
pub proof fn new_players_have_a_roster(db: Db, name: String, t: u64)
    ensures
        ({
            let out = players::registered(db, name, t);
            rosters::roster_of(out.rosters, players::next_id(db)) matches Some(r) && r.player_id
                == players::next_id(db) && r.soul_info / 16 == 0 && r.soul_info % 16 == 5
                && r.starter_packs == 1
        }),
{
    let out = players::registered(db, name, t);
    assert(out.rosters.last() == rosters::fresh_roster(players::next_id(db)));
    assert(5u8 / 16 == 0 && 5u8 % 16 == 5);
}

} // verus!
