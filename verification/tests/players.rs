//! Players: names, logins, souls, characters, dimensions and mini zones.
use resonantdust::cards::cards;
use resonantdust::cards::cards::Card;
use resonantdust::cards::env::{Env, HoldKind};
use resonantdust::cards::flags::{bk_flags, state_flags};
use resonantdust::cards::gc;
use resonantdust::cards::gc::Presence;
use resonantdust::cards::micro::Micro;
use resonantdust::content::{Catalog, CardDefinition};
use resonantdust::packed;
use resonantdust::players::character_creation::{
    create_character, CharacterError, StarterItem, StarterPack,
};
use resonantdust::players::gate_api;
use resonantdust::players::lifecycle_pending;
use resonantdust::players::lifecycle_pending::{Blocked, LifecyclePending, BLOCK_GRACE_MS};
use resonantdust::players::mini_zone;
use resonantdust::players::mini_zone::MiniZoneError;
use resonantdust::players::player_dimension::{
    enter_player_dimension, exit_player_dimension, validate_target_coords, DimensionError,
};
use resonantdust::players::players;
use resonantdust::players::players::{
    ConnectionId, Player, PlayerError, PlayerProfile, PlayerSession, FIRST_PLAYER_ID,
};
use resonantdust::players::relocation;
use resonantdust::players::rosters;
use resonantdust::players::rosters::Roster;
use resonantdust::players::souls;
use resonantdust::regions::regions;
use resonantdust::regions::zones;
use resonantdust::registry::{FlagEntry, FlagShape};
use resonantdust::tables::Tables;
use resonantdust::time::TimeDrift;

fn entry(section: &str, name: &str, shape: FlagShape) -> FlagEntry {
    FlagEntry { section: section.to_string(), name: name.to_string(), shape }
}

fn flag_registry() -> Vec<FlagEntry> {
    let mut reg = Vec::new();
    let state = "cards_state";
    let bits = [
        "dead",
        "pos_need",
        "pos_want",
        "magnetic",
        "surface_locked",
        "is_owned_by_player",
        "zone_born",
    ];
    for (i, name) in bits.iter().enumerate() {
        reg.push(entry(state, name, FlagShape::Bit { bit: i as u32 }));
    }
    reg.push(entry(state, "progress_style", FlagShape::Field { shift: 8, width: 2 }));
    reg.push(entry(state, "portrait_id", FlagShape::Field { shift: 28, width: 4 }));
    let bk = "cards_bk";
    let counts = [
        "position_hold_count",
        "slot_share_count",
        "drop_hold_count",
        "slot_hold_count",
        "touch_count",
        "server_count",
        "tile_stock_0",
        "tile_stock_1",
    ];
    for (i, name) in counts.iter().enumerate() {
        reg.push(entry(bk, name, FlagShape::Field { shift: 2 * i as u32, width: 2 }));
    }
    reg.push(entry(bk, "micro_is_card", FlagShape::Bit { bit: 16 }));
    reg.push(entry(bk, "stack_state", FlagShape::Field { shift: 17, width: 2 }));
    reg.push(entry(bk, "stack_index", FlagShape::Field { shift: 19, width: 5 }));
    reg.push(entry(bk, "position_dirty", FlagShape::Bit { bit: 24 }));
    reg.push(entry(bk, "position_preserve", FlagShape::Bit { bit: 25 }));
    reg.push(entry(bk, "data_dirty", FlagShape::Bit { bit: 26 }));
    reg.push(entry(bk, "data_preserve", FlagShape::Bit { bit: 27 }));
    reg
}

const NOW: u64 = 1_000_000;
const DEAD: u32 = 1;
const OWNED: u32 = 1 << 5;
const SOUL: u16 = 0x6001;
const HUMAN: u16 = 0x6002;
const DUST: u16 = 0x2001;
const ANCHOR: u16 = 0x9001;
const ME: ConnectionId = ConnectionId { hi: 1, lo: 2 };
const OTHER: ConnectionId = ConnectionId { hi: 3, lo: 4 };

fn definition(packed: u16, key: &str) -> CardDefinition {
    CardDefinition {
        packed,
        key: key.to_string(),
        flags: 0,
        aspects: Vec::new(),
        stock: Vec::new(),
        lifecycle_recipe: None,
        magnetic_duration_ms: None,
    }
}

fn env() -> Env {
    let reg = flag_registry();
    let mut kinds = vec![0u8; 256];
    kinds[packed::WORLD_LAYER as usize] = 1;
    Env {
        now_ms: NOW,
        state: state_flags(&reg),
        bk: bk_flags(&reg),
        catalog: Catalog {
            definitions: vec![
                definition(SOUL, "player_soul"),
                definition(HUMAN, "human"),
                definition(DUST, "dust"),
                definition(ANCHOR, "camp"),
            ],
            aspects: Vec::new(),
            blueprints: Vec::new(),
            recipes: Vec::new(),
            mini_zone_type: Some(9),
        },
        loose_kinds: kinds,
        loose_rect: 2,
    }
}

fn tables() -> Tables {
    Tables {
        cards: Vec::new(),
        card_id_counter: None,
        souls: Vec::new(),
        soul_privates: Vec::new(),
        pending_actions: Vec::new(),
        lifecycle_pending: Vec::new(),
        players: Vec::new(),
        player_sessions: Vec::new(),
        player_profiles: Vec::new(),
        rosters: Vec::new(),
        player_id_counter: None,
        zones: Vec::new(),
        regions: Vec::new(),
        next_sequence: 0,
    }
}

fn put(e: &Env, tb: &mut Tables, id: u32, zone: u64, m: Micro, owner: u32, def: u16, state: u32) {
    cards::create_at(e, tb, id, 100, zone, m, owner, def, state, 0);
}

fn map(tb: &mut Tables, location: u64) {
    let mut seq = tb.next_sequence;
    let id = zones::next_zone_id(&tb.zones);
    zones::create_at(&mut tb.zones, &mut seq, id, location, packed::pack_zone_definition(7), 0, &[0; 16], 50);
    tb.next_sequence = seq;
}

/// Player `1024` behind `ME`, with a soul `10` on the world.
fn player_with_soul(e: &Env) -> Tables {
    let mut tb = tables();
    assert_eq!(players::claim_or_login(e, &mut tb, ME, "ada".to_string()), Ok(()));
    put(e, &mut tb, 10, world(), Micro::snap(2, 2, 1), FIRST_PLAYER_ID, SOUL, OWNED);
    tb
}

fn world() -> u64 {
    packed::pack_macro_zone_full(0, packed::WORLD_LAYER, 0, 0)
}

/// An overdue magnetic card of the player.
fn block(e: &Env, tb: &mut Tables) {
    put(e, tb, 900, 0, Micro::snap(0, 0, 0), FIRST_PLAYER_ID, DUST, 0);
    lifecycle_pending::install(tb, 900, 5_000, FIRST_PLAYER_ID);
    players::resync_lifecycle_summary(tb, FIRST_PLAYER_ID);
}

fn blocked(now: u64) -> Blocked {
    Blocked { card_id: 900, expires_at_ms: 5_000, overdue_ms: now - 5_000 }
}

// ---- names and sessions --------------------------------------------
#[test]
fn names_are_checked() {
    assert_eq!(players::validate_player_name("ada"), Ok(()));
    assert_eq!(players::validate_player_name(""), Err(PlayerError::NameEmpty));
    assert_eq!(players::validate_player_name(" \u{3000}\t"), Err(PlayerError::NameBlank));
    assert_eq!(players::validate_player_name("a\nb"), Err(PlayerError::NameControl));
    assert_eq!(players::validate_player_name(&"x".repeat(64)), Ok(()));
    // The bound is in bytes.
    assert_eq!(
        players::validate_player_name(&"\u{e9}".repeat(33)),
        Err(PlayerError::NameTooLong { len: 66 })
    );
}

#[test]
fn unknown_names_are_registered_and_known_ones_logged_in() {
    let e = env();
    let mut tb = tables();
    assert_eq!(players::resolve_caller(&tb, ME), Err(PlayerError::NoSession));
    assert_eq!(players::claim_or_login(&e, &mut tb, ME, "ada".to_string()), Ok(()));
    assert_eq!(players::resolve_caller(&tb, ME), Ok(FIRST_PLAYER_ID));
    let p = players::latest(&tb, FIRST_PLAYER_ID).unwrap();
    assert_eq!(p.name, "ada");
    assert_eq!(p.last_login_secs, ((NOW - 2_000) / 1000) as u32);
    assert_eq!(players::find_profile(&tb, FIRST_PLAYER_ID), Some(0));
    // The same name from another connection is the same player.
    assert_eq!(players::claim_or_login(&e, &mut tb, OTHER, "ada".to_string()), Ok(()));
    assert_eq!(players::resolve_caller(&tb, OTHER), Ok(FIRST_PLAYER_ID));
    assert_eq!(tb.player_profiles.len(), 1);
    // Another name gets a fresh id, and the connection is rebound.
    assert_eq!(players::claim_or_login(&e, &mut tb, ME, "bob".to_string()), Ok(()));
    assert_eq!(players::resolve_caller(&tb, ME), Ok(FIRST_PLAYER_ID + 1));
    players::client_disconnected(&mut tb, ME);
    assert_eq!(players::resolve_caller(&tb, ME), Err(PlayerError::NoSession));
    assert_eq!(
        players::claim_or_login(&e, &mut tb, ME, String::new()),
        Err(PlayerError::NameEmpty)
    );
}

#[test]
fn reserved_players_cannot_be_claimed() {
    let e = env();
    let mut tb = tables();
    players::create_at(&mut tb, 3, "system".to_string(), 10);
    assert_eq!(
        players::claim_or_login(&e, &mut tb, ME, "system".to_string()),
        Err(PlayerError::NameReserved)
    );
}

#[test]
fn logins_are_stamped() {
    let e = env();
    let mut tb = tables();
    assert_eq!(players::set_last_login(&e, &mut tb, ME), Err(PlayerError::NoSession));
    tb.player_sessions.push(PlayerSession { identity: ME, player_id: 2000 });
    players::create_at(&mut tb, 2000, "ada".to_string(), 10);
    assert_eq!(players::set_last_login(&e, &mut tb, ME), Ok(()));
    assert_eq!(players::latest(&tb, 2000).unwrap().last_login_secs, 998);
    players::create(&e, &mut tb, 2001, "bob".to_string());
    assert_eq!(packed::valid_at_time(players::latest(&tb, 2001).unwrap().valid_at), NOW);
    assert_eq!(players::latest_by_name(&tb, &"bob".to_string()).unwrap().player_id, 2001);
    assert!(players::latest_by_name(&tb, &"eve".to_string()).is_none());
}

#[test]
fn factions_are_two_bits() {
    let mut tb = tables();
    let missing = Err(PlayerError::PlayerNotFound { player_id: 5 });
    assert_eq!(players::set_faction(&mut tb, 5, 10, 1), missing);
    assert_eq!(gate_api::set_player_faction(&mut tb, 5, 10, 1), missing);
    players::create_at(&mut tb, 5, "ada".to_string(), 10);
    let flags = |p: Player| Player { flags: 0xF0, ..p };
    assert!(players::update_with_at(&mut tb, 5, 20, flags).is_some());
    assert!(players::update_with_at(&mut tb, 6, 20, |p: Player| p).is_none());
    assert_eq!(players::set_faction(&mut tb, 5, 30, 7), Ok(()));
    let p = players::latest(&tb, 5).unwrap();
    assert_eq!((p.flags, players::player_faction(&p)), (0xF3, 3));
    assert_eq!(gate_api::set_player_faction(&mut tb, 5, 40, 1), Ok(()));
    assert_eq!(players::player_faction(&players::latest(&tb, 5).unwrap()), 1);
    let e = env();
    assert!(players::update_with(&e, &mut tb, 5, |p: Player| p).is_some());
    let p = players::latest(&tb, 5).unwrap();
    players::write_at(&mut tb, Player { flags: 2, ..p }, NOW + 5);
    assert_eq!(players::player_faction(&players::latest(&tb, 5).unwrap()), 2);
}

// ---- souls ---------------------------------------------------------
#[test]
fn portraits_mix_time_player_and_card() {
    assert_eq!(players::pick_portrait(0, 0, 0), 0);
    assert_eq!(players::pick_portrait(0, 0x10, 3), 2);
    assert_eq!(players::pick_portrait(5 << 32, 0, 0), 5);
}

#[test]
fn starter_set_is_a_soul_a_human_and_its_loadout() {
    let e = env();
    let mut tb = tables();
    assert_eq!(players::spawn_soul_for(&e, &mut tb, 1024, 500), Ok(()));
    let soul = cards::FIRST_CARD_ID;
    let c = cards::prior_at(&tb, soul, 500).unwrap();
    assert_eq!((c.owner_id, c.packed_definition), (1024, SOUL));
    assert_eq!(c.flags_state & OWNED, OWNED);
    assert_eq!(packed::surface_of(c.macro_zone), players::PLAYER_SOUL_SURFACE);
    assert_eq!(souls::portrait_id(c.flags_state), players::pick_portrait(500, 1024, soul));
    let human = cards::prior_at(&tb, soul + 1, 500).unwrap();
    assert_eq!((human.owner_id, human.packed_definition), (soul, HUMAN));
    assert_eq!(human.macro_zone, world());
    let dust = cards::prior_at(&tb, soul + 2, 500).unwrap();
    assert_eq!((dust.owner_id, dust.packed_definition), (soul + 1, DUST));
    assert_eq!(cards::owning_player(&e, &tb, soul + 2), Some(1024));
    assert_eq!(tb.soul_privates.len(), 2);
    // The human's inventory is a region of its own that may spawn its first zone.
    let bag = packed::pack_macro_zone_full(soul + 1, packed::INVENTORY_LAYER, 0, 0);
    let (m, slot) = packed::region_of_zone(bag);
    assert_eq!(slot, 0);
    let region = regions::latest_for(&tb.regions, m).unwrap();
    assert_eq!(packed::valid_at_time(region.valid_at), 500);
    assert_eq!((region.zone_presence, region.zone_available, region.distance), (1, 0, u16::MAX));
    let mut seq = tb.next_sequence;
    regions::seed_soul_inventory_region(&mut tb.regions, &mut seq, soul + 1, 900);
    assert_eq!((tb.regions.len(), seq), (1, tb.next_sequence));
    players::give_starter_set(&e, &mut tb, 1025, 600, SOUL, HUMAN, &vec![]);
    assert_eq!(tb.cards.len(), 5);
}

#[test]
fn starter_set_needs_its_definitions() {
    let mut e = env();
    let mut tb = tables();
    e.catalog.definitions.remove(2);
    assert_eq!(players::spawn_soul_for(&e, &mut tb, 1024, 500), Err(PlayerError::NoDustDefinition));
    e.catalog.definitions.remove(1);
    assert_eq!(players::spawn_soul_for(&e, &mut tb, 1024, 500), Err(PlayerError::NoHumanDefinition));
    e.catalog.definitions.clear();
    assert_eq!(players::spawn_soul_for(&e, &mut tb, 1024, 500), Err(PlayerError::NoSoulDefinition));
    assert!(tb.cards.is_empty());
}

#[test]
fn souls_are_spawned_by_index() {
    let e = env();
    let mut tb = player_with_soul(&e);
    assert_eq!(
        players::spawn_soul(&e, &mut tb, FIRST_PLAYER_ID, 1),
        Err(PlayerError::SoulExists { owned: 1 })
    );
    assert_eq!(players::spawn_soul(&e, &mut tb, FIRST_PLAYER_ID, 2), Ok(()));
    assert_eq!(tb.cards.iter().filter(|c| packed::valid_at_time(c.valid_at) == 998_000).count(), 3);
    assert_eq!(cards::count_player_souls(&e, &tb, FIRST_PLAYER_ID), 2);
}

#[test]
fn deleting_a_player_takes_everything_they_own() {
    let e = env();
    let mut tb = player_with_soul(&e);
    put(&e, &mut tb, 11, 0, Micro::snap(0, 0, 0), 10, DUST, 0);
    put(&e, &mut tb, 12, 0, Micro::snap(0, 0, 0), 0, DUST, 0);
    players::delete_player(&e, &mut tb, FIRST_PLAYER_ID);
    assert_eq!(tb.cards.len(), 1);
    assert_eq!(tb.cards[0].card_id, 12);
    assert!(tb.players.is_empty());
    assert!(tb.player_sessions.is_empty());
}

// ---- magnetic actions ----------------------------------------------
#[test]
fn summaries_count_and_take_the_earliest() {
    let e = env();
    let mut tb = player_with_soul(&e);
    lifecycle_pending::install(&mut tb, 1, 900, FIRST_PLAYER_ID);
    lifecycle_pending::install(&mut tb, 2, 700, FIRST_PLAYER_ID);
    assert_eq!(lifecycle_pending::summarize_for_player(&tb, FIRST_PLAYER_ID), (2, 700));
    players::resync_lifecycle_summary(&mut tb, FIRST_PLAYER_ID);
    assert_eq!(
        tb.player_profiles[0],
        PlayerProfile {
            player_id: FIRST_PLAYER_ID,
            data_shard: 0,
            lifecycle_count: 2,
            earliest_lifecycle_expires_ms: 700,
        }
    );
    lifecycle_pending::remove(&mut tb, 2);
    assert_eq!(lifecycle_pending::summarize_for_player(&tb, FIRST_PLAYER_ID), (1, 900));
    // A second phase of the same card replaces the first.
    lifecycle_pending::install(&mut tb, 1, 950, FIRST_PLAYER_ID);
    assert_eq!(lifecycle_pending::summarize_for_player(&tb, FIRST_PLAYER_ID), (1, 950));
    lifecycle_pending::remove(&mut tb, 1);
    assert_eq!(lifecycle_pending::summarize_for_player(&tb, FIRST_PLAYER_ID), (0, 0));
    players::resync_lifecycle_summary(&mut tb, FIRST_PLAYER_ID);
    assert_eq!(tb.player_profiles[0].lifecycle_count, 0);
}

#[test]
fn magnetic_cards_are_pending_until_they_die() {
    let mut e = env();
    e.catalog.definitions[2].flags = e.state.magnetic;
    e.catalog.definitions[2].magnetic_duration_ms = Some(4_000);
    let mut tb = player_with_soul(&e);
    put(&e, &mut tb, 50, world(), Micro::snap(2, 2, 1), 10, DUST, 0);
    let phase =
        LifecyclePending { card_id: 50, expires_at_ms: 4_100, player_id: FIRST_PLAYER_ID };
    assert_eq!(tb.lifecycle_pending, vec![phase]);
    assert_eq!(tb.player_profiles[0].lifecycle_count, 1);
    assert_eq!(tb.player_profiles[0].earliest_lifecycle_expires_ms, 4_100);
    // Later writes of the living card leave the phase alone.
    cards::set_packed_definition(&e, &mut tb, 50, HUMAN);
    assert_eq!(tb.lifecycle_pending, vec![phase]);
    // Cards of the world are nobody's to resolve.
    put(&e, &mut tb, 51, world(), Micro::snap(3, 2, 1), 0, DUST, 0);
    assert_eq!(tb.lifecycle_pending[1].player_id, 0);
    assert_eq!(tb.player_profiles[0].lifecycle_count, 1);
    // Death ends the phase.
    let row = cards::latest(&e, &tb, 50).unwrap();
    cards::set_flags_state(&e, &mut tb, 50, row.flags_state | DEAD);
    assert_eq!(tb.lifecycle_pending.len(), 1);
    assert_eq!(tb.lifecycle_pending[0].card_id, 51);
    assert_eq!(tb.player_profiles[0].lifecycle_count, 0);
    assert_eq!(tb.player_profiles[0].earliest_lifecycle_expires_ms, 0);
}

#[test]
fn overdue_actions_block_their_player() {
    let e = env();
    let mut tb = player_with_soul(&e);
    block(&e, &mut tb);
    let id = FIRST_PLAYER_ID;
    let edge = 5_000 + BLOCK_GRACE_MS;
    // The last moment of the grace still passes.
    assert_eq!(lifecycle_pending::block_check(&mut tb, id, edge, &vec![]), Ok(()));
    let late = edge + 1;
    assert_eq!(lifecycle_pending::block_check(&mut tb, id, late, &vec![]), Err(blocked(late)));
    // A call that touches the overdue card resolves it.
    assert_eq!(lifecycle_pending::block_check(&mut tb, id, late, &vec![900]), Ok(()));
    // Another player is not concerned.
    assert_eq!(lifecycle_pending::block_check(&mut tb, id + 1, late, &vec![]), Ok(()));
}

#[test]
fn blocks_name_the_card_to_resolve() {
    let b = Blocked { card_id: 900, expires_at_ms: 5_000, overdue_ms: 10 };
    assert_eq!(b.text(), "magnetic_blocked: card_id=900; expires_at_ms=5000; overdue_ms=10");
}

#[test]
fn rows_of_vanished_cards_do_not_block() {
    let e = env();
    let mut tb = player_with_soul(&e);
    lifecycle_pending::install(&mut tb, 901, 5_000, FIRST_PLAYER_ID);
    players::resync_lifecycle_summary(&mut tb, FIRST_PLAYER_ID);
    assert_eq!(
        lifecycle_pending::block_check(&mut tb, FIRST_PLAYER_ID, NOW, &vec![]),
        Ok(())
    );
    assert!(tb.lifecycle_pending.is_empty());
    assert_eq!(tb.player_profiles[0].lifecycle_count, 0);
}

// ---- characters ----------------------------------------------------
fn packs() -> Vec<StarterPack> {
    vec![
        StarterPack {
            id: 2,
            soul: "human".to_string(),
            contents: vec![StarterItem { packed_definition: DUST, count: 3 }],
            blueprints: vec![1, 64, 65, 0],
        },
        StarterPack {
            id: 66,
            soul: "human".to_string(),
            contents: Vec::new(),
            blueprints: Vec::new(),
        },
        StarterPack {
            id: 3,
            soul: "ghost".to_string(),
            contents: Vec::new(),
            blueprints: Vec::new(),
        },
    ]
}

/// The roster of the caller, with other packs and another count.
fn roster(starter_packs: u64, soul_info: u8) -> Vec<Roster> {
    vec![Roster { player_id: FIRST_PLAYER_ID, starter_packs, soul_info }]
}

#[test]
fn characters_come_with_their_pack() {
    let e = env();
    let mut tb = tables();
    players::claim_or_login(&e, &mut tb, ME, "ada".to_string()).unwrap();
    tb.rosters = roster(2, 0x05);
    assert_eq!(create_character(&e, &mut tb, ME, NOW, &packs(), 2), Ok(()));
    let soul = cards::FIRST_CARD_ID;
    let c = cards::prior_at(&tb, soul, NOW).unwrap();
    assert_eq!((c.owner_id, c.packed_definition, c.macro_zone), (FIRST_PLAYER_ID, HUMAN, world()));
    assert_eq!(c.flags_state & OWNED, OWNED);
    assert_eq!(tb.cards.len(), 4);
    for i in 1..4 {
        let item = cards::prior_at(&tb, soul + i, NOW).unwrap();
        assert_eq!((item.owner_id, item.packed_definition), (soul, DUST));
    }
    assert_eq!(tb.soul_privates[0].blueprints_0, (1 << 63) | 1);
    assert_eq!(tb.rosters, roster(2, 0x15));
}

#[test]
fn new_players_may_use_the_first_pack() {
    let e = env();
    let mut tb = tables();
    players::claim_or_login(&e, &mut tb, ME, "ada".to_string()).unwrap();
    assert_eq!(tb.rosters, roster(1, 5));
    assert_eq!(rosters::find(&tb.rosters, FIRST_PLAYER_ID), Some(roster(1, 5)[0]));
    assert_eq!(rosters::find(&tb.rosters, FIRST_PLAYER_ID + 1), None);
    // A second login seeds nothing.
    players::claim_or_login(&e, &mut tb, ME, "ada".to_string()).unwrap();
    assert_eq!(tb.rosters.len(), 1);
    assert_eq!(
        create_character(&e, &mut tb, ME, NOW, &packs(), 2),
        Err(CharacterError::NotUnlocked { id: 2 })
    );
    let first = StarterPack { id: 1, ..packs().remove(0) };
    assert_eq!(create_character(&e, &mut tb, ME, NOW, &vec![first], 1), Ok(()));
}

#[test]
fn characters_stop_at_the_cap() {
    let e = env();
    let mut tb = tables();
    players::claim_or_login(&e, &mut tb, ME, "ada".to_string()).unwrap();
    let first = || vec![StarterPack { id: 1, ..packs().remove(0) }];
    for n in 1..6 {
        assert_eq!(create_character(&e, &mut tb, ME, NOW, &first(), 1), Ok(()));
        assert_eq!(tb.rosters, roster(1, n * 16 + 5));
        assert_eq!(cards::count_player_souls(&e, &tb, FIRST_PLAYER_ID), n as usize);
    }
    assert_eq!(
        create_character(&e, &mut tb, ME, NOW, &first(), 1),
        Err(CharacterError::AtCap { count: 5, max: 5 })
    );
    // Writing a soul again counts nothing; its death makes room.
    let soul = cards::prior_at(&tb, cards::FIRST_CARD_ID, NOW).unwrap();
    cards::write_at(&e, &mut tb, soul, NOW + 1);
    assert_eq!(tb.rosters, roster(1, 0x55));
    cards::write_at(&e, &mut tb, Card { flags_state: soul.flags_state | DEAD, ..soul }, NOW + 2);
    assert_eq!(tb.rosters, roster(1, 0x45));
    assert_eq!(cards::count_player_souls(&e, &tb, FIRST_PLAYER_ID), 4);
    assert_eq!(create_character(&e, &mut tb, ME, NOW, &first(), 1), Ok(()));
    assert_eq!(tb.rosters, roster(1, 0x55));
    // A sweep takes superseded rows, and no soul.
    gc::sweep_cards(&e, &mut tb, NOW + 3, &Presence::Recorded);
    assert_eq!(cards::count_player_souls(&e, &tb, FIRST_PLAYER_ID), 5);
}

#[test]
fn souls_count_for_the_player_who_owns_them() {
    let e = env();
    let mut tb = tables();
    let other = FIRST_PLAYER_ID + 1;
    tb.rosters = roster(1, 5);
    tb.rosters.push(Roster { player_id: other, starter_packs: 1, soul_info: 0xF5 });
    put(&e, &mut tb, 10, 0, Micro::snap(0, 0, 0), FIRST_PLAYER_ID, SOUL, OWNED);
    assert_eq!(tb.rosters[0].soul_info, 0x15);
    // A soul given away leaves one count; the full nibble of the other stays.
    let c = cards::prior_at(&tb, 10, 100).unwrap();
    cards::write_at(&e, &mut tb, Card { owner_id: other, ..c }, 200);
    assert_eq!((tb.rosters[0].soul_info, tb.rosters[1].soul_info), (0x05, 0xF5));
    // What a soul owns, and the souls of players without a roster, count nowhere.
    put(&e, &mut tb, 11, 0, Micro::snap(0, 0, 0), 10, DUST, 0);
    put(&e, &mut tb, 12, 0, Micro::snap(0, 0, 0), 4444, SOUL, OWNED);
    assert_eq!((tb.rosters[0].soul_info, tb.rosters[1].soul_info), (0x05, 0xF5));
}

#[test]
fn character_requests_are_checked() {
    let e = env();
    let mut tb = tables();
    let ask = |tb: &mut Tables, rosters: Vec<Roster>, at: u64, id: u16| {
        tb.rosters = rosters;
        create_character(&e, tb, ME, at, &packs(), id)
    };
    assert_eq!(
        ask(&mut tb, roster(6, 5), NOW, 2),
        Err(CharacterError::Caller(PlayerError::NoSession))
    );
    players::claim_or_login(&e, &mut tb, ME, "ada".to_string()).unwrap();
    assert_eq!(
        ask(&mut tb, roster(6, 5), NOW + 1, 2),
        Err(CharacterError::Time(TimeDrift::ClientAhead { by: 1 }))
    );
    assert_eq!(ask(&mut tb, roster(6, 5), NOW, 9), Err(CharacterError::NoPack { id: 9 }));
    assert_eq!(
        ask(&mut tb, vec![], NOW, 2),
        Err(CharacterError::NoProfile { player_id: FIRST_PLAYER_ID })
    );
    assert_eq!(ask(&mut tb, roster(6, 5), NOW, 66), Err(CharacterError::PackOutOfRange { id: 66 }));
    assert_eq!(ask(&mut tb, roster(1, 5), NOW, 2), Err(CharacterError::NotUnlocked { id: 2 }));
    assert_eq!(
        ask(&mut tb, roster(6, 0x33), NOW, 2),
        Err(CharacterError::AtCap { count: 3, max: 3 })
    );
    assert_eq!(ask(&mut tb, roster(6, 5), NOW, 3), Err(CharacterError::NoSoulDefinition));
    block(&e, &mut tb);
    assert_eq!(ask(&mut tb, roster(6, 5), NOW, 2), Err(CharacterError::Blocked(blocked(NOW))));
}

// ---- player dimensions ---------------------------------------------
#[test]
fn dimension_coordinates_are_bounded() {
    assert_eq!(validate_target_coords(1, 0, 7, 7), None);
    assert_eq!(
        validate_target_coords(2, 0, 0, 0),
        Some(DimensionError::ChunkOutOfRange { chunk_q: 2, chunk_r: 0 })
    );
    assert_eq!(
        validate_target_coords(0, -1, 0, 0),
        Some(DimensionError::ChunkOutOfRange { chunk_q: 0, chunk_r: -1 })
    );
    assert_eq!(
        validate_target_coords(0, 0, 8, 0),
        Some(DimensionError::CellOutOfRange { local_q: 8, local_r: 0 })
    );
}

#[test]
fn souls_enter_and_leave_their_dimension() {
    let e = env();
    let mut tb = player_with_soul(&e);
    let inside =
        packed::pack_macro_zone_full(FIRST_PLAYER_ID, packed::PLAYER_DIMENSION_LAYER, 1, 0);
    assert_eq!(
        enter_player_dimension(&e, &mut tb, ME, NOW, 10, 1, 0, 3, 4),
        Err(DimensionError::NoZone { location: inside })
    );
    map(&mut tb, inside);
    assert_eq!(enter_player_dimension(&e, &mut tb, ME, NOW, 10, 1, 0, 3, 4), Ok(()));
    let c = cards::latest(&e, &tb, 10).unwrap();
    assert_eq!(c.macro_zone, inside);
    assert_eq!(cards::micro_of(&e, &c), Micro::snap(3, 4, 0));
    let out = Micro::snap(5, 5, 1);
    assert_eq!(
        exit_player_dimension(&e, &mut tb, ME, NOW, 10, world(), Micro::deferred(1)),
        Err(DimensionError::TargetNotLoose)
    );
    assert_eq!(
        exit_player_dimension(&e, &mut tb, ME, NOW, 10, world(), out),
        Err(DimensionError::NoZone { location: world() })
    );
    map(&mut tb, world());
    put(&e, &mut tb, 50, world(), out, 0, DUST, 0);
    assert_eq!(
        exit_player_dimension(&e, &mut tb, ME, NOW, 10, world(), out),
        Err(DimensionError::Occupied)
    );
    let free = Micro::snap(6, 5, 1);
    assert_eq!(exit_player_dimension(&e, &mut tb, ME, NOW, 10, world(), free), Ok(()));
    let c = cards::latest(&e, &tb, 10).unwrap();
    assert_eq!((c.macro_zone, cards::micro_of(&e, &c)), (world(), free));
    assert_eq!(
        exit_player_dimension(&e, &mut tb, ME, NOW, 10, world(), free),
        Err(DimensionError::NotInDimension { surface: packed::WORLD_LAYER })
    );
}

#[test]
fn dimension_moves_are_checked() {
    let e = env();
    let mut tb = player_with_soul(&e);
    let enter = |tb: &mut Tables, who: ConnectionId, card: u32| {
        enter_player_dimension(&e, tb, who, NOW, card, 0, 0, 0, 0)
    };
    assert_eq!(enter(&mut tb, OTHER, 10), Err(DimensionError::Caller(PlayerError::NoSession)));
    assert_eq!(
        enter_player_dimension(&e, &mut tb, ME, 0, 10, 0, 0, 0, 0),
        Err(DimensionError::Time(TimeDrift::ClientBehind { by: NOW }))
    );
    assert_eq!(
        enter_player_dimension(&e, &mut tb, ME, NOW + 1, 10, 0, 0, 0, 0),
        Err(DimensionError::Time(TimeDrift::ClientAhead { by: 1 }))
    );
    assert_eq!(
        exit_player_dimension(&e, &mut tb, ME, NOW + 1, 10, world(), Micro::snap(0, 0, 1)),
        Err(DimensionError::Time(TimeDrift::ClientAhead { by: 1 }))
    );
    assert_eq!(enter(&mut tb, ME, 99), Err(DimensionError::SoulMissing { card_id: 99 }));
    put(&e, &mut tb, 11, 0, Micro::snap(0, 0, 0), FIRST_PLAYER_ID, SOUL, OWNED | DEAD);
    assert_eq!(enter(&mut tb, ME, 11), Err(DimensionError::SoulDead { card_id: 11 }));
    put(&e, &mut tb, 12, 0, Micro::snap(0, 0, 0), FIRST_PLAYER_ID, DUST, OWNED);
    assert_eq!(enter(&mut tb, ME, 12), Err(DimensionError::NotASoul { card_id: 12 }));
    put(&e, &mut tb, 13, 0, Micro::snap(0, 0, 0), 4444, SOUL, OWNED);
    assert_eq!(enter(&mut tb, ME, 13), Err(DimensionError::NotOwned { card_id: 13, owner: 4444 }));
    let holds = [
        (HoldKind::SlotHold, DimensionError::Claimed { card_id: 10 }),
        (HoldKind::SlotShare, DimensionError::Shared { card_id: 10 }),
        (HoldKind::PositionHold, DimensionError::PositionHeld { card_id: 10 }),
    ];
    for (k, err) in holds {
        cards::acquire_hold(&e, &mut tb, 10, 500, k);
        assert_eq!(enter(&mut tb, ME, 10), Err(err));
        cards::release_hold(&e, &mut tb, 10, 500, k);
    }
    assert_eq!(
        enter_player_dimension(&e, &mut tb, ME, NOW, 10, 5, 0, 0, 0),
        Err(DimensionError::ChunkOutOfRange { chunk_q: 5, chunk_r: 0 })
    );
    block(&e, &mut tb);
    assert_eq!(enter(&mut tb, ME, 10), Err(DimensionError::Blocked(blocked(NOW))));
}

// ---- mini zones ----------------------------------------------------
#[test]
fn mini_zone_geometry() {
    let e = env();
    assert!(mini_zone::is_mini_zone_card(&e, ANCHOR));
    assert!(!mini_zone::is_mini_zone_card(&e, 0x9002));
    assert!(!mini_zone::is_mini_zone_card(&e, DUST));
    assert_eq!(mini_zone::hex_distance((0, 0), (2, -3)), 3);
    let loc = packed::pack_macro_zone_full(0, packed::WORLD_LAYER, -1, 2);
    assert_eq!(mini_zone::global_hex(loc, 7, 1), (-1, 17));
}

#[test]
fn mini_zones_are_deployed_and_picked_up() {
    let e = env();
    let mut tb = player_with_soul(&e);
    let bag = packed::pack_macro_zone_full(10, packed::INVENTORY_LAYER, 0, 0);
    put(&e, &mut tb, 20, bag, Micro::snap(0, 0, 0), 10, ANCHOR, 0);
    map(&mut tb, world());
    let spot = Micro::snap(4, 4, 1);
    assert_eq!(mini_zone::deploy_mini_zone(&e, &mut tb, ME, 20, world(), spot), Ok(()));
    let c = cards::latest(&e, &tb, 20).unwrap();
    assert_eq!((c.macro_zone, cards::micro_of(&e, &c)), (world(), spot));
    let home = packed::pack_macro_zone_full(20, packed::MINI_ZONE_LAYER, 0, 0);
    let z = zones::latest_for(&tb.zones, home).unwrap();
    assert_eq!(z.owner_id, 20);
    // The anchor covers the hexes around it, and no tile is there yet.
    assert_eq!(mini_zone::anchor_covering_hex(&e, &tb, world(), 4, 7), Some(c));
    assert_eq!(mini_zone::anchor_covering_hex(&e, &tb, world(), 0, 0), None);
    assert_eq!(mini_zone::tile_at_anchor(&e, &tb, &c, world(), 5, 4), None);
    let mut seq = tb.next_sequence;
    zones::set_tile_at(&mut tb.zones, &mut seq, z.zone_id, NOW, 3, 4, 0x12, 1, 2);
    let (def, hex) = mini_zone::tile_at_anchor(&e, &tb, &c, world(), 5, 4).unwrap();
    assert_eq!(def, packed::pack_definition(mini_zone::TILE_TYPE, 0x12));
    assert_eq!((hex.zone_id, hex.col, hex.row, hex.owner_id), (z.zone_id, 4, 3, 20));
    // What lies inside spills out onto the anchor's cell.
    put(&e, &mut tb, 21, home, Micro::snap(1, 1, 0), 10, DUST, 0);
    assert_eq!(mini_zone::pickup_mini_zone(&e, &mut tb, ME, 20), Ok(()));
    let spilled = cards::latest(&e, &tb, 21).unwrap();
    assert_eq!((spilled.macro_zone, cards::micro_of(&e, &spilled)), (world(), spot));
    let c = cards::latest(&e, &tb, 20).unwrap();
    assert_eq!((c.macro_zone, c.owner_id), (bag, 10));
    assert_eq!(zones::latest_for(&tb.zones, home), None);
}

#[test]
fn moves_to_the_world_land_in_the_middle_of_the_cell() {
    let e = env();
    let mut tb = player_with_soul(&e);
    let bag = packed::pack_macro_zone_full(10, packed::INVENTORY_LAYER, 0, 0);
    put(&e, &mut tb, 20, bag, Micro::snap(0, 0, 0), 10, ANCHOR, 0);
    map(&mut tb, world());
    let aside = Micro::Loose { local_q: 4, local_r: 4, x: 9, y: -7, kind: 0 };
    assert_eq!(mini_zone::deploy_mini_zone(&e, &mut tb, ME, 20, world(), aside), Ok(()));
    let c = cards::latest(&e, &tb, 20).unwrap();
    assert_eq!(cards::micro_of(&e, &c), Micro::snap(4, 4, 1));
    let inside =
        packed::pack_macro_zone_full(FIRST_PLAYER_ID, packed::PLAYER_DIMENSION_LAYER, 1, 0);
    map(&mut tb, inside);
    assert_eq!(enter_player_dimension(&e, &mut tb, ME, NOW, 10, 1, 0, 3, 4), Ok(()));
    let aside = Micro::Loose { local_q: 6, local_r: 5, x: -2, y: 3, kind: 0 };
    assert_eq!(exit_player_dimension(&e, &mut tb, ME, NOW, 10, world(), aside), Ok(()));
    let c = cards::latest(&e, &tb, 10).unwrap();
    assert_eq!(cards::micro_of(&e, &c), Micro::snap(6, 5, 1));
}

#[test]
fn a_stacked_anchor_spills_onto_the_cell_of_its_stack() {
    let e = env();
    let mut tb = player_with_soul(&e);
    let home = packed::pack_macro_zone_full(20, packed::MINI_ZONE_LAYER, 0, 0);
    put(&e, &mut tb, 30, world(), Micro::snap(2, 6, 1), 10, DUST, 0);
    put(&e, &mut tb, 20, world(), Micro::Stacked { root: 30, branch: 1, index: 0 }, 10, ANCHOR, 0);
    put(&e, &mut tb, 21, home, Micro::snap(1, 1, 0), 10, DUST, 0);
    assert_eq!(mini_zone::pickup_mini_zone(&e, &mut tb, ME, 20), Ok(()));
    let c = cards::latest(&e, &tb, 21).unwrap();
    assert_eq!((c.macro_zone, cards::micro_of(&e, &c)), (world(), Micro::snap(2, 6, 1)));
    assert_eq!(cards::root_of_member(&e, &c), 0);
    // With its root gone, the stack covers the first cell of the zone.
    put(&e, &mut tb, 41, world(), Micro::Stacked { root: 99, branch: 1, index: 0 }, 10, ANCHOR, 0);
    let home = packed::pack_macro_zone_full(41, packed::MINI_ZONE_LAYER, 0, 0);
    put(&e, &mut tb, 42, home, Micro::snap(1, 1, 0), 10, DUST, 0);
    assert_eq!(mini_zone::pickup_mini_zone(&e, &mut tb, ME, 41), Ok(()));
    let c = cards::latest(&e, &tb, 42).unwrap();
    assert_eq!((c.macro_zone, cards::micro_of(&e, &c)), (world(), Micro::snap(0, 0, 1)));
}

#[test]
fn mini_zone_requests_are_checked() {
    let e = env();
    let mut tb = player_with_soul(&e);
    let bag = packed::pack_macro_zone_full(10, packed::INVENTORY_LAYER, 0, 0);
    let spot = Micro::snap(4, 4, 1);
    let deploy = |tb: &mut Tables, who: ConnectionId, card: u32, m: Micro| {
        mini_zone::deploy_mini_zone(&e, tb, who, card, world(), m)
    };
    let no_session = Err(MiniZoneError::Caller(PlayerError::NoSession));
    assert_eq!(deploy(&mut tb, OTHER, 20, spot), no_session);
    assert_eq!(mini_zone::pickup_mini_zone(&e, &mut tb, OTHER, 20), no_session);
    assert_eq!(deploy(&mut tb, ME, 20, spot), Err(MiniZoneError::AnchorMissing { card_id: 20 }));
    put(&e, &mut tb, 21, bag, Micro::snap(0, 0, 0), 10, ANCHOR, DEAD);
    assert_eq!(deploy(&mut tb, ME, 21, spot), Err(MiniZoneError::AnchorDead { card_id: 21 }));
    put(&e, &mut tb, 22, bag, Micro::snap(0, 0, 0), 0, ANCHOR, 0);
    assert_eq!(
        deploy(&mut tb, ME, 22, spot),
        Err(MiniZoneError::NotOwned { card_id: 22, owner: 0 })
    );
    put(&e, &mut tb, 23, bag, Micro::snap(0, 0, 0), 10, DUST, 0);
    assert_eq!(deploy(&mut tb, ME, 23, spot), Err(MiniZoneError::NotAMiniZone { card_id: 23 }));
    assert_eq!(
        mini_zone::pickup_mini_zone(&e, &mut tb, ME, 23),
        Err(MiniZoneError::NotAMiniZone { card_id: 23 })
    );
    put(&e, &mut tb, 24, world(), Micro::snap(1, 1, 1), 10, ANCHOR, 0);
    assert_eq!(
        deploy(&mut tb, ME, 24, spot),
        Err(MiniZoneError::WrongSurface { surface: packed::WORLD_LAYER })
    );
    put(&e, &mut tb, 20, bag, Micro::snap(0, 0, 0), 10, ANCHOR, 0);
    assert_eq!(
        mini_zone::pickup_mini_zone(&e, &mut tb, ME, 20),
        Err(MiniZoneError::WrongSurface { surface: packed::INVENTORY_LAYER })
    );
    assert_eq!(deploy(&mut tb, ME, 20, Micro::deferred(1)), Err(MiniZoneError::TargetNotLoose));
    assert_eq!(deploy(&mut tb, ME, 20, spot), Err(MiniZoneError::Unmapped { location: world() }));
    map(&mut tb, world());
    put(&e, &mut tb, 30, world(), spot, 0, DUST, 0);
    assert_eq!(deploy(&mut tb, ME, 20, spot), Err(MiniZoneError::Occupied));
    block(&e, &mut tb);
    assert_eq!(deploy(&mut tb, ME, 20, spot), Err(MiniZoneError::Blocked(blocked(NOW))));
}

#[test]
fn world_owned_anchors_have_no_soul_to_return_to() {
    let e = env();
    let mut tb = tables();
    tb.player_sessions.push(PlayerSession { identity: ME, player_id: cards::WORLD_PLAYER_ID });
    put(&e, &mut tb, 40, world(), Micro::snap(1, 1, 1), 0, ANCHOR, 0);
    assert_eq!(
        mini_zone::pickup_mini_zone(&e, &mut tb, ME, 40),
        Err(MiniZoneError::NoSoul { card_id: 40 })
    );
}

#[test]
fn cells_are_occupied_by_live_loose_cards() {
    let e = env();
    let mut tb = tables();
    put(&e, &mut tb, 1, world(), Micro::snap(3, 3, 1), 0, DUST, 0);
    put(&e, &mut tb, 2, world(), Micro::snap(4, 3, 1), 0, DUST, DEAD);
    put(&e, &mut tb, 3, world(), Micro::deferred(1), 0, DUST, 0);
    assert!(relocation::is_occupied(&e, &tb, world(), 3, 3, NOW));
    assert!(!relocation::is_occupied(&e, &tb, world(), 4, 3, NOW));
    assert!(!relocation::is_occupied(&e, &tb, world(), 0, 0, NOW));
    relocation::move_to(&e, &mut tb, 1, NOW, 5, Micro::snap(1, 1, 0));
    assert!(!relocation::is_occupied(&e, &tb, world(), 3, 3, NOW));
    let c: Card = cards::latest(&e, &tb, 1).unwrap();
    assert_eq!(c.flags_state & e.state.pos_need, 0);
}
