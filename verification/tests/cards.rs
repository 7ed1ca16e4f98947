//! Cards: placement, versions, holds, inventories, gateway calls and sweeps.
use resonantdust::cards::blueprints::{request_blueprint, BlueprintError};
use resonantdust::cards::cards;
use resonantdust::cards::cards::{Card, CardIdCounter, MicroPlace};
use resonantdust::cards::env::{
    decrement, increment, read_field, write_field, CountField, Env, HoldKind,
};
use resonantdust::cards::flags::{bk_flags, has_bk_flags, has_state_flags, state_flags};
use resonantdust::cards::gate_api;
use resonantdust::cards::gate_api::GateError;
use resonantdust::cards::gc;
use resonantdust::cards::gc::Presence;
use resonantdust::cards::micro::Micro;
use resonantdust::cards::utilities;
use resonantdust::cards::utilities::GrantError;
use resonantdust::content::{AspectValue, Catalog, CardDefinition};
use resonantdust::packed;
use resonantdust::pending_actions;
use resonantdust::pending_actions::PendingAction;
use resonantdust::players::players::{ConnectionId, Player, PlayerSession};
use resonantdust::players::souls;
use resonantdust::players::souls::{SoulPrivate, StatField, StatSlot};
use resonantdust::registry::{
    bit_mask, field_parts, flag_bit, flag_field, is_bit, is_field, FlagEntry, FlagShape,
};
use resonantdust::schedule_delete;
use resonantdust::schedule_delete::{FireAt, ScheduleDelete};
use resonantdust::tables::Tables;
use resonantdust::time::TimeDrift;

fn entry(section: &str, name: &str, shape: FlagShape) -> FlagEntry {
    FlagEntry { section: section.to_string(), name: name.to_string(), shape }
}

fn flag_registry() -> Vec<FlagEntry> {
    let mut reg = Vec::new();
    let state = "cards_state";
    let bits = [
        "dead",
        "pos_need",
        "pos_want",
        "magnetic",
        "surface_locked",
        "is_owned_by_player",
        "zone_born",
    ];
    for (i, name) in bits.iter().enumerate() {
        reg.push(entry(state, name, FlagShape::Bit { bit: i as u32 }));
    }
    reg.push(entry(state, "progress_style", FlagShape::Field { shift: 8, width: 2 }));
    reg.push(entry(state, "portrait_id", FlagShape::Field { shift: 28, width: 4 }));
    let bk = "cards_bk";
    let counts = [
        "position_hold_count",
        "slot_share_count",
        "drop_hold_count",
        "slot_hold_count",
        "touch_count",
        "server_count",
        "tile_stock_0",
        "tile_stock_1",
    ];
    for (i, name) in counts.iter().enumerate() {
        reg.push(entry(bk, name, FlagShape::Field { shift: 2 * i as u32, width: 2 }));
    }
    reg.push(entry(bk, "micro_is_card", FlagShape::Bit { bit: 16 }));
    reg.push(entry(bk, "stack_state", FlagShape::Field { shift: 17, width: 2 }));
    reg.push(entry(bk, "stack_index", FlagShape::Field { shift: 19, width: 5 }));
    reg.push(entry(bk, "position_dirty", FlagShape::Bit { bit: 24 }));
    reg.push(entry(bk, "position_preserve", FlagShape::Bit { bit: 25 }));
    reg.push(entry(bk, "data_dirty", FlagShape::Bit { bit: 26 }));
    reg.push(entry(bk, "data_preserve", FlagShape::Bit { bit: 27 }));
    reg
}

const NOW: u64 = 1_000_000;
const DEAD: u32 = 1;
const NEED: u32 = 2;
const OWNED: u32 = 1 << 5;
const SOUL: u16 = 0x6001;
const THING: u16 = 0x2001;
const CORPUS: u16 = 0x3001;
const PLAN: u16 = 0x1001;

fn definition(packed: u16, key: &str, flags: u32) -> CardDefinition {
    CardDefinition {
        packed,
        key: key.to_string(),
        flags,
        aspects: Vec::new(),
        stock: Vec::new(),
        lifecycle_recipe: None,
        magnetic_duration_ms: None,
    }
}

fn env() -> Env {
    let reg = flag_registry();
    let mut kinds = vec![0u8; 256];
    kinds[packed::WORLD_LAYER as usize] = 1;
    Env {
        now_ms: NOW,
        state: state_flags(&reg),
        bk: bk_flags(&reg),
        catalog: Catalog {
            definitions: vec![
                definition(SOUL, "soul", 0),
                definition(THING, "thing", 1 << 4),
                definition(CORPUS, "corpus", 0),
                definition(PLAN, "plan", 0),
            ],
            aspects: Vec::new(),
            blueprints: Vec::new(),
            recipes: Vec::new(),
            mini_zone_type: None,
        },
        loose_kinds: kinds,
        loose_rect: 2,
    }
}

fn tables() -> Tables {
    Tables {
        cards: Vec::new(),
        card_id_counter: None,
        souls: Vec::new(),
        soul_privates: Vec::new(),
        pending_actions: Vec::new(),
        lifecycle_pending: Vec::new(),
        players: Vec::new(),
        player_sessions: Vec::new(),
        player_profiles: Vec::new(),
        rosters: Vec::new(),
        player_id_counter: None,
        zones: Vec::new(),
        regions: Vec::new(),
        next_sequence: 0,
    }
}

fn put(e: &Env, tb: &mut Tables, id: u32, t: u64, owner: u32, def: u16, state: u32) -> Card {
    cards::create_at(e, tb, id, t, 0, Micro::snap(1, 2, 0), owner, def, state, 0)
}

/// A soul `10` of player `7` and a thing `11` of that soul.
fn household(e: &Env) -> Tables {
    let mut tb = tables();
    put(e, &mut tb, 10, 100, 7, SOUL, OWNED);
    put(e, &mut tb, 11, 100, 10, THING, 0);
    tb
}

// ---- flag registry and fields --------------------------------------
#[test]
fn registry_looks_up_by_section_and_name() {
    let reg = flag_registry();
    assert_eq!(flag_bit(&reg, "cards_state", "dead"), Some(0));
    assert_eq!(flag_bit(&reg, "cards_bk", "dead"), None);
    assert_eq!(flag_field(&reg, "cards_bk", "stack_index"), Some((19, 5)));
    assert_eq!(flag_field(&reg, "cards_state", "dead"), None);
    assert_eq!(bit_mask(&reg, "cards_state", "is_owned_by_player"), 32);
    assert_eq!(field_parts(&reg, "cards_bk", "stack_index"), (31 << 19, 19, 31));
}

#[test]
fn masks_come_from_the_registry() {
    let e = env();
    assert_eq!(e.state.dead, DEAD);
    assert_eq!(e.state.portrait_id_mask, 0xF000_0000);
    assert_eq!(e.bk.slot_hold_count_mask, 3 << 6);
    assert_eq!(e.bk.slot_hold_count_shift, 6);
    assert_eq!(e.bk.slot_hold_count_max, 3);
    assert_eq!(e.loose_kind_for_surface(packed::WORLD_LAYER), 1);
    let f = e.bk.count_field(HoldKind::Touch);
    assert_eq!(f, CountField { mask: 3 << 8, shift: 8, max: 3 });
}

#[test]
fn counts_saturate_and_undo_each_other() {
    let f = CountField { mask: 3 << 6, shift: 6, max: 3 };
    let word = 0xFFFF_FF3F;
    assert_eq!(read_field(word, f), 0);
    assert_eq!(decrement(word, f), word);
    let one = increment(word, f);
    assert_eq!(read_field(one, f), 1);
    assert_eq!(decrement(one, f), word);
    let full = write_field(word, f, 3);
    assert_eq!(increment(full, f), full);
    assert_eq!(write_field(full, f, 0), word);
}

// ---- placement -----------------------------------------------------
#[test]
fn placements_read_back() {
    let e = env();
    let loose = Micro::Loose { local_q: 3, local_r: 4, x: -5, y: 6, kind: 2 };
    let (loc, bk) = loose.apply(0xFF, &e.bk);
    assert_eq!(bk & 0xFF, 0xFF);
    assert_eq!(Micro::of(loc, bk, &e.bk), loose);
    let stacked = Micro::Stacked { root: 99, branch: 1, index: 17 };
    let (loc, bk) = stacked.apply(bk, &e.bk);
    assert_eq!(loc, 99);
    assert_eq!(Micro::of(loc, bk, &e.bk), stacked);
    assert_eq!(
        Micro::deferred(5),
        Micro::Stacked { root: 5, branch: packed::STACK_STATE_DEFERRED, index: 0 }
    );
}

#[test]
fn placing_a_card_touches_placement_bits_only() {
    let e = env();
    let mut tb = tables();
    let mut c = put(&e, &mut tb, 1, 5, 0, THING, 0);
    let before = c;
    Micro::Stacked { root: 42, branch: 2, index: 9 }.place(&e, &mut c);
    assert!(cards::micro_is_card(&e, &c));
    assert_eq!(cards::stack_branch(&e, &c), 2);
    assert_eq!(cards::stack_index(&e, &c), 9);
    assert_eq!(cards::root_of_member(&e, &c), 42);
    let stack_bits = (1 << 16) | (3 << 17) | (31 << 19);
    assert_eq!(c.flags_bk & !stack_bits, before.flags_bk & !stack_bits);
    assert_eq!(cards::root_of_member(&e, &before), 0);
    // A loose card has no root, whatever its micro location.
    Micro::snap(3, 4, 1).place(&e, &mut c);
    assert_ne!(c.micro_location, 0);
    assert_eq!(cards::root_of_member(&e, &c), 0);
}

// ---- versions ------------------------------------------------------
#[test]
fn create_adds_definition_flags_and_marks_dirty() {
    let e = env();
    let mut tb = tables();
    let c = put(&e, &mut tb, 1, 5, 0, THING, NEED);
    assert_eq!(c.flags_state, NEED | (1 << 4));
    assert_eq!(c.flags_bk & e.bk.position_dirty, e.bk.position_dirty);
    assert_eq!(c.flags_bk & e.bk.data_dirty, e.bk.data_dirty);
    assert_eq!(packed::valid_at_time(c.valid_at), 5);
}

#[test]
fn reads_are_as_of_a_time() {
    let e = env();
    let mut tb = tables();
    put(&e, &mut tb, 1, 100, 0, THING, 0);
    let mut c = cards::prior_at(&tb, 1, 100).unwrap();
    c.owner_id = 44;
    cards::write_at(&e, &mut tb, c, 200);
    assert_eq!(cards::prior_at(&tb, 1, 99), None);
    assert_eq!(cards::prior_at(&tb, 1, 199).unwrap().owner_id, 0);
    assert_eq!(cards::prior_at(&tb, 1, 200).unwrap().owner_id, 44);
    // A row stamped after now is not yet in force.
    c.owner_id = 55;
    cards::write_at(&e, &mut tb, c, NOW + 1);
    assert_eq!(cards::latest(&e, &tb, 1).unwrap().owner_id, 44);
}

#[test]
fn last_write_at_a_time_wins() {
    let e = env();
    let mut tb = tables();
    put(&e, &mut tb, 1, 100, 5, THING, 0);
    put(&e, &mut tb, 1, 100, 6, THING, 0);
    assert_eq!(tb.cards.len(), 1);
    assert_eq!(tb.cards[0].owner_id, 6);
    cards::delete_at(&mut tb, 1, 100);
    assert!(tb.cards.is_empty());
}

#[test]
fn writes_do_not_touch_other_cards() {
    let e = env();
    let mut tb = household(&e);
    let other = cards::prior_at(&tb, 10, 100).unwrap();
    cards::set_packed_definition(&e, &mut tb, 11, CORPUS);
    assert_eq!(cards::prior_at(&tb, 10, NOW), Some(other));
    assert_eq!(cards::prior_at(&tb, 11, 100).unwrap().packed_definition, THING);
    assert_eq!(cards::latest(&e, &tb, 11).unwrap().packed_definition, CORPUS);
}

#[test]
fn state_bits_carry_forward_until_they_differ() {
    let e = env();
    let mut tb = tables();
    put(&e, &mut tb, 1, 100, 0, CORPUS, 0);
    put(&e, &mut tb, 1, 200, 0, CORPUS, 0);
    put(&e, &mut tb, 1, 300, 0, CORPUS, NEED);
    put(&e, &mut tb, 1, 400, 0, CORPUS, 0);
    let mut c = cards::prior_at(&tb, 1, 100).unwrap();
    c.flags_state = NEED;
    cards::write_at(&e, &mut tb, c, 150);
    assert_eq!(cards::prior_at(&tb, 1, 100).unwrap().flags_state, 0);
    assert_eq!(cards::prior_at(&tb, 1, 200).unwrap().flags_state, NEED);
    assert_eq!(cards::prior_at(&tb, 1, 300).unwrap().flags_state, NEED);
    // The version at 300 already had the bit, so the one at 400 keeps its own.
    assert_eq!(cards::prior_at(&tb, 1, 400).unwrap().flags_state, 0);
}

#[test]
fn preserved_versions_are_passed_over() {
    let e = env();
    let mut tb = tables();
    put(&e, &mut tb, 1, 100, 0, CORPUS, 0);
    let c = cards::prior_at(&tb, 1, 100).unwrap();
    let keep = Card { flags_bk: c.flags_bk | e.bk.data_preserve, ..c };
    cards::write_at(&e, &mut tb, keep, 200);
    cards::write_at(&e, &mut tb, c, 300);
    cards::write_at(&e, &mut tb, Card { flags_state: NEED, ..c }, 150);
    assert_eq!(cards::prior_at(&tb, 1, 200).unwrap().flags_state, 0);
    assert_eq!(cards::prior_at(&tb, 1, 300).unwrap().flags_state, NEED);
}

#[test]
fn unchanged_rows_are_clean() {
    let e = env();
    let mut tb = tables();
    let c = put(&e, &mut tb, 1, 100, 0, CORPUS, 0);
    let again = cards::write_at(&e, &mut tb, c, 200);
    assert_eq!(again.flags_bk & (e.bk.position_dirty | e.bk.data_dirty), 0);
    let moved = cards::write_at(&e, &mut tb, Card { macro_zone: 9, ..c }, 300);
    assert_eq!(moved.flags_bk & e.bk.position_dirty, e.bk.position_dirty);
    assert_eq!(moved.flags_bk & e.bk.data_dirty, 0);
    // The other way round: what differs in its data alone is marked for that alone.
    let given = cards::write_at(&e, &mut tb, Card { owner_id: 4, ..moved }, 400);
    assert_eq!(given.flags_bk & (e.bk.position_dirty | e.bk.data_dirty), e.bk.data_dirty);
    let mut stacked = given;
    Micro::Stacked { root: 3, branch: 1, index: 0 }.place(&e, &mut stacked);
    let stacked = cards::write_at(&e, &mut tb, stacked, 500);
    assert_eq!(stacked.flags_bk & (e.bk.position_dirty | e.bk.data_dirty), e.bk.position_dirty);
}

#[test]
fn deferred_members_follow_their_host() {
    let e = env();
    let mut tb = tables();
    put(&e, &mut tb, 1, 100, 0, CORPUS, 0);
    cards::create_at(&e, &mut tb, 2, 100, 0, Micro::deferred(1), 0, CORPUS, 0, 0);
    let host = cards::prior_at(&tb, 1, 100).unwrap();
    cards::write_at(&e, &mut tb, Card { macro_zone: 77, ..host }, 200);
    assert_eq!(cards::prior_at(&tb, 2, 200).unwrap().macro_zone, 77);
    assert_eq!(cards::prior_at(&tb, 2, 199).unwrap().macro_zone, 0);
    cards::write_at(&e, &mut tb, Card { flags_state: DEAD, macro_zone: 77, ..host }, 300);
    assert_eq!(cards::prior_at(&tb, 2, 300).unwrap().micro_location, 0);
}

#[test]
fn edits_need_a_row_in_force() {
    let e = env();
    let mut tb = tables();
    assert_eq!(cards::set_flags_state(&e, &mut tb, 1, NEED), None);
    assert_eq!(cards::update_with(&e, &mut tb, 1, |c: Card| c), None);
    put(&e, &mut tb, 1, 100, 0, CORPUS, 0);
    let row = cards::set_flags_state(&e, &mut tb, 1, NEED).unwrap();
    assert_eq!(row.flags_state, NEED);
    assert_eq!(packed::valid_at_time(row.valid_at), NOW);
    let row = cards::update_with_at(&e, &mut tb, 1, 100, |c: Card| Card { owner_id: 3, ..c });
    assert_eq!(row.unwrap().owner_id, 3);
    let made = cards::create(&e, &mut tb, 2, 5, Micro::snap(0, 0, 0), 1, CORPUS, 0, 0);
    assert_eq!(packed::valid_at_time(made.valid_at), NOW);
}

// ---- owners --------------------------------------------------------
#[test]
fn owner_chains_end_at_a_player_the_world_or_nowhere() {
    let e = env();
    let mut tb = household(&e);
    put(&e, &mut tb, 12, 100, 11, THING, 0);
    put(&e, &mut tb, 13, 100, 0, THING, 0);
    put(&e, &mut tb, 14, 100, 999, THING, 0);
    assert_eq!(cards::owning_player(&e, &tb, 12), Some(7));
    assert_eq!(cards::owning_soul(&e, &tb, 12), Some(10));
    assert_eq!(cards::owning_soul_at(&e, &tb, 12, 99), None);
    assert_eq!(cards::owning_player(&e, &tb, 13), Some(cards::WORLD_PLAYER_ID));
    assert_eq!(cards::owning_soul(&e, &tb, 13), None);
    assert_eq!(cards::owning_player(&e, &tb, 14), None);
    assert_eq!(cards::inventory_container_for(&e, &tb, 10), 10);
    assert_eq!(cards::inventory_container_for(&e, &tb, 12), 11);
    assert_eq!(cards::inventory_container_for_at(&e, &tb, 12, 99), 0);
}

#[test]
fn ownership_cycles_are_noticed() {
    let e = env();
    let mut tb = tables();
    put(&e, &mut tb, 1, 100, 0, THING, 0);
    put(&e, &mut tb, 2, 100, 1, THING, 0);
    put(&e, &mut tb, 3, 100, 2, THING, 0);
    assert!(cards::would_cycle(&e, &tb, 1, 3));
    assert!(cards::would_cycle(&e, &tb, 1, 1));
    assert!(!cards::would_cycle(&e, &tb, 3, 1));
    assert!(!cards::would_cycle(&e, &tb, 1, 0));
    // A chain that never ends within the cap counts as a cycle.
    put(&e, &mut tb, 50, 100, 51, THING, 0);
    put(&e, &mut tb, 51, 100, 50, THING, 0);
    assert!(cards::would_cycle(&e, &tb, 60, 50));
    assert_eq!(cards::owning_player(&e, &tb, 50), None);
}

#[test]
fn souls_are_counted_once_per_player() {
    let e = env();
    let mut tb = household(&e);
    put(&e, &mut tb, 10, 200, 7, SOUL, OWNED);
    put(&e, &mut tb, 20, 100, 8, SOUL, OWNED);
    assert_eq!(cards::count_player_souls(&e, &tb, 7), 1);
    assert_eq!(cards::count_player_souls(&e, &tb, 9), 0);
}

#[test]
fn fresh_ids_come_after_every_used_one() {
    let mut tb = tables();
    let a = cards::next_card_id(&mut tb);
    assert_eq!(a, cards::FIRST_CARD_ID);
    assert_eq!(cards::next_card_id(&mut tb), a + 1);
    tb.card_id_counter = Some(CardIdCounter { id: 0, next: 5000 });
    assert_eq!(cards::next_card_id(&mut tb), 5000);
}

#[test]
fn request_times_are_bounded_by_both_clocks() {
    let e = env();
    assert_eq!(cards::effective_now_ms(&e, NOW - 10), Ok(NOW - 10));
    assert_eq!(cards::effective_now_ms(&e, NOW + 2_000), Ok(NOW));
    assert_eq!(
        cards::effective_now_ms(&e, NOW + 2_001),
        Err(TimeDrift::ClientAhead { by: 2_001 })
    );
    assert_eq!(
        cards::effective_now_ms(&e, NOW - 10_001),
        Err(TimeDrift::ClientBehind { by: 10_001 })
    );
}

// ---- holds ---------------------------------------------------------
#[test]
fn holds_reach_later_versions_and_are_given_back() {
    let e = env();
    let mut tb = tables();
    put(&e, &mut tb, 1, 100, 0, CORPUS, 0);
    put(&e, &mut tb, 1, 300, 0, CORPUS, 0);
    let count = |tb: &Tables, t: u64| {
        let c = cards::prior_at(tb, 1, t).unwrap();
        cards::hold_count(&e, HoldKind::SlotHold, c.flags_bk)
    };
    cards::acquire_hold(&e, &mut tb, 1, 200, HoldKind::SlotHold);
    assert_eq!(count(&tb, 100), 0);
    assert_eq!(count(&tb, 200), 1);
    assert_eq!(count(&tb, 300), 1);
    cards::release_hold(&e, &mut tb, 1, 400, HoldKind::SlotHold);
    assert_eq!(count(&tb, 300), 1);
    assert_eq!(count(&tb, 400), 0);
}

#[test]
fn propagation_up_and_down_is_neutral() {
    let e = env();
    let mut tb = tables();
    put(&e, &mut tb, 1, 100, 0, CORPUS, 0);
    put(&e, &mut tb, 1, 300, 0, CORPUS, 0);
    let before: Vec<Card> = tb.cards.clone();
    cards::propagate_hold_forward(&e, &mut tb, 1, 200, HoldKind::Touch, true);
    assert_eq!(tb.cards[0], before[0]);
    assert_ne!(tb.cards[1], before[1]);
    cards::propagate_hold_forward(&e, &mut tb, 1, 200, HoldKind::Touch, false);
    assert_eq!(tb.cards, before);
}

// ---- souls ---------------------------------------------------------
#[test]
fn soul_rows_mirror_their_cards() {
    let e = env();
    let mut tb = household(&e);
    let s = souls::latest(&tb, 10).unwrap();
    assert_eq!(s.owner_id, 7);
    assert_eq!(s.micro_location, packed::pack_micro_loose(1, 2, 0, 0));
    assert_eq!(souls::latest(&tb, 11), None);
    let c = cards::prior_at(&tb, 10, 100).unwrap();
    cards::write_at(&e, &mut tb, Card { macro_zone: 5, ..c }, 200);
    assert_eq!(souls::latest(&tb, 10).unwrap().macro_zone, 5);
}

#[test]
fn faculty_cards_count_toward_their_soul() {
    let e = env();
    let mut tb = household(&e);
    let slot = StatSlot { field: StatField::Stats, byte_index: 0 };
    put(&e, &mut tb, 20, 500, 10, CORPUS, 0);
    put(&e, &mut tb, 21, 500, 11, CORPUS, 0);
    assert_eq!(souls::read_slot(&tb, 10, slot), Some(2));
    let c = cards::prior_at(&tb, 20, 500).unwrap();
    cards::write_at(&e, &mut tb, Card { flags_state: DEAD, ..c }, 600);
    assert_eq!(souls::read_slot(&tb, 10, slot), Some(1));
    assert_eq!(souls::read_slot(&tb, 99, slot), None);
    souls::apply_slot_delta(&mut tb, 10, slot, 1, 700);
    assert_eq!(souls::read_slot(&tb, 10, slot), Some(2));
    souls::apply_slot_delta(&mut tb, 0, slot, 1, 700);
}

#[test]
fn stat_slots_are_named_by_faculty_and_condition() {
    let mut e = env();
    let names = ["corpus", "anima", "sollertia", "aether"];
    e.catalog.definitions.clear();
    for (i, n) in names.iter().enumerate() {
        let i = i as u16;
        e.catalog.definitions.push(definition(i, n, 0));
        e.catalog.definitions.push(definition(16 + i, &format!("{n}-"), 0));
        e.catalog.definitions.push(definition(32 + i, &format!("{n}-i"), 0));
    }
    for i in 0u8..4 {
        let at = |base: u16| souls::stat_slot_for(&e.catalog, base + i as u16);
        assert_eq!(at(0), Some(StatSlot { field: StatField::Stats, byte_index: i }));
        assert_eq!(at(16), Some(StatSlot { field: StatField::Fatigued, byte_index: i }));
        assert_eq!(at(32), Some(StatSlot { field: StatField::Injured, byte_index: i }));
    }
    assert_eq!(souls::stat_slot_for(&e.catalog, 99), None);
}

#[test]
fn soul_edits_write_versions() {
    let e = env();
    let mut tb = household(&e);
    let set = |s: souls::Soul| souls::Soul { stats: 9, ..s };
    assert_eq!(souls::update_with_at(&mut tb, 77, 500, set), None);
    let row = souls::update_with_at(&mut tb, 10, 500, set).unwrap();
    assert_eq!(row.stats, 9);
    let row = souls::update_with(&e, &mut tb, 10, |s: souls::Soul| souls::Soul { stats: 8, ..s });
    assert_eq!(packed::valid_at_time(row.unwrap().valid_at), NOW);
    let mut other = souls::latest(&tb, 10).unwrap();
    other.injured = 4;
    assert_eq!(souls::write_at(&mut tb, other, NOW).injured, 4);
    assert_eq!(souls::find_private(&tb, 10), None);
    assert_eq!(souls::private_position(&tb.soul_privates, 10), None);
}

#[test]
fn blueprint_cards_count_while_alive() {
    let e = env();
    let mut tb = household(&e);
    tb.soul_privates.push(SoulPrivate {
        card_id: 10,
        data_shard: 0,
        blueprints_0: 0,
        active_blueprints: 0,
    });
    put(&e, &mut tb, 30, 500, 10, PLAN, 0);
    assert_eq!(tb.soul_privates[0].active_blueprints, 1);
    let c = cards::prior_at(&tb, 30, 500).unwrap();
    cards::write_at(&e, &mut tb, Card { flags_state: DEAD, ..c }, 600);
    assert_eq!(tb.soul_privates[0].active_blueprints, 0);
    let prev = cards::prior_at(&tb, 30, 500);
    souls::on_card_write(&e, &mut tb, None, &prev.unwrap(), 700);
    assert_eq!(tb.soul_privates[0].active_blueprints, 1);
}

// ---- gateway calls -------------------------------------------------
#[test]
fn pending_claims_exclude_each_other() {
    let mut tb = tables();
    let bindings = vec![vec![1, 2], vec![]];
    let key = pending_actions::dedup_key(5, 9, &bindings);
    assert_eq!(gate_api::claim_pending(&mut tb, 5, 9, &bindings, 77), Ok(()));
    assert_eq!(tb.pending_actions, vec![PendingAction { dedup_key: key, completion_ms: 77 }]);
    assert_eq!(
        gate_api::claim_pending(&mut tb, 5, 9, &bindings, 78),
        Err(GateError::InFlight { dedup_key: key })
    );
    let swapped = vec![vec![2, 1], vec![]];
    assert_eq!(gate_api::claim_pending(&mut tb, 5, 9, &swapped, 78), Ok(()));
    assert_eq!(gate_api::release_pending(&mut tb, 5, 9, &bindings), Ok(()));
    assert_eq!(tb.pending_actions.len(), 1);
    assert_eq!(gate_api::claim_pending(&mut tb, 5, 9, &bindings, 79), Ok(()));
}

#[test]
fn stale_claims_are_swept() {
    let mut rows = Vec::new();
    pending_actions::install(&mut rows, 1, 1_000);
    pending_actions::install(&mut rows, 2, 2_000);
    assert!(pending_actions::is_in_flight(&rows, 1));
    pending_actions::sweep_stale(&mut rows, 301_001);
    assert!(!pending_actions::is_in_flight(&rows, 1));
    assert!(pending_actions::is_in_flight(&rows, 2));
    pending_actions::release(&mut rows, 2);
    assert!(rows.is_empty());
}

#[test]
fn hold_calls_dispatch_on_the_wire_kind() {
    let e = env();
    let mut tb = household(&e);
    let kinds = [
        HoldKind::Touch,
        HoldKind::SlotHold,
        HoldKind::SlotShare,
        HoldKind::PositionHold,
        HoldKind::DropHold,
        HoldKind::Server,
    ];
    for (i, k) in kinds.iter().enumerate() {
        assert_eq!(gate_api::acquire_hold(&e, &mut tb, 11, 500, i as u8), Ok(()));
        let c = cards::prior_at(&tb, 11, 500).unwrap();
        assert_eq!(cards::hold_count(&e, *k, c.flags_bk), 1);
        assert_eq!(gate_api::release_hold(&e, &mut tb, 11, 500, i as u8), Ok(()));
        let c = cards::prior_at(&tb, 11, 500).unwrap();
        assert_eq!(cards::hold_count(&e, *k, c.flags_bk), 0);
    }
    assert_eq!(
        gate_api::acquire_hold(&e, &mut tb, 11, 500, 6),
        Err(GateError::UnknownHold { kind: 6 })
    );
    assert_eq!(
        gate_api::release_hold(&e, &mut tb, 11, 500, 7),
        Err(GateError::UnknownHold { kind: 7 })
    );
}

#[test]
fn leases_are_exclusive_or_shared() {
    let e = env();
    let mut tb = household(&e);
    assert_eq!(gate_api::acquire_lease(&e, &mut tb, 11, 2, 500, 900), Ok(()));
    assert_eq!(
        gate_api::acquire_lease(&e, &mut tb, 11, 1, 500, 900),
        Err(GateError::Unavailable { card_id: 11, exclusive: 0, shared: 1 })
    );
    assert_eq!(gate_api::acquire_lease(&e, &mut tb, 11, 2, 500, 900), Ok(()));
    let c = cards::prior_at(&tb, 11, 500).unwrap();
    assert_eq!(cards::hold_count(&e, HoldKind::SlotShare, c.flags_bk), 2);
    // Both leases are over once the release time is reached.
    assert_eq!(gate_api::acquire_lease(&e, &mut tb, 11, 1, 900, 1200), Ok(()));
    assert_eq!(
        gate_api::acquire_lease(&e, &mut tb, 11, 2, 950, 1200),
        Err(GateError::Unavailable { card_id: 11, exclusive: 1, shared: 0 })
    );
    assert_eq!(
        gate_api::acquire_lease(&e, &mut tb, 11, 9, 950, 1200),
        Err(GateError::UnknownHold { kind: 9 })
    );
}

#[test]
fn card_calls_need_the_card() {
    let e = env();
    let mut tb = household(&e);
    let missing = Err(GateError::CardNotFound { card_id: 5 });
    assert_eq!(gate_api::move_card(&e, &mut tb, 5, 500, 1, 0, 0), missing);
    assert_eq!(gate_api::stack_card(&e, &mut tb, 5, 500, 1, 0, 1, 0, 0), missing);
    assert_eq!(gate_api::finalize_card(&e, &mut tb, 5, 500, 1), missing);
    assert_eq!(gate_api::destroy_card(&e, &mut tb, 5, 500), missing);
}

#[test]
fn moved_and_stacked_cards_need_their_position() {
    let e = env();
    let mut tb = household(&e);
    let cell = packed::pack_micro_loose(3, 4, 0, 0);
    assert_eq!(gate_api::move_card(&e, &mut tb, 11, 500, packed::WORLD_LAYER, 4097, cell), Ok(()));
    let c = cards::prior_at(&tb, 11, 500).unwrap();
    assert_eq!(c.macro_zone, packed::with_surface(4097, packed::WORLD_LAYER));
    assert_eq!(
        cards::micro_of(&e, &c),
        Micro::Loose { local_q: 3, local_r: 4, x: 0, y: 0, kind: 1 }
    );
    assert_eq!(c.flags_state & NEED, NEED);
    assert_eq!(gate_api::stack_card(&e, &mut tb, 11, 600, 1, 0, 10, 2, 40), Ok(()));
    let c = cards::prior_at(&tb, 11, 600).unwrap();
    // The stack index is capped at the field's width.
    assert_eq!(cards::micro_of(&e, &c), Micro::Stacked { root: 10, branch: 2, index: 15 });
    assert_eq!(gate_api::finalize_card(&e, &mut tb, 11, 700, 2), Ok(()));
    let c = cards::prior_at(&tb, 11, 700).unwrap();
    assert_eq!(c.flags_state & NEED, 0);
    assert_eq!(c.flags_state & e.state.progress_style_mask, 2 << 8);
    assert_eq!(gate_api::destroy_card(&e, &mut tb, 11, 800), Ok(()));
    assert_eq!(cards::prior_at(&tb, 11, 800).unwrap().flags_state & DEAD, DEAD);
    let p = gate_api::loose_placement(&e, packed::WORLD_LAYER, cell);
    assert_eq!(p, Micro::Loose { local_q: 3, local_r: 4, x: 0, y: 0, kind: 1 });
    let r = gate_api::reposition(&e, 8, p, c);
    assert_eq!((r.macro_zone, r.flags_state & NEED), (8, NEED));
    assert_eq!(gate_api::finalize(&e, 1, r).flags_state & NEED, 0);
}

#[test]
fn created_cards_start_loose_at_the_origin() {
    let e = env();
    let mut tb = household(&e);
    assert_eq!(gate_api::create_card(&e, &mut tb, 500, CORPUS, 1, 0, 10), Ok(()));
    let c = cards::prior_at(&tb, cards::FIRST_CARD_ID, 500).unwrap();
    assert_eq!((c.owner_id, c.packed_definition), (10, CORPUS));
    assert_eq!(cards::micro_of(&e, &c), Micro::snap(0, 0, 0));
}

#[test]
fn wire_stats_step_by_one() {
    let e = env();
    let mut tb = household(&e);
    assert_eq!(gate_api::set_soul_stat(&mut tb, 10, 2, 3, 5, 500), Ok(()));
    assert_eq!(souls::latest(&tb, 10).unwrap().injured, 0x0100_0000);
    // An unknown field or byte changes nothing.
    assert_eq!(gate_api::set_soul_stat(&mut tb, 10, 3, 0, 5, 500), Ok(()));
    assert_eq!(gate_api::set_soul_stat(&mut tb, 10, 0, 4, 5, 500), Ok(()));
    let s = souls::latest(&tb, 10).unwrap();
    assert_eq!((s.stats, s.fatigued, s.injured), (0, 0, 0x0100_0000));
}

#[test]
fn blueprint_unlocks_are_bits() {
    let e = env();
    let mut tb = household(&e);
    assert_eq!(
        gate_api::unlock_blueprint(&mut tb, 10, 1),
        Err(GateError::NoSoulPrivate { card_id: 10 })
    );
    assert_eq!(
        gate_api::unlock_blueprint(&mut tb, 10, 0),
        Err(GateError::BlueprintOutOfRange { blueprint_id: 0 })
    );
    assert_eq!(
        gate_api::unlock_blueprint(&mut tb, 10, 65),
        Err(GateError::BlueprintOutOfRange { blueprint_id: 65 })
    );
    tb.soul_privates.push(SoulPrivate {
        card_id: 10,
        data_shard: 0,
        blueprints_0: 0,
        active_blueprints: 0,
    });
    assert_eq!(gate_api::unlock_blueprint(&mut tb, 10, 64), Ok(()));
    assert_eq!(gate_api::unlock_blueprint(&mut tb, 10, 64), Ok(()));
    assert_eq!(gate_api::unlock_blueprint(&mut tb, 10, 1), Ok(()));
    assert_eq!(tb.soul_privates[0].blueprints_0, (1 << 63) | 1);
}

// ---- blueprints ----------------------------------------------------
fn ask(e: &Env, tb: &mut Tables, caller: u32, id: u16, max: i32, def: u16) -> Result<(), BlueprintError> {
    request_blueprint(e, tb, NOW, caller, 10, id, 1, 0, 0, max, def)
}

#[test]
fn blueprint_requests_are_checked_in_order() {
    let e = env();
    let mut tb = tables();
    assert_eq!(
        request_blueprint(&e, &mut tb, NOW + 9_000, 7, 10, 1, 1, 0, 0, 1, PLAN),
        Err(BlueprintError::Time(TimeDrift::ClientAhead { by: 9_000 }))
    );
    assert_eq!(ask(&e, &mut tb, 7, 1, 1, PLAN), Err(BlueprintError::SoulNotFound));
    put(&e, &mut tb, 10, 100, 7, SOUL, OWNED | DEAD);
    assert_eq!(ask(&e, &mut tb, 7, 1, 1, PLAN), Err(BlueprintError::SoulDead));
    put(&e, &mut tb, 10, 200, 7, THING, OWNED);
    assert_eq!(ask(&e, &mut tb, 7, 1, 1, PLAN), Err(BlueprintError::NotASoul));
    put(&e, &mut tb, 10, 300, 7, SOUL, OWNED);
    cards::acquire_hold(&e, &mut tb, 10, 400, HoldKind::SlotHold);
    assert_eq!(ask(&e, &mut tb, 7, 1, 1, PLAN), Err(BlueprintError::ExclusivelyHeld));
    cards::release_hold(&e, &mut tb, 10, 400, HoldKind::SlotHold);
    cards::acquire_hold(&e, &mut tb, 10, 400, HoldKind::SlotShare);
    assert_eq!(ask(&e, &mut tb, 7, 1, 1, PLAN), Err(BlueprintError::SharedHeld));
    cards::release_hold(&e, &mut tb, 10, 400, HoldKind::SlotShare);
    cards::acquire_hold(&e, &mut tb, 10, 400, HoldKind::PositionHold);
    assert_eq!(ask(&e, &mut tb, 7, 1, 1, PLAN), Err(BlueprintError::PositionHeld));
    cards::release_hold(&e, &mut tb, 10, 400, HoldKind::PositionHold);
    assert_eq!(ask(&e, &mut tb, 8, 1, 1, PLAN), Err(BlueprintError::NotOwner { player_id: 7 }));
    assert_eq!(ask(&e, &mut tb, 7, 0, 1, PLAN), Err(BlueprintError::ReservedId));
    assert_eq!(ask(&e, &mut tb, 7, 1, 1, 0), Err(BlueprintError::NoDefinition));
    assert_eq!(ask(&e, &mut tb, 7, 1, 1, PLAN), Err(BlueprintError::NoSoulPrivate));
    tb.soul_privates.push(SoulPrivate {
        card_id: 10,
        data_shard: 0,
        blueprints_0: 1,
        active_blueprints: 0,
    });
    assert_eq!(ask(&e, &mut tb, 7, 65, 1, PLAN), Err(BlueprintError::OutOfRange));
    assert_eq!(ask(&e, &mut tb, 7, 2, 1, PLAN), Err(BlueprintError::NotDiscovered));
    assert_eq!(ask(&e, &mut tb, 7, 1, 0, PLAN), Err(BlueprintError::NoBuilder));
    assert_eq!(ask(&e, &mut tb, 7, 1, 1, PLAN), Ok(()));
    assert_eq!(tb.soul_privates[0].active_blueprints, 1);
    assert_eq!(ask(&e, &mut tb, 7, 1, 1, PLAN), Err(BlueprintError::AtCap { active: 1 }));
    let made = cards::prior_at(&tb, cards::FIRST_CARD_ID, NOW).unwrap();
    assert_eq!((made.owner_id, made.packed_definition), (10, PLAN));
}

// ---- grants --------------------------------------------------------
#[test]
fn granted_cards_land_in_the_inventory() {
    let e = env();
    let mut tb = household(&e);
    let key = "thing".to_string();
    assert_eq!(utilities::add_card_by_key(&e, &mut tb, NOW, 10, &key), Ok(()));
    let c = cards::prior_at(&tb, cards::FIRST_CARD_ID, NOW).unwrap();
    assert_eq!(c.packed_definition, THING);
    assert_eq!(c.macro_zone, packed::pack_macro_zone_full(10, packed::INVENTORY_LAYER, 0, 0));
    assert_eq!(cards::micro_of(&e, &c), Micro::snap(0, 0, 2));
    assert_eq!(
        utilities::add_card_by_key(&e, &mut tb, NOW, 10, &"nothing".to_string()),
        Err(GrantError::UnknownCard)
    );
    assert_eq!(
        utilities::add_card(&e, &mut tb, NOW, 999, THING),
        Err(GrantError::NoPlayer { soul_card_id: 999 })
    );
    assert_eq!(
        utilities::add_card(&e, &mut tb, 0, 10, THING),
        Err(GrantError::Time(TimeDrift::ClientBehind { by: NOW }))
    );
}

#[test]
fn players_get_one_soul() {
    let e = env();
    let mut tb = tables();
    let loadout = vec![THING, CORPUS];
    assert_eq!(utilities::spawn_soul(&e, &mut tb, NOW, 7, SOUL, 0x6002, &loadout), Ok(()));
    assert_eq!(tb.cards.len(), 4);
    assert_eq!(cards::count_player_souls(&e, &tb, 7), utilities::MAX_PLAYER_SOULS);
    assert_eq!(utilities::spawn_soul(&e, &mut tb, NOW, 7, SOUL, 0x6002, &loadout), Ok(()));
    assert_eq!(tb.cards.len(), 4);
    assert_eq!(
        utilities::spawn_soul(&e, &mut tb, 0, 8, SOUL, 0x6002, &loadout),
        Err(GrantError::Time(TimeDrift::ClientBehind { by: NOW }))
    );
}

// ---- sweeps --------------------------------------------------------
fn player(id: u32, last_login_secs: u32) -> Player {
    Player {
        valid_at: packed::pack_valid_at(1, 0),
        data_shard: 0,
        player_id: id,
        name: "p".to_string(),
        last_login_secs,
        flags: 0,
    }
}

#[test]
fn dead_rows_are_kept_for_absent_owners() {
    let e = env();
    let mut tb = household(&e);
    let c = cards::prior_at(&tb, 11, 100).unwrap();
    cards::write_at(&e, &mut tb, Card { flags_state: DEAD, ..c }, 200);
    let dead = cards::prior_at(&tb, 11, 200).unwrap();
    let late = NOW + 1_000_000;
    assert!(!gc::dead_row_reapable(&e, &tb, &dead, late, &Presence::Unknown));
    assert!(!gc::dead_row_reapable(&e, &tb, &dead, late, &Presence::Recorded));
    tb.player_sessions.push(PlayerSession { identity: ConnectionId { hi: 0, lo: 1 }, player_id: 7 });
    assert!(!gc::dead_row_reapable(&e, &tb, &dead, late, &Presence::Recorded));
    tb.players.push(player(7, (late / 1000) as u32));
    assert!(!gc::dead_row_reapable(&e, &tb, &dead, late, &Presence::Recorded));
    let mut tb2 = household(&e);
    tb2.player_sessions.push(PlayerSession {
        identity: ConnectionId { hi: 0, lo: 1 },
        player_id: 7,
    });
    tb2.players.push(player(7, 1));
    assert!(gc::dead_row_reapable(&e, &tb2, &dead, late, &Presence::Recorded));
    // The grace after the login ends with its last millisecond.
    let mut tb3 = household(&e);
    tb3.player_sessions.push(PlayerSession {
        identity: ConnectionId { hi: 0, lo: 1 },
        player_id: 7,
    });
    tb3.players.push(player(7, 1_000));
    let over = 1_000_000 + gc::POST_LOGIN_GRACE_MS;
    assert!(!gc::dead_row_reapable(&e, &tb3, &dead, over - 1, &Presence::Recorded));
    assert!(gc::dead_row_reapable(&e, &tb3, &dead, over, &Presence::Recorded));
    // Past the hard cap it goes whoever owns it.
    let cap = 200 + gc::MAX_DEAD_RETENTION_MS;
    assert!(!gc::dead_row_reapable(&e, &tb, &dead, cap, &Presence::Unknown));
    assert!(gc::dead_row_reapable(&e, &tb, &dead, cap + 1, &Presence::Unknown));
}

#[test]
fn dead_world_cards_go_after_their_retention() {
    let e = env();
    let mut tb = tables();
    let c = put(&e, &mut tb, 1, 1000, 0, CORPUS, DEAD);
    let edge = 1000 + gc::WORLD_DEAD_RETENTION_MS;
    assert!(!gc::dead_row_reapable(&e, &tb, &c, edge, &Presence::Unknown));
    assert!(gc::dead_row_reapable(&e, &tb, &c, edge + 1, &Presence::Unknown));
    let held = Card { flags_bk: c.flags_bk | (1 << 6), ..c };
    assert!(!gc::dead_row_reapable(&e, &tb, &held, edge + 1, &Presence::Unknown));
}

#[test]
fn sweeping_keeps_the_newest_live_rows() {
    let e = env();
    let mut tb = household(&e);
    put(&e, &mut tb, 11, 200, 10, THING, 0);
    put(&e, &mut tb, 30, 100, 0, CORPUS, DEAD);
    gc::sweep_cards(&e, &mut tb, NOW, &Presence::Unknown);
    assert_eq!(tb.cards.len(), 2);
    assert_eq!(cards::prior_at(&tb, 30, NOW), None);
    assert_eq!(cards::prior_at(&tb, 11, 150), None);
    assert!(cards::prior_at(&tb, 11, 200).is_some());
    pending_actions::install(&mut tb.pending_actions, 5, 1);
    gc::gc_sweep(&e, &mut tb);
    assert!(tb.pending_actions.is_empty());
    assert_eq!(tb.cards.len(), 2);
    pending_actions::install(&mut tb.pending_actions, 5, 1);
    pending_actions::install(&mut tb.pending_actions, 6, NOW);
    gc::gc_sweep_with_players(&e, &mut tb);
    assert_eq!(tb.cards.len(), 2);
    assert_eq!(tb.pending_actions.len(), 1);
    assert_eq!(tb.pending_actions[0].dedup_key, 6);
}

#[test]
fn registries_are_tested_before_use() {
    assert!(has_state_flags(&flag_registry()) && has_bk_flags(&flag_registry()));
    for i in 0..flag_registry().len() {
        let mut reg = flag_registry();
        let gone = reg.remove(i);
        assert_eq!(has_state_flags(&reg), gone.section != "cards_state");
        assert_eq!(has_bk_flags(&reg), gone.section != "cards_bk");
    }
    let wide = vec![
        entry("s", "bit", FlagShape::Bit { bit: 32 }),
        entry("s", "field", FlagShape::Field { shift: 32, width: 1 }),
    ];
    assert!(!is_bit(&wide, "s", "bit") && !is_field(&wide, "s", "field"));
    assert_eq!(flag_bit(&wide, "s", "bit"), Some(32));
}

#[test]
fn layouts_are_tested_before_use() {
    assert!(env().is_valid());
    // Every surface has its loose kind.
    let mut e = env();
    e.loose_kinds.pop();
    assert!(!e.is_valid());
    // The portrait lies where souls keep it.
    let mut e = env();
    e.state.portrait_id_shift = 24;
    assert!(!e.is_valid());
    // Two counts share a bit.
    let mut e = env();
    e.bk.touch_count_mask = e.bk.server_count_mask;
    e.bk.touch_count_shift = e.bk.server_count_shift;
    assert!(!e.is_valid());
    // A mark lies in the placement.
    let mut e = env();
    e.bk.data_dirty = e.bk.micro_is_card;
    assert!(!e.is_valid());
    // A field starts outside the word.
    let mut e = env();
    e.bk.stack_index_shift = 32;
    assert!(!e.bk.is_wf());
    assert!(!e.is_valid());
}

#[test]
fn definitions_are_bounded() {
    let mut e = env();
    assert!(e.catalog.is_plainly_summable());
    e.catalog.definitions[0].aspects = vec![
        AspectValue { aspect_id: 1, value: i32::MAX - 1 },
        AspectValue { aspect_id: 2, value: -1 },
    ];
    assert!(e.catalog.is_plainly_summable());
    e.catalog.definitions[0].aspects[1].value = -2;
    assert!(!e.catalog.is_plainly_summable());
}

#[test]
fn delayed_deletes_coalesce_per_card() {
    let mut rows: Vec<ScheduleDelete> = Vec::new();
    schedule_delete::enqueue(&mut rows, 1, packed::pack_valid_at(1_000, 3), 1);
    assert_eq!(rows[0].scheduled_at, FireAt::Time { ms: 6_000 });
    schedule_delete::enqueue(&mut rows, 1, packed::pack_valid_at(2_000, 4), 2);
    schedule_delete::enqueue(&mut rows, 2, packed::pack_valid_at(2_000, 5), 3);
    assert_eq!(rows.iter().filter(|r| r.card_id == 1).count(), 1);
    assert_eq!(rows.iter().filter(|r| r.card_id == 2).count(), 1);
}

#[test]
fn delayed_deletes_drop_superseded_versions() {
    let e = env();
    let mut tb = tables();
    put(&e, &mut tb, 10, 1_000, 7, SOUL, OWNED);
    put(&e, &mut tb, 10, 2_000, 7, SOUL, OWNED);
    put(&e, &mut tb, 10, 90_000, 7, SOUL, OWNED);
    let args = ScheduleDelete { delete_id: 1, card_id: 10, scheduled_at: FireAt::Time { ms: 7_000 } };
    let mut rows = vec![args];
    schedule_delete::delete_cards(&mut tb, &mut rows, args);
    assert_eq!(cards::prior_at(&tb, 10, 1_500), None);
    assert!(cards::prior_at(&tb, 10, 2_000).is_some());
    assert!(cards::prior_at(&tb, 10, 90_000).is_some());
    schedule_delete::delete_souls(&mut tb, &mut rows, args);
    assert_eq!(tb.souls.iter().filter(|s| packed::valid_at_time(s.valid_at) == 1_000).count(), 0);
    assert!(tb.souls.iter().any(|s| packed::valid_at_time(s.valid_at) == 2_000));
}

#[test]
fn keys_tell_proposals_apart_and_stay_distinct() {
    let plain = pending_actions::dedup_key(5, 9, &vec![vec![1, 2], vec![]]);
    assert_ne!(pending_actions::dedup_key(6, 9, &vec![vec![1, 2], vec![]]), plain);
    assert_ne!(pending_actions::dedup_key(5, 8, &vec![vec![1, 2], vec![]]), plain);
    assert_ne!(pending_actions::dedup_key(5, 9, &vec![vec![1], vec![2]]), plain);

    let mut rows: Vec<PendingAction> = Vec::new();
    pending_actions::install(&mut rows, 1, 10);
    pending_actions::install(&mut rows, 2, 500_000);
    pending_actions::sweep_stale(&mut rows, 400_000);
    assert_eq!(rows, vec![PendingAction { dedup_key: 2, completion_ms: 500_000 }]);
    pending_actions::release(&mut rows, 2);
    assert!(rows.is_empty());
}
