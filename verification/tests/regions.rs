//! Regions: zones, tile-cards, stock effects, demotion, and the history kernel.
use resonantdust::cards::env::HoldKind;
use resonantdust::cards::flags::bk_flags;
use resonantdust::cards::micro::Micro;
use resonantdust::content::{Catalog, CardDefinition, StockSlot};
use resonantdust::gc_schedule;
use resonantdust::gc_schedule::GcSchedule;
use resonantdust::history;
use resonantdust::packed;
use resonantdust::regionindex;
use resonantdust::regionindex::RegionShard;
use resonantdust::regions::card_shards;
use resonantdust::regions::card_shards::CardShard;
use resonantdust::regions::cards;
use resonantdust::regions::cards::{Card, TileError};
use resonantdust::regions::demotion;
use resonantdust::regions::demotion::Demotion;
use resonantdust::regions::gate_api;
use resonantdust::regions::gc;
use resonantdust::regions::regions;
use resonantdust::regions::regions::Region;
use resonantdust::regions::tables::{Env, Tables};
use resonantdust::regions::time::effective_now_ms;
use resonantdust::regions::zones;
use resonantdust::regions::zones::{NoEmptyTile, Zone};
use resonantdust::registry::{FlagEntry, FlagShape};
use resonantdust::tables;
use resonantdust::text::append_decimal;
use resonantdust::time;
use resonantdust::time::TimeDrift;

fn entry(section: &str, name: &str, shape: FlagShape) -> FlagEntry {
    FlagEntry { section: section.to_string(), name: name.to_string(), shape }
}

fn flag_registry() -> Vec<FlagEntry> {
    let mut reg = Vec::new();
    let state = "cards_state";
    let bits = [
        "dead",
        "pos_need",
        "pos_want",
        "magnetic",
        "surface_locked",
        "is_owned_by_player",
        "zone_born",
    ];
    for (i, name) in bits.iter().enumerate() {
        reg.push(entry(state, name, FlagShape::Bit { bit: i as u32 }));
    }
    reg.push(entry(state, "progress_style", FlagShape::Field { shift: 8, width: 2 }));
    reg.push(entry(state, "portrait_id", FlagShape::Field { shift: 28, width: 4 }));
    let bk = "cards_bk";
    let counts = [
        "position_hold_count",
        "slot_share_count",
        "drop_hold_count",
        "slot_hold_count",
        "touch_count",
        "server_count",
        "tile_stock_0",
        "tile_stock_1",
    ];
    for (i, name) in counts.iter().enumerate() {
        reg.push(entry(bk, name, FlagShape::Field { shift: 2 * i as u32, width: 2 }));
    }
    reg.push(entry(bk, "micro_is_card", FlagShape::Bit { bit: 16 }));
    reg.push(entry(bk, "stack_state", FlagShape::Field { shift: 17, width: 2 }));
    reg.push(entry(bk, "stack_index", FlagShape::Field { shift: 19, width: 5 }));
    reg.push(entry(bk, "position_dirty", FlagShape::Bit { bit: 24 }));
    reg.push(entry(bk, "position_preserve", FlagShape::Bit { bit: 25 }));
    reg.push(entry(bk, "data_dirty", FlagShape::Bit { bit: 26 }));
    reg.push(entry(bk, "data_preserve", FlagShape::Bit { bit: 27 }));
    reg
}

const NOW: u64 = 1_000_000;

fn env() -> Env {
    Env { now_ms: NOW, bk: bk_flags(&flag_registry()), snap_hex: 1, blocks_demotion: 1 }
}

fn tables() -> Tables {
    Tables {
        cards: Vec::new(),
        card_id_counter: None,
        zones: Vec::new(),
        regions: Vec::new(),
        card_shards: Vec::new(),
        next_sequence: 0,
    }
}

fn world() -> u64 {
    packed::pack_macro_zone_full(0, packed::WORLD_LAYER, 0, 0)
}

/// A world zone `1` that holds tile `0x12` with stocks `(2, 1)` on cell `(4, 3)`.
fn mapped() -> Tables {
    let mut tb = tables();
    let mut seq = 0;
    zones::create_at(&mut tb.zones, &mut seq, 1, world(), packed::pack_zone_definition(7), 0, &[0; 16], 100);
    zones::set_tile_at(&mut tb.zones, &mut seq, 1, 100, 3, 4, 0x12, 2, 1);
    tb.next_sequence = seq;
    tb
}

const TILE: u16 = 0x7012;

// ---- time and sequence ---------------------------------------------
#[test]
fn timestamps_are_cut_to_milliseconds() {
    assert_eq!(time::now_ms(1_999), 1);
    assert_eq!(time::now_ms(0), 0);
    assert_eq!(time::now_ms(-999), 0);
    assert_eq!(time::now_ms(-1_000), u64::MAX);
}

#[test]
fn client_times_are_resolved() {
    assert_eq!(time::resolve(100, 90, 0), Ok(90));
    assert_eq!(time::resolve(100, 101, 0), Err(TimeDrift::ClientAhead { by: 1 }));
    assert_eq!(time::resolve(100, 101, 1), Ok(100));
    assert_eq!(time::resolve(20_001, 10_000, 0), Err(TimeDrift::ClientBehind { by: 10_001 }));
    assert_eq!(effective_now_ms(NOW, NOW + 2_000), Ok(NOW));
    assert_eq!(effective_now_ms(NOW, NOW + 2_001), Err(TimeDrift::ClientAhead { by: 2_001 }));
}

#[test]
fn refusals_give_both_clocks() {
    assert_eq!(
        TimeDrift::ClientBehind { by: 10_001 }.text(20_001, 10_000),
        "time_drift:client_behind_by=10001 (server=20001, client=10000)"
    );
    assert_eq!(
        TimeDrift::ClientAhead { by: 1 }.text(0, 1),
        "time_drift:client_ahead_by=1 (server=0, client=1)"
    );
}

#[test]
fn numbers_are_written_in_decimal() {
    for n in [0, 7, 10, 909, 1_000_000, u64::MAX] {
        let mut out = "n=".to_string();
        append_decimal(&mut out, n);
        assert_eq!(out, format!("n={n}"));
    }
}

#[test]
fn sequences_wrap() {
    let mut seq: u16 = u16::MAX;
    assert_eq!(tables::advance(&mut seq), u16::MAX);
    assert_eq!(seq, 0);
}

#[test]
fn the_sweep_schedule_is_seeded_once() {
    let mut rows: Vec<GcSchedule> = Vec::new();
    gc_schedule::init(&mut rows);
    gc_schedule::init(&mut rows);
    assert_eq!(rows, vec![GcSchedule { id: 0, interval_ms: 600_000 }]);
}

// ---- history -------------------------------------------------------
fn version(id: u16, t: u64, seq: u16, n: u32) -> CardShard {
    CardShard { valid_at: packed::pack_valid_at(t, seq), data_shard: id, ref_count: n }
}

#[test]
fn versions_are_stored_found_and_swept() {
    let mut rows: Vec<CardShard> = Vec::new();
    history::store(&mut rows, version(1, 10, 0, 1), 10);
    history::store(&mut rows, version(1, 20, 1, 2), 20);
    history::store(&mut rows, version(2, 15, 2, 9), 15);
    assert_eq!(history::find_prior_at(&rows, 1, 9), None);
    assert_eq!(history::find_prior_at(&rows, 1, 19).unwrap().ref_count, 1);
    assert_eq!(history::find_prior_at(&rows, 1, 20).unwrap().ref_count, 2);
    assert_eq!(history::find_prior_index(&rows, 2, 99), Some(2));
    assert_eq!(history::find_next_version(&rows, 1, 10), Some(1));
    assert_eq!(history::find_next_version(&rows, 1, 20), None);
    // Same id and time: the later store replaces the earlier.
    history::store(&mut rows, version(1, 20, 3, 7), 20);
    assert_eq!(rows.len(), 3);
    assert_eq!(history::max_keys(&rows)[&1], packed::pack_valid_at(20, 3));
    history::sweep(&mut rows);
    assert_eq!(rows, vec![version(2, 15, 2, 9), version(1, 20, 3, 7)]);
    history::remove_key(&mut rows, packed::pack_valid_at(15, 2));
    history::remove_version(&mut rows, 1, 20);
    assert!(rows.is_empty());
}

// ---- region index --------------------------------------------------
#[test]
fn the_latest_assignment_of_a_region_wins() {
    let mut rows: Vec<RegionShard> = Vec::new();
    assert_eq!(regionindex::shard_of(&rows, 5), None);
    regionindex::assign_region(&mut rows, 5, 1);
    regionindex::assign_region(&mut rows, 6, 2);
    regionindex::assign_region(&mut rows, 5, 3);
    assert_eq!(regionindex::shard_of(&rows, 5), Some(3));
    assert_eq!(regionindex::shard_of(&rows, 6), Some(2));
    assert_eq!(rows.len(), 2);
}

// ---- zones ---------------------------------------------------------
#[test]
fn zone_tiles_read_over_write() {
    let mut z = mapped().zones[0];
    assert_eq!(z.tile_at(3, 4), Some((0x12, 2, 1)));
    assert_eq!(z.tile_def_id_at(3, 4), Some(0x12));
    assert_eq!(z.tile_stock_at(3, 4, 0), Some(2));
    assert_eq!(z.tile_stock_at(3, 4, 2), None);
    assert_eq!(z.tile_at(8, 0), None);
    assert!(z.assign_tile(0, 0, 7, 3, 3));
    assert!(z.assign_tile_def(0, 0, 8));
    assert!(z.assign_tile_stock(0, 0, 1, 1));
    assert_eq!(z.tile_at(0, 0), Some((8, 3, 1)));
    assert!(!z.assign_tile(0, 8, 7, 3, 3));
    assert!(!z.assign_tile_def(8, 0, 7));
    assert!(!z.assign_tile_stock(0, 0, 2, 1));
    assert_eq!(z.tile_row(0).unwrap()[0], (8, 3, 1));
    assert_eq!(z.tile_row(8), None);
    let w = z.tiles();
    z.set_tiles(&[0; 16]);
    assert_eq!(z.tile_at(0, 0), Some((0, 0, 0)));
    z.set_tiles(&w);
    assert_eq!(z.tile_at(0, 0), Some((8, 3, 1)));
}

#[test]
fn zone_rows_are_versions() {
    let mut tb = mapped();
    let mut seq = tb.next_sequence;
    let rows = &mut tb.zones;
    assert_eq!(zones::next_zone_id(rows), 2);
    assert_eq!(zones::latest_for(rows, world()).unwrap().zone_id, 1);
    assert_eq!(zones::latest(rows, 9), None);
    let z = zones::set_owner_id(rows, &mut seq, NOW, 1, 55).unwrap();
    assert_eq!((z.owner_id, packed::valid_at_time(z.valid_at)), (55, NOW));
    assert_eq!(zones::set_packed_definition(rows, &mut seq, NOW, 1, 3).unwrap().packed_definition, 3);
    assert_eq!(zones::set_macro_zone(rows, &mut seq, NOW, 1, 9).unwrap().macro_zone, 9);
    assert_eq!(zones::set_macro_zone(rows, &mut seq, NOW, 7, 9), None);
    let same = |z: Zone| z;
    assert_eq!(zones::update_with(rows, &mut seq, NOW, 7, same), None);
    assert!(zones::update_with_at(rows, &mut seq, 1, NOW + 1, same).is_some());
    assert!(zones::set_tile_rows(rows, &mut seq, NOW + 2, 1, &[u64::MAX; 16]).is_some());
    assert_eq!(zones::latest(rows, 1).unwrap().tile_at(7, 7), Some((0xFFF, 3, 3)));
    let row = [(1, 0, 0); 8];
    assert_eq!(zones::set_tile_row(rows, &mut seq, NOW + 3, 1, 8, &row), None);
    assert_eq!(zones::set_tile_row(rows, &mut seq, NOW + 3, 1, 2, &row).unwrap().tile_at(2, 5), Some((1, 0, 0)));
    let made = zones::create(rows, &mut seq, NOW, 2, 4, 7, 8, &[0; 16]);
    assert_eq!((made.zone_id, made.macro_zone, made.owner_id), (2, 4, 8));
    let again = zones::write_at(rows, &mut seq, made, NOW + 9);
    assert_eq!(packed::valid_at_time(again.valid_at), NOW + 9);
}

#[test]
fn tile_writes_carry_into_rows_that_show_the_old_tile() {
    let mut tb = mapped();
    let mut seq = tb.next_sequence;
    let rows = &mut tb.zones;
    zones::set_tile(rows, &mut seq, 300, 1, 0, 0, 5, 0, 0);
    zones::set_tile(rows, &mut seq, 400, 1, 3, 4, 0x13, 0, 0);
    zones::set_tile_at(rows, &mut seq, 1, 200, 3, 4, 0x20, 3, 3);
    let at = |rows: &Vec<Zone>, t: u64| history::find_prior_at(rows, 1, t).unwrap().tile_at(3, 4);
    assert_eq!(at(rows, 100), Some((0x12, 2, 1)));
    assert_eq!(at(rows, 200), Some((0x20, 3, 3)));
    assert_eq!(at(rows, 300), Some((0x20, 3, 3)));
    assert_eq!(at(rows, 400), Some((0x13, 0, 0)));
    // Writing what is there changes nothing.
    let before = rows.clone();
    assert!(zones::set_tile_at(rows, &mut seq, 1, 250, 3, 4, 0x20, 3, 3).is_some());
    assert_eq!(*rows, before);
    assert_eq!(zones::set_tile_at(rows, &mut seq, 1, 250, 8, 4, 1, 0, 0), None);
    assert_eq!(zones::set_tile_at(rows, &mut seq, 1, 50, 3, 4, 1, 0, 0), None);
    assert!(zones::set_tile_stock_at(rows, &mut seq, 1, 500, 3, 4, 1, 2).is_some());
    assert_eq!(at(rows, 500), Some((0x13, 0, 2)));
    assert_eq!(zones::set_tile_stock_at(rows, &mut seq, 1, 500, 3, 4, 2, 2), None);
}

fn catalog() -> Catalog {
    let stock = |n: u8| StockSlot { aspect_id: 1, default: n };
    Catalog {
        definitions: vec![CardDefinition {
            packed: 0x7001,
            key: "empty".to_string(),
            flags: 0,
            aspects: Vec::new(),
            stock: vec![stock(2), stock(3)],
            lifecycle_recipe: None,
            magnetic_duration_ms: None,
        }],
        aspects: Vec::new(),
        blueprints: Vec::new(),
        recipes: Vec::new(),
        mini_zone_type: None,
    }
}

#[test]
fn seeded_zones_hold_default_stocks() {
    let c = catalog();
    assert_eq!(zones::stock_defaults_for(&c, 0x7001), (2, 3));
    assert_eq!(zones::stock_defaults_for(&c, 0x7002), (0, 0));
    let mut rows: Vec<Zone> = Vec::new();
    let mut seq = 0;
    let disk = zones::create_disk_at(&c, &mut rows, &mut seq, 9, 4, 100).unwrap();
    assert_eq!((disk.zone_id, disk.owner_id, disk.packed_definition), (1, 4, 0x70));
    assert_eq!(disk.tile_at(3, 3), Some((1, 2, 3)));
    assert_eq!(disk.tile_at(0, 0), Some((0, 0, 0)));
    let rect = zones::create_rect_at(&c, &mut rows, &mut seq, 10, 4, 100).unwrap();
    assert_eq!(rect.zone_id, 2);
    assert_eq!(rect.tile_at(0, 0), Some((1, 2, 3)));
    zones::set_tile_at(&mut rows, &mut seq, 1, 100, 0, 0, 9, 0, 0);
    let z = zones::set_tile_at_with_defaults(&c, &mut rows, &mut seq, 1, 100, 0, 0, 0x7001);
    assert_eq!(z.unwrap().tile_at(0, 0), Some((1, 2, 3)));
    let mut bare = catalog();
    bare.definitions.clear();
    assert_eq!(zones::create_disk_at(&bare, &mut rows, &mut seq, 9, 4, 100), Err(NoEmptyTile));
    assert_eq!(zones::create_rect_at(&bare, &mut rows, &mut seq, 9, 4, 100), Err(NoEmptyTile));
}

// ---- regions -------------------------------------------------------
#[test]
fn the_world_region_is_seeded_once() {
    let mut rows: Vec<Region> = Vec::new();
    let mut seq = 0;
    regions::seed_world_region(&mut rows, &mut seq, 10);
    regions::seed_world_region(&mut rows, &mut seq, 20);
    assert_eq!(rows.len(), 1);
    assert_eq!((rows[0].zone_presence, rows[0].distance), (u64::MAX, u16::MAX));
    let region = packed::pack_macro_region(0, packed::WORLD_LAYER, 0, 0);
    assert_eq!(regions::latest_for(&rows, region), Some(rows[0]));
}

#[test]
fn zones_spawn_once_within_their_region() {
    let mut regs: Vec<Region> = Vec::new();
    let mut zs: Vec<Zone> = Vec::new();
    let mut seq = 0;
    let m = packed::pack_macro_zone_full(7, packed::PLAYER_DIMENSION_LAYER, 0, 0);
    let tiles = vec![u64::MAX; 20];
    // Nothing governs the zone yet.
    assert_eq!(regions::request_zone(&mut regs, &mut zs, &mut seq, NOW, NOW, m, &tiles), Ok(()));
    assert!(zs.is_empty());
    assert_eq!(
        regions::ensure_region(&mut regs, &mut seq, NOW, NOW + 1, m, 2),
        Err(TimeDrift::ClientAhead { by: 1 })
    );
    assert_eq!(regions::ensure_region(&mut regs, &mut seq, NOW, NOW, m, 2), Ok(()));
    assert_eq!(regions::ensure_region(&mut regs, &mut seq, NOW, 0, m, 9), Ok(()));
    assert_eq!((regs.len(), regs[0].distance), (1, 2));
    assert_eq!(
        regions::request_zone(&mut regs, &mut zs, &mut seq, NOW, 0, m, &tiles),
        Err(TimeDrift::ClientBehind { by: NOW })
    );
    assert_eq!(regions::request_zone(&mut regs, &mut zs, &mut seq, NOW, NOW, m, &tiles), Ok(()));
    assert_eq!((zs.len(), zs[0].owner_id), (1, 7));
    // Tiles beyond the disk are cut away.
    assert_eq!(zs[0].tile_at(1, 1), Some((0xFFF, 3, 3)));
    assert_eq!(zs[0].tile_at(2, 2), Some((0, 0, 0)));
    let marked = regions::latest_for(&regs, regs[0].macro_region).unwrap();
    assert_eq!(marked.zone_available.count_ones(), 1);
    let before = zs.clone();
    assert_eq!(regions::request_zone(&mut regs, &mut zs, &mut seq, NOW, NOW, m, &tiles), Ok(()));
    assert_eq!(zs, before);
    // A zone out of reach is not permitted.
    let far = packed::pack_macro_zone_full(7, packed::PLAYER_DIMENSION_LAYER, 3, 3);
    assert_eq!(regions::request_zone(&mut regs, &mut zs, &mut seq, NOW, NOW, far, &tiles), Ok(()));
    assert_eq!(zs, before);
    let newest = regions::latest_for(&regs, regs[0].macro_region).unwrap();
    regions::sweep_regions(&mut regs);
    assert_eq!(regs, vec![newest]);
}

#[test]
fn shard_references_are_counted() {
    let mut rows: Vec<CardShard> = Vec::new();
    let mut seq = 0;
    card_shards::acquire_card_shard(&mut rows, &mut seq, 10, 4);
    card_shards::acquire_card_shard(&mut rows, &mut seq, 20, 4);
    assert_eq!(history::find_prior_at(&rows, 4, 20).unwrap().ref_count, 2);
    card_shards::release_card_shard(&mut rows, &mut seq, 30, 4);
    assert_eq!(history::find_prior_at(&rows, 4, 30).unwrap().ref_count, 1);
    card_shards::release_card_shard(&mut rows, &mut seq, 40, 4);
    card_shards::release_card_shard(&mut rows, &mut seq, 50, 4);
    assert_eq!(history::find_prior_at(&rows, 4, 50).map(|r| r.ref_count).unwrap_or(0), 0);
}

// ---- tile-cards ----------------------------------------------------
#[test]
fn tiles_are_promoted_once() {
    let e = env();
    let mut tb = mapped();
    let view = |tb: &Tables| cards::tile_full_view(&e, tb, packed::WORLD_LAYER, 0, 4, 3, 500);
    assert_eq!(view(&tb), Some((TILE, 2, 1)));
    assert_eq!(cards::find_tile_card_at(&e, &tb, packed::WORLD_LAYER, 0, 4, 3, 500), None);
    let c = cards::find_or_create_tile_card(&e, &mut tb, packed::WORLD_LAYER, 0, 4, 3, 500).unwrap();
    assert_eq!(c.card_id, packed::pack_card_id(packed::CARD_DB_REGIONS, 0, cards::FIRST_LOCAL));
    assert_eq!((c.packed_definition, c.macro_zone), (TILE, world()));
    assert_eq!(cards::tile_stock(&e.bk, c.flags_bk, 0), 2);
    assert_eq!(cards::tile_stock(&e.bk, c.flags_bk, 1), 1);
    assert_eq!(cards::tile_stock(&e.bk, c.flags_bk, 2), 0);
    let n = tb.cards.len();
    assert_eq!(cards::find_or_create_tile_card(&e, &mut tb, packed::WORLD_LAYER, 0, 4, 3, 500), Ok(c));
    assert_eq!(tb.cards.len(), n);
    assert_eq!(cards::find_tile_card_at(&e, &tb, packed::WORLD_LAYER, 0, 4, 3, 500), Some(c));
    // The tile-card takes priority over the zone.
    assert!(cards::set_tile_stock(&e, &mut tb, c.card_id, 500, 0, 0).is_some());
    assert_eq!(view(&tb), Some((TILE, 0, 1)));
    assert_eq!(cards::set_tile_stock(&e, &mut tb, 1, 500, 0, 0), None);
    // Once it stands in another zone, the cell has no tile-card.
    let c = cards::find_tile_card_at(&e, &tb, packed::WORLD_LAYER, 0, 4, 3, 500).unwrap();
    let away = packed::pack_macro_zone_full(0, packed::WORLD_LAYER, 1, 0);
    cards::write_at(&mut tb, Card { macro_zone: away, ..c }, 600);
    assert_eq!(cards::find_tile_card_at(&e, &tb, packed::WORLD_LAYER, 0, 4, 3, 600), None);
    assert_eq!(cards::prior_at(&tb, c.card_id, 499), None);
    let w = cards::write_tile_stock(&e.bk, 0, 1, 3);
    assert_eq!((w, cards::tile_stock(&e.bk, w, 1)), (3 << 14, 3));
}

#[test]
fn promotion_fails_without_a_tile() {
    let e = env();
    let mut tb = mapped();
    let mut promote = |zone: u64, q: u8, r: u8| {
        cards::find_or_create_tile_card(&e, &mut tb, packed::WORLD_LAYER, zone, q, r, 500)
    };
    assert_eq!(
        promote(9, 0, 0),
        Err(TileError::NoZone { location: packed::with_surface(9, packed::WORLD_LAYER) })
    );
    assert_eq!(promote(0, 8, 0), Err(TileError::OutOfRange { q: 8, r: 0 }));
    assert_eq!(promote(0, 0, 0), Err(TileError::Empty { q: 0, r: 0 }));
}

#[test]
fn tile_holds_are_exclusive() {
    let e = env();
    let mut tb = mapped();
    let w = packed::WORLD_LAYER;
    assert_eq!(cards::release_tile_hold(&e, &mut tb, w, 0, 4, 3, HoldKind::SlotHold, 500), None);
    let c = cards::acquire_tile_hold(&e, &mut tb, w, 0, 4, 3, HoldKind::SlotHold, 500).unwrap();
    assert!(gc::has_active_holds(&e.bk, c.flags_bk));
    assert_eq!(
        cards::acquire_tile_hold(&e, &mut tb, w, 0, 4, 3, HoldKind::SlotHold, 600),
        Err(TileError::AlreadyHeld { q: 4, r: 3 })
    );
    assert!(cards::acquire_tile_hold(&e, &mut tb, w, 0, 4, 3, HoldKind::SlotShare, 600).is_ok());
    assert!(cards::release_tile_hold(&e, &mut tb, w, 0, 4, 3, HoldKind::SlotShare, 600).is_some());
    let c = cards::release_tile_hold(&e, &mut tb, w, 0, 4, 3, HoldKind::SlotHold, 600).unwrap();
    assert!(!gc::has_active_holds(&e.bk, c.flags_bk));
}

#[test]
fn tile_card_rows_are_versions() {
    let e = env();
    let mut tb = tables();
    let id = cards::next_card_id(&mut tb);
    assert_eq!(cards::next_card_id(&mut tb), id + 1);
    let c = cards::create_at(&e, &mut tb, id, 100, world(), Micro::snap(1, 2, 1), 0, TILE, 0, 0);
    assert_eq!(packed::micro_loose_cell(c.micro_location), (1, 2));
    let d = cards::write_at(&mut tb, Card { owner_id: 6, ..c }, 200);
    assert_eq!(d.owner_id, 6);
    let f = |c: Card| Card { owner_id: 7, ..c };
    assert_eq!(cards::update_with_at(&mut tb, id, 300, f).unwrap().owner_id, 7);
    assert_eq!(cards::update_with_at(&mut tb, 5, 300, f), None);
    assert_eq!(cards::prior_at(&tb, id, 299).unwrap().owner_id, 6);
}

// ---- stock effects -------------------------------------------------
#[test]
fn stock_operations_stay_in_range() {
    assert_eq!(gate_api::apply_stock_op(2, gate_api::STOCK_SUB, 1), Some(1));
    assert_eq!(gate_api::apply_stock_op(2, gate_api::STOCK_SUB, 9), Some(0));
    assert_eq!(gate_api::apply_stock_op(2, gate_api::STOCK_ADD, 9), Some(3));
    assert_eq!(gate_api::apply_stock_op(2, gate_api::STOCK_SET, 9), Some(3));
    assert_eq!(gate_api::apply_stock_op(2, 3, 1), None);
}

#[test]
fn stock_effects_promote_and_write() {
    let e = env();
    let mut tb = mapped();
    let w = packed::WORLD_LAYER;
    assert_eq!(gate_api::modify_tile_stock(&e, &mut tb, 500, w, 0, 4, 3, 0, 0, 1), Ok(()));
    assert_eq!(cards::tile_full_view(&e, &tb, w, 0, 4, 3, 500), Some((TILE, 1, 1)));
    let n = tb.cards.len();
    assert_eq!(
        gate_api::modify_tile_stock(&e, &mut tb, 500, w, 0, 4, 3, 0, 7, 1),
        Err(TileError::UnknownOp { op: 7 })
    );
    assert_eq!(
        gate_api::modify_tile_stock(&e, &mut tb, 500, w, 0, 0, 0, 0, 0, 1),
        Err(TileError::Empty { q: 0, r: 0 })
    );
    assert_eq!(tb.cards.len(), n);
    assert_eq!(gate_api::set_tile(&mut tb, 1, 500, 0, 0, 5, 1, 1), Ok(()));
    assert_eq!(zones::latest(&tb.zones, 1).unwrap().tile_at(0, 0), Some((5, 1, 1)));
    assert_eq!(
        gate_api::set_tile(&mut tb, 9, 500, 0, 0, 5, 1, 1),
        Err(TileError::NoTile { zone_id: 9 })
    );
}

// ---- demotion ------------------------------------------------------
#[test]
fn tile_cards_at_rest_fold_back() {
    let e = env();
    let mut tb = mapped();
    let w = packed::WORLD_LAYER;
    gate_api::modify_tile_stock(&e, &mut tb, 500, w, 0, 4, 3, 0, 0, 2).unwrap();
    gc::sweep_tile_card_demotions(&e, &mut tb);
    assert!(tb.cards.is_empty());
    assert_eq!(zones::latest(&tb.zones, 1).unwrap().tile_at(3, 4), Some((0x12, 0, 1)));
    assert_eq!(cards::tile_full_view(&e, &tb, w, 0, 4, 3, NOW), Some((TILE, 0, 1)));
}

#[test]
fn tile_cards_in_use_stay() {
    let e = env();
    let w = packed::WORLD_LAYER;
    let mut tb = mapped();
    cards::acquire_tile_hold(&e, &mut tb, w, 0, 4, 3, HoldKind::Touch, 500).unwrap();
    gc::gc_sweep(&e, &mut tb);
    assert_eq!(tb.cards.len(), 1);
    assert_eq!(tb.zones.len(), 1);
    // A blocked state, or a future row, keeps a tile-card too.
    let mut tb = mapped();
    let c = cards::find_or_create_tile_card(&e, &mut tb, w, 0, 4, 3, 500).unwrap();
    cards::write_at(&mut tb, Card { flags_state: 1, ..c }, 600);
    gc::sweep_tile_card_demotions(&e, &mut tb);
    assert_eq!(tb.cards.len(), 2);
    let mut tb = mapped();
    cards::find_or_create_tile_card(&e, &mut tb, w, 0, 4, 3, NOW + 1).unwrap();
    gc::sweep_tile_card_demotions(&e, &mut tb);
    assert_eq!(tb.cards.len(), 1);
}

#[test]
fn folds_go_zone_by_zone() {
    let mut tb = mapped();
    let mut seq = tb.next_sequence;
    let cell = |zone_id: u32, card_id: u32, row: u8, col: u8, at: u64| Demotion {
        zone_id,
        card_id,
        row,
        col,
        tile: (card_id as u16, 1, 1),
        at,
    };
    let e = env();
    let mut made = tables();
    for id in [11, 12, 13] {
        cards::create_at(&e, &mut made, id, 100, world(), Micro::snap(0, 0, 1), 0, TILE, 0, 0);
    }
    let ds = vec![cell(1, 11, 0, 0, 600), cell(9, 12, 0, 0, 600), cell(1, 13, 8, 0, 700)];
    demotion::demote(&mut made.cards, &mut tb.zones, &mut seq, &ds);
    // Zone 9 does not exist, so card 12 stays.
    assert_eq!(made.cards.len(), 1);
    assert_eq!(made.cards[0].card_id, 12);
    let z = zones::latest(&tb.zones, 1).unwrap();
    assert_eq!(packed::valid_at_time(z.valid_at), 700);
    assert_eq!(z.tile_at(0, 0), Some((11, 1, 1)));
    assert!(!demotion::fold_tiles_at(&mut tb.zones, &mut seq, 9, 800, &ds));
    assert!(demotion::fold_tiles_at(&mut tb.zones, &mut seq, 1, 800, &ds));
}
