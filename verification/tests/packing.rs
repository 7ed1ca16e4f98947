//! Packed words: timestamps, location keys, ids, definitions, tiles and stats.
use resonantdust::packed;
use resonantdust::players::players::{player_faction, Player};
use resonantdust::players::souls::{
    apply_delta_to_soul, is_blueprint_card, is_soul_card, pack_quad, portrait_id, quad_get,
    quad_set, unpack_quad, with_portrait, Soul, StatField, StatSlot, FLAG_PORTRAIT_MASK,
};
use resonantdust::tile_words;

#[test]
fn quad_pack_round_trip() {
    let v = pack_quad(1, 2, 3, 4);
    assert_eq!(unpack_quad(v), (1, 2, 3, 4));
}

#[test]
fn quad_get_set() {
    let v = pack_quad(10, 20, 30, 40);
    assert_eq!(quad_get(v, 0), 10);
    assert_eq!(quad_get(v, 1), 20);
    assert_eq!(quad_get(v, 2), 30);
    assert_eq!(quad_get(v, 3), 40);
    let v2 = quad_set(v, 1, 99);
    assert_eq!(quad_get(v2, 1), 99);
    assert_eq!(quad_get(v2, 0), 10);
    assert_eq!(quad_get(v2, 2), 30);
}

#[test]
fn portrait_round_trip_and_isolation() {
    // Each portrait id reads back through the high nibble.
    for id in 0u8..16 {
        assert_eq!(portrait_id(with_portrait(0, id)), id);
    }
    // Overlay onto an existing flag word leaves the lower bits alone.
    let base: u32 = (1 << 12) | (1 << 20) | 0b111 << 8;
    let v = with_portrait(base, 0xA);
    assert_eq!(portrait_id(v), 0xA);
    assert_eq!(v & !FLAG_PORTRAIT_MASK, base);
    // Out-of-range ids truncate to the low nibble.
    assert_eq!(portrait_id(with_portrait(0, 0xFF)), 0xF);
}

#[test]
fn quad_bytes_are_little_endian() {
    assert_eq!(pack_quad(1, 2, 3, 4), 0x0403_0201);
    assert_eq!(quad_set(0x0403_0201, 3, 0xFF), 0xFF03_0201);
}

#[test]
fn stat_steps_saturate_and_stay_in_their_byte() {
    let mut s = Soul {
        valid_at: 0,
        data_shard: 0,
        card_id: 1,
        owner_id: 2,
        macro_zone: 0,
        micro_location: 0,
        stats: pack_quad(10, 250, 3, 4),
        fatigued: 7,
        injured: 9,
    };
    apply_delta_to_soul(&mut s, StatSlot { field: StatField::Stats, byte_index: 1 }, 10);
    assert_eq!(unpack_quad(s.stats), (10, 251, 3, 4));
    // Only the sign of the delta counts.
    apply_delta_to_soul(&mut s, StatSlot { field: StatField::Stats, byte_index: 2 }, -128);
    assert_eq!(unpack_quad(s.stats), (10, 251, 2, 4));
    s.stats = pack_quad(255, 0, 0, 0);
    apply_delta_to_soul(&mut s, StatSlot { field: StatField::Stats, byte_index: 0 }, 1);
    apply_delta_to_soul(&mut s, StatSlot { field: StatField::Stats, byte_index: 1 }, -1);
    assert_eq!(unpack_quad(s.stats), (255, 0, 0, 0));
    apply_delta_to_soul(&mut s, StatSlot { field: StatField::Fatigued, byte_index: 0 }, 1);
    assert_eq!(s.fatigued, 8);
    apply_delta_to_soul(&mut s, StatSlot { field: StatField::Injured, byte_index: 3 }, 1);
    assert_eq!(s.injured, 0x0100_0009);
}

#[test]
fn card_types_are_read_from_the_definition() {
    assert!(is_soul_card(packed::pack_definition(6, 3)));
    assert!(!is_soul_card(packed::pack_definition(1, 3)));
    assert!(is_blueprint_card(packed::pack_definition(1, 3)));
    assert!(!is_blueprint_card(packed::pack_definition(6, 3)));
}

#[test]
fn faction_is_the_low_two_bits() {
    let p = Player {
        valid_at: 0,
        data_shard: 0,
        player_id: 1024,
        name: "a".to_string(),
        last_login_secs: 0,
        flags: 0b1110,
    };
    assert_eq!(player_faction(&p), 2);
}

#[test]
fn valid_at_packs_time_over_sequence() {
    let v = packed::pack_valid_at(5, 7);
    assert_eq!(v, 5 * 65536 + 7);
    assert_eq!(packed::valid_at_time(v), 5);
    // Later times order after earlier ones whatever the sequence.
    assert!(packed::pack_valid_at(6, 0) > packed::pack_valid_at(5, 65535));
}

#[test]
fn location_key_round_trip() {
    let m = packed::pack_macro_zone_full(77, packed::WORLD_LAYER, -3, 2047);
    assert_eq!(m, (77u64 << 32) | (64u64 << 24) | (0xFFDu64 << 12) | 0x7FF);
    assert_eq!(packed::owner_of(m), 77);
    assert_eq!(packed::surface_of(m), 64);
    assert_eq!(packed::unpack_macro_zone(m), (-3, 2047));
    assert_eq!(packed::pack_macro_zone(1, 1), 4097);
    let on = packed::with_surface(m, 1);
    assert_eq!(packed::surface_of(on), 1);
    assert_eq!(packed::owner_of(on), 77);
    assert_eq!(packed::unpack_macro_zone(on), (-3, 2047));
}

#[test]
fn loose_cell_round_trip() {
    let m = packed::pack_micro_loose(7, 5, -1, 2047);
    assert_eq!(packed::unpack_micro_loose(m), (7, 5, -1, 2047));
    assert_eq!(packed::micro_loose_cell(m), (7, 5));
    assert_eq!(packed::pack_micro_loose(1, 0, 0, 0), 1 << 29);
}

#[test]
fn card_id_round_trip() {
    let id = packed::pack_card_id(packed::CARD_DB_REGIONS, 5, 1024);
    assert_eq!(id, (1 << 31) | (5 << 20) | 1024);
    assert_eq!(packed::card_local_of(id), 1024);
    assert_eq!(packed::card_shard_of(id), 5);
}

#[test]
fn definition_round_trip() {
    assert_eq!(packed::pack_definition(7, 0x123), 0x7123);
    assert_eq!(packed::unpack_definition(0x7123), (7, 0x123));
    assert_eq!(packed::unpack_zone_definition(packed::pack_zone_definition(7)), 7);
}

#[test]
fn region_slot_round_trip() {
    for slot in 0u8..49 {
        let (q, r) = packed::zone_of_region_slot(-1, 2, slot);
        let m = packed::pack_macro_zone_full(0, packed::WORLD_LAYER, q, r);
        let (region, back) = packed::region_of_zone(m);
        assert_eq!(back, slot);
        assert_eq!(region, packed::pack_macro_region(0, packed::WORLD_LAYER, -1, 2));
    }
    assert_eq!(packed::world_tile(-2, 3), -2 * packed::ZONE_SIZE + 3);
}

#[test]
fn tile_lanes_do_not_touch_each_other() {
    let mut words = [0u64; 16];
    tile_words::set_tile_full(&mut words, 10, 0xABC, 2, 3);
    tile_words::set_tile_full(&mut words, 11, 0x123, 1, 0);
    assert_eq!(tile_words::tile_full(&words, 10), (0xABC, 2, 3));
    assert_eq!(tile_words::tile_full(&words, 11), (0x123, 1, 0));
    assert_eq!(tile_words::tile_full(&words, 12), (0, 0, 0));
    tile_words::set_tile_stock(&mut words, 10, 1, 1);
    assert_eq!(tile_words::tile_full(&words, 10), (0xABC, 2, 1));
    assert_eq!(tile_words::tile_def_id(&words, 10), 0xABC);
    assert_eq!(tile_words::tile_stock(&words, 10, 0), 2);
    assert_eq!(tile_words::tile_slot(2, 1), 10);
}

#[test]
fn tile_rows_read_back() {
    let mut words = [u64::MAX; 16];
    let row: [tile_words::Tile; 8] =
        [(1, 0, 0), (2, 1, 0), (3, 2, 0), (4, 3, 0), (5, 0, 1), (6, 0, 2), (7, 0, 3), (8, 3, 3)];
    tile_words::set_tile_row(&mut words, 4, &row);
    assert_eq!(tile_words::tile_row(&words, 4), row);
    assert_eq!(tile_words::tile_full(&words, 31), (0xFFF, 3, 3));
    assert_eq!(tile_words::tile_full(&words, 40), (0xFFF, 3, 3));
}
