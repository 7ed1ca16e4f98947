//! Terrain generation on integers, and the region and zone footprints.
use resonantdust::packed;
use resonantdust::regions::regions::{hex_dist, presence_for_disk};
use resonantdust::regions::world_gen::{
    biome_base_tile, choose_tile, disk_coords, generate_forest_terrain, generate_zone_tiles, hash2,
    matching_neighbours, neighbour_cluster_groups, NegativeRadius, TileCandidate, TILE_ZONE_TYPE,
    WORLD_SEED,
};
use resonantdust::regions::zones::{in_disk, Zone};
use resonantdust::tile_words;
use resonantdust::tile_words::Tile;

#[test]
fn zone_tiles_pack_round_trip() {
    let pick = |q: i32, r: i32, seed: u64| -> Tile {
        let h = hash2(q, r, seed);
        ((h % 4096) as u16, (h / 4096 % 256) as u8, (h / 1048576 % 256) as u8)
    };
    let packed_tiles = generate_zone_tiles(0, 0, 42, &pick);
    // Every slot decodes back to a definition with two-bit stocks.
    for idx in 0..tile_words::ZONE_TILE_COUNT {
        let (def_id, s0, s1) = tile_words::tile_full(&packed_tiles, idx);
        let _ = def_id;
        assert!(s0 <= tile_words::ZONE_TILE_STOCK_MAX, "stock0 {s0} out of range");
        assert!(s1 <= tile_words::ZONE_TILE_STOCK_MAX, "stock1 {s1} out of range");
    }
}

#[test]
fn generated_tiles_sit_where_they_were_picked() {
    let pick = |q: i32, r: i32, _seed: u64| -> Tile { ((q + 100) as u16, (r % 4) as u8, 1) };
    let words = generate_zone_tiles(2, 1, 9, &pick);
    for row in 0u8..8 {
        for col in 0u8..8 {
            let q = 2 * 8 + col as i32;
            let r = 8 + row as i32;
            let idx = tile_words::tile_slot(col, row);
            let expected = ((q + 100) as u16, (r % 4) as u8, 1);
            assert_eq!(tile_words::tile_full(&words, idx), expected);
        }
    }
}

#[test]
fn hash_depends_on_every_argument() {
    let h = hash2(3, -4, 42);
    assert_eq!(h, hash2(3, -4, 42));
    assert_ne!(h, hash2(-3, -4, 42));
    assert_ne!(h, hash2(3, 4, 42));
    assert_ne!(h, hash2(3, -4, 43));
}

#[test]
fn hashes_of_one_axis_never_meet() {
    for seed in [0, 1, 42, u64::MAX] {
        for n in [1, 2, 7, 255, 65_536, i32::MAX] {
            assert_ne!(hash2(n, 5, seed), hash2(-n, 5, seed));
            assert_ne!(hash2(5, n, seed), hash2(5, -n, seed));
        }
    }
    let mut seen: Vec<u64> = (-300..300).map(|x| hash2(x, -9, 42)).collect();
    seen.extend((0..600).filter(|&s| s != 42).map(|s| hash2(0, -9, s)));
    let all = seen.len();
    seen[..600].sort();
    seen[600..].sort();
    seen[..600].windows(2).for_each(|w| assert_ne!(w[0], w[1]));
    seen[600..].windows(2).for_each(|w| assert_ne!(w[0], w[1]));
    assert_eq!(all, 1_199);
}

#[test]
fn biome_base_falls_back_to_nothing() {
    let bases = vec![Some(0x7005), None, Some(0x7009)];
    assert_eq!(biome_base_tile(&bases, 1), 5);
    assert_eq!(biome_base_tile(&bases, 2), 0);
    assert_eq!(biome_base_tile(&bases, 9), 0);
    // Id 0 is the registry's last entry.
    assert_eq!(biome_base_tile(&bases, 0), 9);
    assert_eq!(biome_base_tile(&Vec::new(), 0), 0);
}

#[test]
fn neighbours_are_the_six_around() {
    let at = |q: i32, r: i32| -> u8 {
        if (q, r) == (4, -2) || (q, r) == (3, -1) {
            7
        } else {
            0
        }
    };
    let groups = neighbour_cluster_groups(3, -2, &at);
    assert_eq!(matching_neighbours(&groups, 7), 2);
    assert_eq!(matching_neighbours(&groups, 0), 4);
}

#[test]
fn chosen_tile_is_the_listed_candidate() {
    let cs = vec![
        TileCandidate { definition_id: 0x7010, stock0: 1, stock1: 2 },
        TileCandidate { definition_id: 0x7011, stock0: 3, stock1: 0 },
    ];
    assert_eq!(choose_tile(&cs, 0x7011, 99), (0x7011, 3, 0));
    assert_eq!(choose_tile(&cs, 0x7012, 99), (0x7012, 0, 0));
    assert_eq!(choose_tile(&Vec::new(), 0x7010, 5), (5, 0, 0));
}

#[test]
fn disk_holds_every_cell_within_reach() {
    assert_eq!(disk_coords(0), vec![(0, 0)]);
    let cells = disk_coords(2);
    assert_eq!(cells.len(), 19);
    for c in &cells {
        assert!(hex_dist(0, 0, c.0 as i32, c.1 as i32) <= 2);
    }
}

#[test]
fn forest_terrain_writes_one_zone_per_cell() {
    let pick = |_q: i32, _r: i32, _seed: u64| -> Tile { (5, 1, 2) };
    let mut rows: Vec<Zone> = Vec::new();
    let mut seq: u16 = 3;
    assert_eq!(generate_forest_terrain(&mut rows, &mut seq, 1000, WORLD_SEED, 1, &pick), Ok(()));
    assert_eq!(rows.len(), 7);
    assert_eq!(seq, 10);
    for (i, z) in rows.iter().enumerate() {
        assert_eq!(z.zone_id, i as u32 + 1);
        assert_eq!(z.packed_definition, packed::pack_zone_definition(TILE_ZONE_TYPE));
        assert_eq!(packed::valid_at_time(z.valid_at), 1000);
        assert_eq!(z.tile_at(3, 4), Some((5, 1, 2)));
    }
}

#[test]
fn forest_terrain_refuses_a_negative_radius() {
    let pick = |_q: i32, _r: i32, _seed: u64| -> Tile { (5, 1, 2) };
    let mut rows: Vec<Zone> = Vec::new();
    let mut seq: u16 = 0;
    assert_eq!(
        generate_forest_terrain(&mut rows, &mut seq, 1, 1, -1, &pick),
        Err(NegativeRadius)
    );
    assert!(rows.is_empty());
    assert_eq!(seq, 0);
}

#[test]
fn hex_distance_values() {
    assert_eq!(hex_dist(0, 0, 3, -3), 3);
    assert_eq!(hex_dist(0, 0, 2, 2), 4);
    assert_eq!(hex_dist(5, -1, 5, -1), 0);
    assert_eq!(hex_dist(1, 2, -4, 3), hex_dist(-4, 3, 1, 2));
}

#[test]
fn presence_grows_with_the_disk() {
    let region = packed::pack_macro_region(0, packed::WORLD_LAYER, 0, 0);
    let near = presence_for_disk(region, 0);
    let far = presence_for_disk(region, 20);
    assert_eq!(near & !far, 0);
    assert!(near.count_ones() < far.count_ones());
}

#[test]
fn disk_footprint_has_thirty_seven_cells() {
    let mut n = 0;
    for row in 0u8..8 {
        for col in 0u8..8 {
            if in_disk(row, col) {
                n += 1;
            }
        }
    }
    assert_eq!(n, 37);
    assert!(in_disk(3, 3));
    assert!(!in_disk(7, 3));
    assert!(!in_disk(0, 0));
}

#[test]
fn terrain_follows_from_its_seed() {
    let pick = |q: i32, r: i32, seed: u64| -> Tile {
        let h = hash2(q, r, seed);
        ((h % 4096) as u16, ((h >> 12) % 4) as u8, ((h >> 14) % 4) as u8)
    };
    let once = generate_zone_tiles(-3, 5, 77, &pick);
    assert_eq!(generate_zone_tiles(-3, 5, 77, &pick), once);
    assert_ne!(generate_zone_tiles(-3, 5, 78, &pick), once);
    assert_eq!(tile_words::tile_full(&once, tile_words::tile_slot(4, 6)), pick(-20, 46, 77));
}
