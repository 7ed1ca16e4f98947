//! The unified data shard: cards, tiles, actions, movement, placement and the
//! operation log.
use resonantdust::cards::env::CountField;
use resonantdust::packed;
use resonantdust::pending_actions;
use resonantdust::players::souls::{Soul, SoulPrivate};
use resonantdust::regions::cards::TileError;
use resonantdust::regions::zones;
use resonantdust::registry::{FlagEntry, FlagShape};
use resonantdust::shard::cards;
use resonantdust::shard::cards::{Card, CardIdCounter, MicroPlace};
use resonantdust::shard::flags;
use resonantdust::shard::flags::{BkFlags, StateFlags};
use resonantdust::shard::gate_api;
use resonantdust::shard::gate_api::ActionError;
use resonantdust::shard::gc;
use resonantdust::shard::model;
use resonantdust::shard::model::{HoldField, Layout, Micro};
use resonantdust::shard::movement;
use resonantdust::shard::movement::{MoveError, TilePoint};
use resonantdust::shard::oplog;
use resonantdust::shard::oplog::{OpLog, StockAspect};
use resonantdust::shard::place;
use resonantdust::shard::place::{PlaceError, PlaceWrite, Placement, StackPlacement};
use resonantdust::shard::replay;
use resonantdust::shard::replay::{AspectOp, Op};
use resonantdust::shard::souls;
use resonantdust::shard::tables::{Env, Tables};
use resonantdust::shard::tiles;
use resonantdust::shard::utilities;
use resonantdust::time::TimeDrift;

const NOW: u64 = 1_000_000;
const DEAD: u32 = 1 << 24;
const NEED: u32 = 1 << 25;
const SOUL: u16 = 0x6001;
const PLAYER: u16 = 0xFFF1;
const THING: u16 = 0x2001;
const TILE: u16 = 0x7012;

fn registry() -> Vec<FlagEntry> {
    let mut reg = Vec::new();
    let state = ["dead", "pos_need", "pos_want", "player_owned", "surface_locked", "zone_born"];
    for (i, name) in state.iter().enumerate() {
        reg.push(FlagEntry {
            section: "flags".to_string(),
            name: name.to_string(),
            shape: FlagShape::Bit { bit: 24 + i as u32 },
        });
    }
    let bk = ["position_dirty", "position_preserve", "data_dirty", "data_preserve"];
    for (i, name) in bk.iter().enumerate() {
        reg.push(FlagEntry {
            section: "flags_bk".to_string(),
            name: name.to_string(),
            shape: FlagShape::Bit { bit: i as u32 },
        });
    }
    reg
}

fn field(shift: u32) -> CountField {
    CountField { mask: 3 << shift, shift, max: 3 }
}

fn layout() -> Layout {
    Layout {
        touch: field(8),
        slot_claim: field(10),
        slot_borrow: field(12),
        position_hold: field(14),
        drop_hold: field(16),
        server: field(18),
    }
}

fn env() -> Env {
    let reg = registry();
    Env {
        now_ms: NOW,
        state: flags::state_flags(&reg),
        bk: flags::bk_flags(&reg),
        layout: layout(),
        blocks_demotion: DEAD,
    }
}

fn tables() -> Tables {
    Tables {
        cards: Vec::new(),
        card_id_counter: None,
        identity: None,
        souls: Vec::new(),
        soul_privates: Vec::new(),
        pending_actions: Vec::new(),
        zones: Vec::new(),
        regions: Vec::new(),
        card_shards: Vec::new(),
        op_log: Vec::new(),
        next_op_id: 0,
        next_sequence: 0,
    }
}

fn world() -> u64 {
    packed::pack_macro_zone_full(0, packed::WORLD_LAYER, 0, 0)
}

fn put(e: &Env, tb: &mut Tables, id: u32, t: u64, m: Micro, owner: u32, def: u16, flags: u32) -> Card {
    cards::create_at(e, tb, id, t, world(), m, owner, def, flags, 0)
}

/// A player soul `10` of player `7` that owns a soul `11`, which owns a thing `12`.
fn household(e: &Env) -> Tables {
    let mut tb = tables();
    put(e, &mut tb, 10, 100, Micro::snap(0, 0), 7, PLAYER, 0);
    put(e, &mut tb, 11, 100, Micro::snap(2, 2), 10, SOUL, 0);
    put(e, &mut tb, 12, 100, Micro::snap(3, 3), 11, THING, 0);
    tb
}

/// A world zone `1` with tile `0x12` and stocks `(2, 1)` on cell `(4, 3)`.
fn mapped() -> Tables {
    let mut tb = tables();
    let mut seq = 0;
    let def = packed::pack_zone_definition(7);
    zones::create_at(&mut tb.zones, &mut seq, 1, world(), def, 0, &[0; 16], 100);
    zones::set_tile_at(&mut tb.zones, &mut seq, 1, 100, 3, 4, 0x12, 2, 1);
    tb.next_sequence = seq;
    tb
}

fn held(e: &Env, tb: &Tables, id: u32, t: u64, f: HoldField) -> u32 {
    model::hold_count(&e.layout, cards::prior_at(tb, id, t).unwrap().flags, f)
}

// ---- the model -----------------------------------------------------
#[test]
fn shard_registries_are_tested_before_use() {
    assert!(flags::has_state_flags(&registry()) && flags::has_bk_flags(&registry()));
    for i in 0..registry().len() {
        let mut reg = registry();
        let gone = reg.remove(i);
        assert_eq!(flags::has_state_flags(&reg), gone.section != "flags");
        assert_eq!(flags::has_bk_flags(&reg), gone.section != "flags_bk");
    }
    let mut reg = registry();
    reg[6].shape = FlagShape::Bit { bit: 8 };
    assert!(!flags::has_bk_flags(&reg));
}

#[test]
fn shard_layouts_are_tested_before_use() {
    assert!(env().is_valid());
    let mut e = env();
    e.layout.touch = e.layout.server;
    assert!(!e.is_valid());
    let mut e = env();
    e.layout.drop_hold = CountField { mask: 5 << 16, shift: 16, max: 5 };
    assert!(!e.is_valid());
    let mut e = env();
    e.layout.server = field(24);
    assert!(!e.is_valid());
    let mut e = env();
    e.layout.touch.shift = 32;
    assert!(!e.layout.is_wf());
    assert!(!e.is_valid());
}

#[test]
fn masks_are_declared() {
    let reg = registry();
    assert_eq!(
        flags::state_flags(&reg),
        StateFlags {
            dead: 1 << 24,
            pos_need: 1 << 25,
            pos_want: 1 << 26,
            player_owned: 1 << 27,
            surface_locked: 1 << 28,
            zone_born: 1 << 29,
        }
    );
    assert_eq!(
        flags::bk_flags(&reg),
        BkFlags { position_dirty: 1, position_preserve: 2, data_dirty: 4, data_preserve: 8 }
    );
    assert_eq!(flags::bit_mask8(&reg, "flags_bk", "data_preserve"), 8);
    assert_eq!(model::state_mask(&flags::state_flags(&reg)), 0x3F << 24);
}

#[test]
fn hold_families_count_apart() {
    let l = layout();
    let all = [
        HoldField::Touch,
        HoldField::SlotClaim,
        HoldField::SlotBorrow,
        HoldField::PositionHold,
        HoldField::DropHold,
        HoldField::Server,
    ];
    let e = env();
    for f in all {
        let up = model::step_hold(&l, 0, f, true);
        assert!(model::has_active_holds(&l, up));
        for g in all {
            assert_eq!(model::hold_count(&l, up, g), (f == g) as u32);
        }
        assert_eq!(model::step_hold(&l, up, f, false), 0);
        assert_eq!(l.field(f).max, 3);
    }
    let w = model::step_hold(&l, 0, HoldField::SlotBorrow, true);
    assert_eq!(cards::slot_borrow_count(&e, w), 1);
    assert_eq!(cards::slot_claim_count(&e, w), 0);
    assert_eq!(cards::position_hold_count(&e, 2 << 14), 2);
    assert_eq!(cards::touch_count(&e, 3 << 8), 3);
    assert_eq!(cards::drop_hold_count(&e, 1 << 16), 1);
    assert_eq!(cards::server_count(&e, 1 << 18), 1);
}

#[test]
fn placements_share_the_low_byte() {
    let loose = Micro::Loose { local_q: 7, local_r: 1, x: -2048, y: 2047 };
    let (loc, flags) = loose.apply(0xABCD_EFFF);
    assert_eq!(flags, 0xABCD_EF00);
    assert_eq!(Micro::of(loc, flags), loose);
    let member = Micro::Stacked { root: 77, branch: 3, index: 9 };
    let (loc, flags) = member.apply(flags);
    assert_eq!((loc, flags), (77, 0xABCD_EF94));
    assert_eq!(Micro::of(loc, flags), member);
    let e = env();
    let mut tb = tables();
    let mut c = put(&e, &mut tb, 1, 5, Micro::snap(1, 1), 0, THING, 0);
    assert_eq!(cards::micro_of(&c), Micro::snap(1, 1));
    assert!(!cards::micro_is_card(&c));
    assert_eq!(cards::root_of_member(&c), 0);
    member.place(&mut c);
    assert!(cards::micro_is_card(&c));
    assert_eq!((cards::stack_branch(&c), cards::stack_index(&c)), (3, 9));
    assert_eq!(cards::root_of_member(&c), 77);
}

#[test]
fn stock_slots_are_two_bits() {
    let w = model::write_stock(0xFF0, 0, 2);
    assert_eq!(w, 0xFF2);
    let w = model::write_stock(w, 1, 3);
    assert_eq!(w, 0xFFE);
    assert_eq!((model::stock(w, 0), model::stock(w, 1), model::stock(w, 2)), (2, 3, 0));
    assert_eq!(model::write_stock(w, 2, 1), w);
    assert!(model::is_player_soul(0xFFF0));
    assert!(!model::is_player_soul(0xFFEF));
}

// ---- cards ---------------------------------------------------------
#[test]
fn shard_rows_are_versions() {
    let e = env();
    let mut tb = tables();
    let c = put(&e, &mut tb, 1, 100, Micro::snap(1, 1), 5, THING, 0);
    assert_eq!(c.flags_bk, 1 | 4);
    let again = cards::write_at(&e, &mut tb, c, 200);
    assert_eq!(again.flags_bk, 0);
    let moved = cards::write_at(&e, &mut tb, Card { micro_location: 9, ..c }, 300);
    assert_eq!(moved.flags_bk, 1);
    assert_eq!(cards::prior_at(&tb, 1, 299).unwrap().micro_location, c.micro_location);
    assert_eq!(cards::latest(&e, &tb, 1), Some(moved));
    assert_eq!(cards::set_packed_definition(&e, &mut tb, 1, 9).unwrap().packed_definition, 9);
    assert_eq!(cards::set_flags(&e, &mut tb, 1, NEED).unwrap().flags, NEED);
    assert_eq!(cards::set_flags(&e, &mut tb, 2, NEED), None);
    let same = |c: Card| c;
    assert!(cards::update_with(&e, &mut tb, 1, same).is_some());
    assert_eq!(cards::update_with_at(&e, &mut tb, 1, 50, same), None);
    let made = cards::create(&e, &mut tb, 3, 0, Micro::snap(0, 0), 0, THING, 0, 5);
    assert_eq!((packed::valid_at_time(made.valid_at), made.stock), (NOW, 5));
    cards::delete_at(&mut tb, 3, NOW);
    assert_eq!(cards::latest(&e, &tb, 3), None);
}

#[test]
fn shard_state_bits_carry_but_holds_do_not() {
    let e = env();
    let mut tb = tables();
    let c = put(&e, &mut tb, 1, 100, Micro::snap(1, 1), 0, THING, 0);
    put(&e, &mut tb, 1, 300, Micro::snap(1, 1), 0, THING, 0);
    cards::write_at(&e, &mut tb, Card { flags: c.flags | NEED | (1 << 10), ..c }, 200);
    let later = cards::prior_at(&tb, 1, 300).unwrap();
    assert_eq!(later.flags & NEED, NEED);
    assert_eq!(cards::slot_claim_count(&e, later.flags), 0);
}

#[test]
fn shard_followers_come_along() {
    let e = env();
    let mut tb = tables();
    let host = put(&e, &mut tb, 1, 100, Micro::snap(1, 1), 0, THING, 0);
    let deferred = Micro::Stacked { root: 1, branch: packed::STACK_STATE_DEFERRED, index: 0 };
    put(&e, &mut tb, 2, 100, deferred, 0, THING, 0);
    cards::write_at(&e, &mut tb, Card { macro_zone: 5, ..host }, 200);
    assert_eq!(cards::prior_at(&tb, 2, 200).unwrap().macro_zone, 5);
    cards::write_at(&e, &mut tb, Card { macro_zone: 5, flags: DEAD, ..host }, 300);
    assert_eq!(cards::prior_at(&tb, 2, 300).unwrap().micro_location, 0);
}

#[test]
fn shard_owner_chains() {
    let e = env();
    let mut tb = household(&e);
    assert_eq!(cards::owning_player(&e, &tb, 12), Some(7));
    assert_eq!(cards::owning_soul(&e, &tb, 12), Some(10));
    assert_eq!(cards::owning_soul_at(&tb, 12, 99), None);
    assert_eq!(cards::inventory_container_for(&e, &tb, 12), 11);
    assert_eq!(cards::inventory_container_for(&e, &tb, 10), 10);
    assert_eq!(cards::inventory_container_for_at(&tb, 12, 50), 0);
    assert!(cards::would_cycle(&e, &tb, 11, 12));
    assert!(!cards::would_cycle(&e, &tb, 12, 11));
    assert_eq!(cards::count_player_souls(&e, &tb, 7), 1);
    put(&e, &mut tb, 10, 500, Micro::snap(0, 0), 7, PLAYER, DEAD);
    assert_eq!(cards::count_player_souls(&e, &tb, 7), 0);
    put(&e, &mut tb, 30, 100, Micro::snap(0, 0), 0, THING, 0);
    assert_eq!(cards::owning_player(&e, &tb, 30), Some(cards::WORLD_PLAYER_ID));
    put(&e, &mut tb, 31, 100, Micro::snap(0, 0), 999, THING, 0);
    assert_eq!(cards::owning_player(&e, &tb, 31), None);
}

#[test]
fn free_cells_are_found_row_by_row() {
    let e = env();
    let mut tb = tables();
    assert_eq!(cards::first_free_cell(&e, &tb, world(), 3, NOW), (0, 0));
    put(&e, &mut tb, 1, 100, Micro::snap(0, 0), 0, THING, 0);
    assert_eq!(cards::first_free_cell(&e, &tb, world(), 3, NOW), (1, 0));
    put(&e, &mut tb, 2, 100, Micro::snap(1, 0), 0, THING, DEAD);
    assert_eq!(cards::first_free_cell(&e, &tb, world(), 3, NOW), (1, 0));
    // Beyond the distance nothing is free.
    assert_eq!(cards::first_free_cell(&e, &tb, world(), 0, NOW), (0, 0));
    // A card that left the zone no longer takes its cell.
    put(&e, &mut tb, 1, 200, Micro::snap(0, 0), 0, THING, 0);
    let c = cards::latest(&e, &tb, 1).unwrap();
    cards::write_at(&e, &mut tb, Card { macro_zone: 5, ..c }, 300);
    assert_eq!(cards::first_free_cell(&e, &tb, world(), 3, NOW), (0, 0));
}

#[test]
fn ids_carry_the_shard_identity() {
    let mut tb = tables();
    assert_eq!(cards::identity(&tb), (packed::CARD_DB_CARDS, 0));
    assert_eq!(cards::next_card_id(&mut tb), 1024);
    gate_api::set_shard_identity(&mut tb, packed::CARD_DB_REGIONS, 5);
    assert_eq!(cards::identity(&tb), (packed::CARD_DB_REGIONS, 5));
    assert_eq!(
        cards::next_card_id(&mut tb),
        packed::pack_card_id(packed::CARD_DB_REGIONS, 5, 1025)
    );
    cards::set_identity(&mut tb, packed::CARD_DB_CARDS, 1);
    tb.card_id_counter = Some(CardIdCounter { id: 0, next: packed::CARD_LOCAL_MASK });
    let last = cards::next_card_id(&mut tb);
    assert_eq!(packed::card_local_of(last), packed::CARD_LOCAL_MASK);
    assert_eq!(cards::next_card_id(&mut tb), last);
}

#[test]
fn shard_times_have_no_forward_grace() {
    let e = env();
    assert_eq!(cards::effective_now_ms(&e, NOW), Ok(NOW));
    assert_eq!(cards::effective_now_ms(&e, NOW + 1), Err(TimeDrift::ClientAhead { by: 1 }));
}

#[test]
fn shard_holds_reach_later_versions() {
    let e = env();
    let mut tb = household(&e);
    put(&e, &mut tb, 12, 300, Micro::snap(3, 3), 11, THING, 0);
    cards::acquire_hold(&e, &mut tb, 12, 200, HoldField::DropHold);
    assert_eq!(held(&e, &tb, 12, 100, HoldField::DropHold), 0);
    assert_eq!(held(&e, &tb, 12, 200, HoldField::DropHold), 1);
    assert_eq!(held(&e, &tb, 12, 300, HoldField::DropHold), 1);
    let before: Vec<Card> = tb.cards.clone();
    cards::propagate_hold_forward(&e, &mut tb, 12, 100, HoldField::Touch, true);
    cards::propagate_hold_forward(&e, &mut tb, 12, 100, HoldField::Touch, false);
    assert_eq!(tb.cards, before);
    cards::release_hold(&e, &mut tb, 12, 250, HoldField::DropHold);
    assert_eq!(held(&e, &tb, 12, 200, HoldField::DropHold), 1);
    assert_eq!(held(&e, &tb, 12, 300, HoldField::DropHold), 0);
}

#[test]
fn shard_souls_mirror_positions() {
    let e = env();
    let mut tb = household(&e);
    assert_eq!(tb.souls.len(), 1);
    assert_eq!((tb.souls[0].card_id, tb.souls[0].owner_id), (11, 10));
    let c = cards::latest(&e, &tb, 11).unwrap();
    cards::write_at(&e, &mut tb, Card { macro_zone: 5, ..c }, 500);
    assert_eq!(tb.souls.last().unwrap().macro_zone, 5);
    souls::apply_stat(&mut tb, 11, 0, 1, 1, 600);
    let s: &Soul = tb.souls.last().unwrap();
    assert_eq!((s.stats, packed::valid_at_time(s.valid_at)), (0x0100, 600));
    let n = tb.souls.len();
    souls::apply_stat(&mut tb, 11, 9, 1, 1, 600);
    souls::apply_stat(&mut tb, 99, 0, 1, 1, 600);
    souls::on_card_write(&mut tb, &Card { packed_definition: THING, ..c }, 700);
    assert_eq!(tb.souls.len(), n);
}

// ---- pending and holds by wire selector ----------------------------
#[test]
fn shard_claims_exclude_each_other() {
    let mut tb = tables();
    let b = vec![vec![1]];
    let key = pending_actions::dedup_key(3, 4, &b);
    assert_eq!(gate_api::claim_pending(&mut tb, 3, 4, &b, 9), Ok(()));
    assert_eq!(
        gate_api::claim_pending(&mut tb, 3, 4, &b, 9),
        Err(ActionError::InFlight { dedup_key: key })
    );
    gate_api::release_pending(&mut tb, 3, 4, &b);
    assert_eq!(gate_api::claim_pending(&mut tb, 3, 4, &b, 9), Ok(()));
}

#[test]
fn wire_selectors_name_hold_families() {
    let e = env();
    let mut tb = household(&e);
    assert_eq!(gate_api::hold_field(0), Ok(HoldField::Touch));
    assert_eq!(gate_api::hold_field(3), Ok(HoldField::PositionHold));
    // Tiles have the first four families only.
    assert_eq!(gate_api::hold_field(4), Err(ActionError::UnknownHold { kind: 4 }));
    assert_eq!(gate_api::hold_field(5), Err(ActionError::UnknownHold { kind: 5 }));
    assert_eq!(gate_api::dispatch_hold(&e, &mut tb, 12, 500, 5, true), Ok(()));
    assert_eq!(held(&e, &tb, 12, 500, HoldField::Server), 1);
    assert_eq!(gate_api::dispatch_hold(&e, &mut tb, 12, 500, 4, true), Ok(()));
    assert_eq!(held(&e, &tb, 12, 500, HoldField::DropHold), 1);
    assert_eq!(gate_api::dispatch_hold(&e, &mut tb, 12, 500, 4, false), Ok(()));
    assert_eq!(held(&e, &tb, 12, 500, HoldField::DropHold), 0);
    assert_eq!(
        gate_api::dispatch_hold(&e, &mut tb, 12, 500, 9, true),
        Err(ActionError::UnknownHold { kind: 9 })
    );
}

// ---- actions -------------------------------------------------------
struct Request {
    bound: Vec<u32>,
    masks: Vec<u8>,
    destroy: Vec<u32>,
    create: Vec<u16>,
    unlock: Vec<(u32, u16)>,
    stat: Vec<u32>,
    stock: Vec<(u32, u32)>,
    reroot: Vec<(u32, u32, u8)>,
}

fn request() -> Request {
    Request {
        bound: Vec::new(),
        masks: Vec::new(),
        destroy: Vec::new(),
        create: Vec::new(),
        unlock: Vec::new(),
        stat: Vec::new(),
        stock: Vec::new(),
        reroot: Vec::new(),
    }
}

fn apply(e: &Env, tb: &mut Tables, q: Request) -> Result<(), ActionError> {
    let n = q.create.len();
    gate_api::apply_action(
        e,
        tb,
        500,
        900,
        q.bound,
        q.masks,
        q.destroy,
        q.create,
        vec![packed::INVENTORY_LAYER; n],
        vec![0; n],
        vec![11; n],
        vec![6; n],
        q.unlock.iter().map(|u| u.0).collect(),
        q.unlock.iter().map(|u| u.1).collect(),
        q.stat.clone(),
        vec![1; q.stat.len()],
        vec![0; q.stat.len()],
        vec![1; q.stat.len()],
        q.stock.iter().map(|s| s.0).collect(),
        q.stock.iter().map(|s| s.1).collect(),
        q.reroot.iter().map(|r| r.0).collect(),
        vec![world(); q.reroot.len()],
        q.reroot.iter().map(|r| r.1).collect(),
        q.reroot.iter().map(|r| r.2).collect(),
    )
}

#[test]
fn actions_hold_their_cards_until_completion() {
    let e = env();
    let mut tb = household(&e);
    tb.soul_privates.push(SoulPrivate {
        card_id: 11,
        data_shard: 0,
        blueprints_0: 0,
        active_blueprints: 0,
    });
    put(&e, &mut tb, 13, 100, Micro::snap(3, 3), 11, THING, NEED);
    let q = Request {
        bound: vec![12, 13],
        masks: vec![0b0011, 0b1100],
        destroy: vec![12],
        create: vec![THING],
        unlock: vec![(11, 3)],
        stat: vec![11],
        stock: vec![(13, 9)],
        reroot: vec![(13, 10, 0x21), (999, 10, 0x21)],
    };
    assert_eq!(apply(&e, &mut tb, q), Ok(()));
    assert_eq!(held(&e, &tb, 12, 500, HoldField::Touch), 1);
    assert_eq!(held(&e, &tb, 12, 500, HoldField::SlotClaim), 1);
    assert_eq!(held(&e, &tb, 13, 500, HoldField::SlotBorrow), 1);
    assert_eq!(held(&e, &tb, 13, 500, HoldField::PositionHold), 1);
    for f in [HoldField::Touch, HoldField::SlotClaim] {
        assert_eq!(held(&e, &tb, 12, 900, f), 0);
    }
    let gone = cards::prior_at(&tb, 12, 900).unwrap();
    assert_eq!(gone.flags & DEAD, DEAD);
    let kept = cards::prior_at(&tb, 13, 900).unwrap();
    assert_eq!((kept.flags & NEED, kept.stock), (0, 9));
    assert_eq!(cards::micro_of(&kept), Micro::Stacked { root: 10, branch: 0, index: 2 });
    let made = cards::prior_at(&tb, 1024, 900).unwrap();
    assert_eq!((made.owner_id, made.stock, made.packed_definition), (11, 6, THING));
    assert_eq!(tb.soul_privates[0].blueprints_0, 4);
    assert_eq!(tb.souls.last().unwrap().fatigued, 1);
}

#[test]
fn actions_are_refused_on_taken_cards() {
    let e = env();
    let claim = || Request { bound: vec![12], masks: vec![0b0010], ..request() };
    let mut tb = household(&e);
    assert_eq!(apply(&e, &mut tb, claim()), Ok(()));
    assert_eq!(
        apply(&e, &mut tb, claim()),
        Err(ActionError::Unavailable { card_id: 12, exclusive: 1, shared: 0 })
    );
    assert_eq!(
        apply(&e, &mut tb, Request { bound: vec![12], masks: vec![0b0100], ..request() }),
        Err(ActionError::ExclusivelyHeld { card_id: 12 })
    );
    assert_eq!(
        apply(&e, &mut tb, Request { destroy: vec![99], ..request() }),
        Err(ActionError::CardNotFound { card_id: 99 })
    );
    assert_eq!(
        apply(&e, &mut tb, Request { stock: vec![(99, 1)], ..request() }),
        Err(ActionError::CardNotFound { card_id: 99 })
    );
    assert_eq!(
        apply(&e, &mut tb, Request { unlock: vec![(11, 65)], ..request() }),
        Err(ActionError::BlueprintOutOfRange { blueprint_id: 65 })
    );
    assert_eq!(
        apply(&e, &mut tb, Request { unlock: vec![(11, 1)], ..request() }),
        Err(ActionError::NoSoulPrivate { card_id: 11 })
    );
    // Without a mask nothing is held, and several may share.
    let mut tb = household(&e);
    let share = || Request { bound: vec![12], masks: vec![0b0100], ..request() };
    assert_eq!(apply(&e, &mut tb, share()), Ok(()));
    assert_eq!(apply(&e, &mut tb, share()), Ok(()));
    assert_eq!(held(&e, &tb, 12, 500, HoldField::SlotBorrow), 2);
    assert_eq!(apply(&e, &mut tb, Request { bound: vec![12], ..request() }), Ok(()));
}

#[test]
fn tile_actions_hold_and_restock() {
    let e = env();
    let mut tb = mapped();
    let w = packed::WORLD_LAYER;
    let run = |tb: &mut Tables, q: u8, mask: u8, op: u8| {
        gate_api::apply_action_tile(&e, tb, 500, 900, w, 0, q, 3, mask, &vec![0], &vec![op], &vec![1])
    };
    assert_eq!(run(&mut tb, 4, 0b0010, 0), Ok(()));
    let c = tiles::find_tile_card_at(&tb, w, 0, 4, 3, 500).unwrap();
    // Once it stands in another zone, the cell has no tile-card.
    let mut moved = household(&e);
    moved.cards.push(Card { macro_zone: 5, valid_at: packed::pack_valid_at(600, 9), ..c });
    moved.cards.push(c);
    assert_eq!(tiles::find_tile_card_at(&moved, w, 0, 4, 3, 500), Some(c));
    assert_eq!(tiles::find_tile_card_at(&moved, w, 0, 4, 3, 600), None);
    assert_eq!(held(&e, &tb, c.card_id, 500, HoldField::SlotClaim), 1);
    assert_eq!(held(&e, &tb, c.card_id, 900, HoldField::SlotClaim), 0);
    assert_eq!(tiles::tile_full_view(&tb, w, 0, 4, 3, 500), Some((TILE, 2, 1)));
    assert_eq!(tiles::tile_full_view(&tb, w, 0, 4, 3, 900), Some((TILE, 1, 1)));
    assert_eq!(
        run(&mut tb, 4, 0b0010, 0),
        Err(ActionError::Tile(TileError::AlreadyHeld { q: 4, r: 3 }))
    );
    assert_eq!(
        run(&mut tb, 4, 0, 9),
        Err(ActionError::Tile(TileError::UnknownOp { op: 9 }))
    );
    assert_eq!(
        run(&mut tb, 0, 0, 0),
        Err(ActionError::Tile(TileError::Empty { q: 0, r: 3 }))
    );
}

// ---- tiles ---------------------------------------------------------
#[test]
fn shard_tiles_are_promoted_once() {
    let e = env();
    let mut tb = mapped();
    let w = packed::WORLD_LAYER;
    assert_eq!(tiles::tile_full_view(&tb, w, 0, 4, 3, 500), Some((TILE, 2, 1)));
    let c = tiles::find_or_create_tile_card(&e, &mut tb, w, 0, 4, 3, 500).unwrap();
    assert_eq!((c.packed_definition, c.stock), (TILE, 2 + 4));
    assert_eq!(tiles::find_or_create_tile_card(&e, &mut tb, w, 0, 4, 3, 500), Ok(c));
    assert_eq!(tb.cards.len(), 1);
    assert!(tiles::set_tile_stock(&e, &mut tb, c.card_id, 500, 1, 3).is_some());
    assert_eq!(tiles::set_tile_stock(&e, &mut tb, 1, 500, 1, 3), None);
    assert_eq!(tiles::tile_full_view(&tb, w, 0, 4, 3, 500), Some((TILE, 2, 3)));
    assert_eq!(tiles::acquire_tile_hold(&e, &mut tb, w, 0, 4, 3, HoldField::SlotClaim, 500), Ok(()));
    assert_eq!(
        tiles::acquire_tile_hold(&e, &mut tb, w, 0, 4, 3, HoldField::SlotClaim, 500),
        Err(TileError::AlreadyHeld { q: 4, r: 3 })
    );
    tiles::release_tile_hold(&e, &mut tb, w, 0, 4, 3, HoldField::SlotClaim, 500);
    assert_eq!(held(&e, &tb, c.card_id, 500, HoldField::SlotClaim), 0);
    assert_eq!(
        tiles::find_or_create_tile_card(&e, &mut tb, w, 9, 0, 0, 500),
        Err(TileError::NoZone { location: packed::with_surface(9, w) })
    );
    assert_eq!(
        tiles::find_or_create_tile_card(&e, &mut tb, w, 0, 8, 0, 500),
        Err(TileError::OutOfRange { q: 8, r: 0 })
    );
    assert_eq!(
        tiles::find_or_create_tile_card(&e, &mut tb, w, 0, 0, 0, 500),
        Err(TileError::Empty { q: 0, r: 0 })
    );
}

// ---- created cards -------------------------------------------------
#[test]
fn created_cards_go_where_they_belong() {
    let e = env();
    let mut tb = tables();
    let make = |tb: &mut Tables, surface: u8, def: u16, zone: u64| {
        utilities::create_card(&e, tb, NOW, 55, surface, def, 3, zone, 4, 5)
    };
    assert_eq!(make(&mut tb, packed::INVENTORY_LAYER, THING, 0), Ok(()));
    assert_eq!(
        tb.cards[0].macro_zone,
        packed::pack_macro_zone_full(55, packed::INVENTORY_LAYER, 0, 0)
    );
    assert_eq!(tb.cards[0].stock, 3);
    assert_eq!(make(&mut tb, packed::WORLD_LAYER, SOUL, 0), Ok(()));
    assert_eq!(tb.cards[1].macro_zone, world());
    assert_eq!(tb.soul_privates[0].card_id, tb.cards[1].card_id);
    assert_eq!(make(&mut tb, packed::WORLD_LAYER, THING, 4097), Ok(()));
    assert_eq!(tb.cards[2].macro_zone, 4097);
    assert_eq!(cards::micro_of(&tb.cards[2]), Micro::snap(4, 5));
    assert_eq!(
        utilities::create_card(&e, &mut tb, 0, 55, 1, THING, 0, 0, 0, 0),
        Err(TimeDrift::ClientBehind { by: NOW })
    );
}

// ---- movement ------------------------------------------------------
fn step(e: &Env, tb: &mut Tables, from: (i32, i32), to: (u8, u8), depart: u64, arrive: u64) -> Result<(), MoveError> {
    let dest = TilePoint {
        surface: packed::WORLD_LAYER,
        macro_zone: 0,
        micro_location: packed::pack_micro_loose(to.0, to.1, 0, 0),
    };
    movement::move_soul(e, tb, NOW, 7, 11, SOUL, from.0, from.1, dest, depart, arrive)
}

#[test]
fn souls_step_to_the_next_hex() {
    let e = env();
    let mut tb = household(&e);
    assert_eq!(step(&e, &mut tb, (2, 2), (3, 2), NOW, NOW + 1_000), Ok(()));
    let at = |tb: &Tables, t: u64| {
        let c = cards::prior_at(tb, 11, t).unwrap();
        movement::world_cell(c.macro_zone, c.micro_location, c.flags)
    };
    assert_eq!(at(&tb, NOW + 999), Some((2, 2)));
    assert_eq!(at(&tb, NOW + 1_000), Some((3, 2)));
    assert!(movement::hex_adjacent((0, 0), (1, -1)));
    assert!(!movement::hex_adjacent((0, 0), (1, 1)));
    assert!(!movement::hex_adjacent((0, 0), (0, 0)));
}

#[test]
fn steps_are_checked() {
    let e = env();
    let mut tb = household(&e);
    let here = (2, 2);
    let dest = TilePoint { surface: packed::WORLD_LAYER, macro_zone: 0, micro_location: 0 };
    let as_player = |tb: &mut Tables, who: u32, soul: u32, def: u16| {
        movement::move_soul(&e, tb, NOW, who, soul, def, 2, 2, dest, NOW, NOW + 1)
    };
    assert_eq!(
        movement::move_soul(&e, &mut tb, NOW + 1, 7, 11, SOUL, 2, 2, dest, NOW, NOW + 1),
        Err(MoveError::Time(TimeDrift::ClientAhead { by: 1 }))
    );
    assert_eq!(as_player(&mut tb, 7, 99, SOUL), Err(MoveError::SoulMissing { soul_id: 99 }));
    put(&e, &mut tb, 31, 100, Micro::snap(0, 0), 999, SOUL, 0);
    assert_eq!(as_player(&mut tb, 7, 31, SOUL), Err(MoveError::OwnerUnknown { soul_id: 31 }));
    assert_eq!(as_player(&mut tb, 8, 11, SOUL), Err(MoveError::NotOwned { soul_id: 11, owner: 7 }));
    assert_eq!(
        as_player(&mut tb, 7, 11, THING),
        Err(MoveError::WrongDefinition { actual: SOUL, claimed: THING })
    );
    for f in [HoldField::SlotClaim, HoldField::SlotBorrow, HoldField::PositionHold] {
        cards::acquire_hold(&e, &mut tb, 11, 500, f);
        assert_eq!(as_player(&mut tb, 7, 11, SOUL), Err(MoveError::Held { soul_id: 11 }));
        cards::release_hold(&e, &mut tb, 11, 500, f);
    }
    assert_eq!(step(&e, &mut tb, here, (3, 2), 50, 60), Err(MoveError::NoDeparture { depart_ms: 50 }));
    assert_eq!(
        step(&e, &mut tb, (0, 0), (3, 2), NOW, NOW + 1),
        Err(MoveError::WrongOrigin { actual_q: 2, actual_r: 2 })
    );
    let off = TilePoint { surface: 1, ..dest };
    assert_eq!(
        movement::move_soul(&e, &mut tb, NOW, 7, 11, SOUL, 2, 2, off, NOW, NOW + 1),
        Err(MoveError::BadDestination)
    );
    assert_eq!(
        step(&e, &mut tb, here, (4, 2), NOW, NOW + 1),
        Err(MoveError::NotAdjacent { dest_q: 4, dest_r: 2 })
    );
    assert_eq!(
        step(&e, &mut tb, here, (3, 2), NOW, NOW),
        Err(MoveError::ArrivalNotAfter { depart_ms: NOW, arrival_ms: NOW })
    );
    assert_eq!(
        step(&e, &mut tb, here, (3, 2), NOW, NOW + 60_001),
        Err(MoveError::StepTooLong { ms: 60_001 })
    );
    assert_eq!(
        step(&e, &mut tb, here, (3, 2), NOW - 60_001, NOW - 60_000),
        Err(MoveError::Stale { depart_ms: NOW - 60_001, now_ms: NOW })
    );
    put(&e, &mut tb, 11, 600, Micro::Stacked { root: 5, branch: 0, index: 0 }, 10, SOUL, 0);
    assert_eq!(
        step(&e, &mut tb, here, (3, 2), NOW, NOW + 1),
        Err(MoveError::NotOnWorld { soul_id: 11 })
    );
}

// ---- placement -----------------------------------------------------
fn placement(kind: u8) -> Placement {
    Placement {
        kind,
        parent_id: 10,
        direction: 2,
        surface: 64,
        macro_zone: 9,
        q: 1,
        r: 2,
        xy: 0xFFFF_7FFF,
    }
}

#[test]
fn wire_placements_become_plans() {
    assert_eq!(
        place::to_stack_placement(&placement(place::PLACEMENT_STACK)),
        Some(StackPlacement::Stack { parent_id: 10, direction: 2 })
    );
    assert_eq!(
        place::to_stack_placement(&placement(place::PLACEMENT_LOOSE)),
        Some(StackPlacement::Loose { surface: 64, macro_zone: 9, q: 1, r: 2, x: -1, y: 2047 })
    );
    assert_eq!(place::to_stack_placement(&placement(2)), None);
    assert_eq!(place::unpack_xy(0x8000_0005), (-2048, 5));
}

#[test]
fn placements_follow_the_planner() {
    let e = env();
    let mut tb = household(&e);
    let micro = Micro::Stacked { root: 10, branch: 2, index: 1 };
    let plan = |_t: &Tables, id: u32, _p: StackPlacement, _caller: u32, _now: u64| {
        if id == 12 {
            Ok(vec![
                PlaceWrite { card_id: 12, macro_zone: 5, micro },
                PlaceWrite { card_id: 999, macro_zone: 5, micro },
            ])
        } else {
            Err("no")
        }
    };
    let stack = placement(place::PLACEMENT_STACK);
    assert!(place::place_card(&e, &mut tb, NOW, 7, 12, &stack, &plan).is_ok());
    let c = cards::latest(&e, &tb, 12).unwrap();
    assert_eq!((c.macro_zone, cards::micro_of(&c)), (5, micro));
    assert!(matches!(
        place::place_card(&e, &mut tb, NOW, 7, 11, &stack, &plan),
        Err(PlaceError::Refused("no"))
    ));
    assert!(matches!(
        place::place_card(&e, &mut tb, NOW, 7, 12, &placement(9), &plan),
        Err(PlaceError::UnknownKind { kind: 9 })
    ));
    assert!(matches!(
        place::place_card(&e, &mut tb, NOW + 1, 7, 12, &stack, &plan),
        Err(PlaceError::Time(TimeDrift::ClientAhead { by: 1 }))
    ));
    let members = place::members_of(&tb, 10, NOW);
    assert_eq!(members.len(), 1);
    assert_eq!(members[0].card_id, 12);
    assert_eq!(place::card_at(&tb, 12, NOW).unwrap().owner_id, 11);
    assert!(place::card_at(&tb, 98, NOW).is_none());
    place::apply_plan(&e, &mut tb, NOW, &vec![PlaceWrite { card_id: 12, macro_zone: 6, micro }]);
    assert_eq!(cards::latest(&e, &tb, 12).unwrap().macro_zone, 6);
}

#[test]
fn bulk_moves_are_verbatim() {
    let e = env();
    let mut tb = household(&e);
    let go = |tb: &mut Tables, t: u64, ids: Vec<u32>, zones: Vec<u64>| {
        let n = ids.len();
        place::move_cards(&e, tb, t, 7, &ids, &zones, &vec![10; n], &vec![0x21; n])
    };
    assert!(go(&mut tb, NOW, vec![11, 12], vec![4, 5]).is_ok());
    let c = cards::latest(&e, &tb, 12).unwrap();
    assert_eq!(c.macro_zone, 5);
    assert_eq!(cards::micro_of(&c), Micro::Stacked { root: 10, branch: 0, index: 2 });
    assert!(matches!(go(&mut tb, NOW, vec![11], vec![]), Err(PlaceError::LengthMismatch)));
    assert!(matches!(
        go(&mut tb, 0, vec![11], vec![4]),
        Err(PlaceError::Time(TimeDrift::ClientBehind { by: NOW }))
    ));
    assert!(matches!(
        go(&mut tb, NOW, vec![99], vec![4]),
        Err(PlaceError::CardNotFound { card_id: 99 })
    ));
}

// ---- the operation log ---------------------------------------------
const WOOD: StockAspect = StockAspect { id: 4, shift: 8, width: 3 };

#[test]
fn operations_fold_by_time() {
    let op = |time: u64, op: AspectOp, modifier: i64| Op { time, op, modifier };
    let ops = vec![
        op(30, AspectOp::Dec, 2),
        op(10, AspectOp::Assign, 5),
        op(20, AspectOp::Inc, 4),
    ];
    assert_eq!(replay::fold(&ops, 9), 0);
    assert_eq!(replay::fold(&ops, 10), 5);
    assert_eq!(replay::fold(&ops, 20), 9);
    assert_eq!(replay::fold(&ops, 30), 7);
    assert_eq!(replay::fold_clamped(&ops, 30, 3), 3);
    assert_eq!(replay::fold_clamped(&vec![op(1, AspectOp::Dec, 1)], 9, 3), 0);
    let extreme = vec![op(1, AspectOp::Assign, i64::MAX), op(2, AspectOp::Inc, 1)];
    assert_eq!(replay::fold(&extreme, 5), i64::MAX);
    let sorted = replay::sort(&ops);
    assert_eq!(sorted.iter().map(|o| o.time).collect::<Vec<u64>>(), vec![10, 20, 30]);
    for code in 0u8..3 {
        assert_eq!(AspectOp::from_code(code).unwrap().code(), code);
    }
    assert_eq!(AspectOp::from_code(3), None);
}

#[test]
fn stock_fields_are_written_in_place() {
    assert_eq!(WOOD.max(), 7);
    assert_eq!(WOOD.set_in(u64::MAX, 0), !0x700);
    assert_eq!(WOOD.set_in(0, 5), 0x500);
    assert_eq!(WOOD.set_in(0, 0xFF), 0x700);
}

#[test]
fn recorded_operations_show_on_the_card() {
    let e = env();
    let mut tb = household(&e);
    put(&e, &mut tb, 12, 900, Micro::snap(3, 3), 11, THING, 0);
    oplog::apply_op(&e, &mut tb, 12, &WOOD, 300, AspectOp::Inc, 2);
    oplog::apply_delta(&e, &mut tb, 12, &WOOD, 500, true);
    oplog::apply_delta(&e, &mut tb, 12, &WOOD, 400, false);
    let shown = |tb: &Tables, t: u64| cards::prior_at(tb, 12, t).unwrap().stock >> 8 & 7;
    assert_eq!(shown(&tb, 100), 0);
    assert_eq!(shown(&tb, 300), 2);
    assert_eq!(shown(&tb, 400), 1);
    assert_eq!(shown(&tb, 500), 2);
    assert_eq!(shown(&tb, 900), 2);
    assert_eq!(oplog::value_as_of(&tb, 12, &WOOD, 450), 1);
    oplog::append(&mut tb, 12, &WOOD, 950, AspectOp::Assign, 100);
    oplog::append_delta(&mut tb, 12, &WOOD, 960, false);
    assert_eq!(oplog::value_as_of(&tb, 12, &WOOD, 960), 99);
    assert_eq!(oplog::field_value_as_of(&tb, 12, &WOOD, 960), 7);
    assert_eq!(shown(&tb, 900), 2);
    oplog::materialize_aspect(&e, &mut tb, 12, &WOOD, 960);
    assert_eq!(shown(&tb, 960), 7);
    assert_eq!(tb.op_log.iter().map(|r| r.id).collect::<Vec<u64>>(), vec![0, 1, 2, 3, 4]);
}

#[test]
fn compaction_keeps_values() {
    let mut tb = tables();
    for (t, m) in [(10, 3), (20, 4), (30, 5)] {
        oplog::append(&mut tb, 12, &WOOD, t, AspectOp::Inc, m);
    }
    oplog::append(&mut tb, 13, &WOOD, 10, AspectOp::Inc, 1);
    oplog::append(&mut tb, 13, &WOOD, 15, AspectOp::Dec, 1);
    oplog::compact(&mut tb, 20);
    for at in [20, 25, 30, 99] {
        let expected = if at >= 30 { 12 } else { 7 };
        assert_eq!(oplog::value_as_of(&tb, 12, &WOOD, at), expected);
        assert_eq!(oplog::value_as_of(&tb, 13, &WOOD, at), 0);
    }
    assert_eq!(tb.op_log.len(), 2);
    let before: Vec<OpLog> = tb.op_log.clone();
    oplog::compact(&mut tb, 20);
    assert_eq!(tb.op_log, before);
}

// ---- sweeps --------------------------------------------------------
#[test]
fn shard_retention_depends_on_the_owner() {
    let e = env();
    let mut tb = household(&e);
    let owned = put(&e, &mut tb, 12, 200, Micro::snap(3, 3), 11, THING, DEAD);
    let wild = put(&e, &mut tb, 40, 200, Micro::snap(3, 3), 0, THING, DEAD);
    assert!(!gc::dead_row_reapable(&e, &tb, &owned, NOW));
    assert!(gc::dead_row_reapable(&e, &tb, &owned, 201 + gc::MAX_DEAD_RETENTION_MS));
    assert!(gc::dead_row_reapable(&e, &tb, &wild, NOW));
    assert!(!gc::dead_row_reapable(&e, &tb, &wild, 200 + gc::WORLD_DEAD_RETENTION_MS));
    let claimed = Card { flags: wild.flags | (1 << 10), ..wild };
    assert!(!gc::dead_row_reapable(&e, &tb, &claimed, NOW));
    gc::sweep_cards(&e, &mut tb, NOW);
    assert_eq!(tb.cards.len(), 3);
    assert_eq!(cards::latest(&e, &tb, 40), None);
}

#[test]
fn shard_tile_cards_at_rest_fold_back() {
    let e = env();
    let w = packed::WORLD_LAYER;
    let mut tb = mapped();
    let c = tiles::find_or_create_tile_card(&e, &mut tb, w, 0, 4, 3, 500).unwrap();
    tiles::set_tile_stock(&e, &mut tb, c.card_id, 600, 0, 0);
    pending_actions::install(&mut tb.pending_actions, 5, 1);
    gc::gc_sweep(&e, &mut tb);
    assert!(tb.cards.is_empty());
    assert!(tb.pending_actions.is_empty());
    assert_eq!(tb.zones.len(), 1);
    assert_eq!(tb.zones[0].tile_at(3, 4), Some((0x12, 0, 1)));
    // A held tile-card stays, and so does one with more than a tile can keep.
    let mut tb = mapped();
    tiles::acquire_tile_hold(&e, &mut tb, w, 0, 4, 3, HoldField::Touch, 500).unwrap();
    gc::sweep_tile_card_demotions(&e, &mut tb);
    assert_eq!(tb.cards.len(), 1);
    let mut tb = mapped();
    let c = tiles::find_or_create_tile_card(&e, &mut tb, w, 0, 4, 3, 500).unwrap();
    cards::write_at(&e, &mut tb, Card { stock: model::STOCK_ZONE_SAVE_MASK + 1, ..c }, 600);
    gc::sweep_tile_card_demotions(&e, &mut tb);
    assert_eq!(tb.cards.len(), 2);
}
