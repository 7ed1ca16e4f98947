//! Actions: paths, tapes, plans, verification, proposals and completion.
use resonantdust::actions::completion;
use resonantdust::actions::completion::CommitError;
use resonantdust::actions::on_create;
use resonantdust::actions::on_create::{Candidate, Duration, FlagOps, Started, TriggerError};
use resonantdust::actions::path;
use resonantdust::actions::path::PathError;
use resonantdust::actions::plan;
use resonantdust::actions::plan::{HoldKinds, PlanError};
use resonantdust::actions::propose;
use resonantdust::actions::propose::ProposeError;
use resonantdust::actions::recipe_eval::soul_stack;
use resonantdust::actions::tape;
use resonantdust::actions::tape::{Effect, HexLocation, StockOp, TapeError, TapeWalker};
use resonantdust::actions::tile_cards;
use resonantdust::actions::verify;
use resonantdust::actions::verify::{BindError, InputError, SyntheticTile, VerifyError};
use resonantdust::cards::cards;
use resonantdust::cards::env::{Env, HoldKind};
use resonantdust::cards::flags::{bk_flags, state_flags};
use resonantdust::cards::gate_api::GateError;
use resonantdust::cards::micro::Micro;
use resonantdust::content::{
    AspectDefinition, AspectValue, Blueprint, CardDefinition, Catalog, Recipe, Seg, Segment,
    SlotIterator, StatementValue, Stmt, StockSlot,
};
use resonantdust::packed;
use resonantdust::pending_actions;
use resonantdust::players::lifecycle_pending;
use resonantdust::players::lifecycle_pending::Blocked;
use resonantdust::players::players;
use resonantdust::players::players::{ConnectionId, PlayerError, FIRST_PLAYER_ID};
use resonantdust::players::souls::SoulPrivate;
use resonantdust::regions::cards::TileError;
use resonantdust::regions::zones;
use resonantdust::registry::{FlagEntry, FlagShape};
use resonantdust::tables::Tables;
use resonantdust::time::TimeDrift;

fn entry(section: &str, name: &str, shape: FlagShape) -> FlagEntry {
    FlagEntry { section: section.to_string(), name: name.to_string(), shape }
}

fn flag_registry() -> Vec<FlagEntry> {
    let mut reg = Vec::new();
    let state = "cards_state";
    let bits = [
        "dead",
        "pos_need",
        "pos_want",
        "magnetic",
        "surface_locked",
        "is_owned_by_player",
        "zone_born",
    ];
    for (i, name) in bits.iter().enumerate() {
        reg.push(entry(state, name, FlagShape::Bit { bit: i as u32 }));
    }
    reg.push(entry(state, "progress_style", FlagShape::Field { shift: 8, width: 2 }));
    reg.push(entry(state, "portrait_id", FlagShape::Field { shift: 28, width: 4 }));
    let bk = "cards_bk";
    let counts = [
        "position_hold_count",
        "slot_share_count",
        "drop_hold_count",
        "slot_hold_count",
        "touch_count",
        "server_count",
        "tile_stock_0",
        "tile_stock_1",
    ];
    for (i, name) in counts.iter().enumerate() {
        reg.push(entry(bk, name, FlagShape::Field { shift: 2 * i as u32, width: 2 }));
    }
    reg.push(entry(bk, "micro_is_card", FlagShape::Bit { bit: 16 }));
    reg.push(entry(bk, "stack_state", FlagShape::Field { shift: 17, width: 2 }));
    reg.push(entry(bk, "stack_index", FlagShape::Field { shift: 19, width: 5 }));
    reg.push(entry(bk, "position_dirty", FlagShape::Bit { bit: 24 }));
    reg.push(entry(bk, "position_preserve", FlagShape::Bit { bit: 25 }));
    reg.push(entry(bk, "data_dirty", FlagShape::Bit { bit: 26 }));
    reg.push(entry(bk, "data_preserve", FlagShape::Bit { bit: 27 }));
    reg
}

const NOW: u64 = 1_000_000;
const DEAD: u32 = 1;
const MAGNETIC: u32 = 1 << 3;
const OWNED: u32 = 1 << 5;
const SOUL: u16 = 0x6001;
const LOG: u16 = 0x2001;
const AXE: u16 = 0x2002;
const FOREST: u16 = 0x7012;
const WOOD: u16 = 1;
const OAK: u16 = 2;
const ME: ConnectionId = ConnectionId { hi: 1, lo: 2 };

// ---- builders ------------------------------------------------------
fn w(text: &str) -> Seg {
    Seg::Word(text.to_string())
}

fn ix(n: u32) -> Seg {
    Seg::Index(n)
}

fn slot(iterator_id: u32, offset: u32) -> Seg {
    Seg::Slot { iterator_id, offset }
}

fn sw(text: &str) -> Segment {
    Segment::Word(text.to_string())
}

fn si(n: u32) -> Segment {
    Segment::Index(n)
}

fn num(n: i64) -> Option<StatementValue> {
    Some(StatementValue::Int(n))
}

fn text(t: &str) -> Option<StatementValue> {
    Some(StatementValue::Str { text: t.to_string(), path: None })
}

fn read(path: Vec<Segment>) -> Option<StatementValue> {
    Some(StatementValue::Str { text: String::new(), path: Some(path) })
}

fn stmt(segments: Vec<Seg>, value: Option<StatementValue>) -> Stmt {
    Stmt { segments, value, slot_hold: false, position_hold: false }
}

fn iterator(branch: u8, slot_hold: bool, position_hold: bool) -> SlotIterator {
    SlotIterator { parent: Vec::new(), branch, slot_hold, position_hold }
}

/// A recipe over one claimed slot on branch 1.
fn recipe(id: u16, input: Vec<Stmt>, output: Vec<Stmt>) -> Recipe {
    Recipe {
        id,
        iterators: vec![iterator(1, true, false)],
        input,
        output,
        anchors_root: true,
        root_slot_hold: false,
        root_position_hold: true,
    }
}

/// A recipe that takes wood from the tile on branch 0.
fn tile_recipe(id: u16) -> Recipe {
    Recipe {
        id,
        iterators: vec![iterator(0, false, false)],
        input: vec![stmt(vec![slot(0, 0), w("aspect"), w("wood"), w("min")], num(1))],
        output: vec![stmt(vec![slot(0, 0), w("aspect"), w("wood"), w("sub")], num(1))],
        anchors_root: false,
        root_slot_hold: false,
        root_position_hold: false,
    }
}

fn definition(packed: u16, key: &str, flags: u32) -> CardDefinition {
    CardDefinition {
        packed,
        key: key.to_string(),
        flags,
        aspects: Vec::new(),
        stock: Vec::new(),
        lifecycle_recipe: None,
        magnetic_duration_ms: None,
    }
}

fn env() -> Env {
    let reg = flag_registry();
    let mut kinds = vec![0u8; 256];
    kinds[packed::WORLD_LAYER as usize] = 1;
    let mut log = definition(LOG, "log", 0);
    log.aspects = vec![
        AspectValue { aspect_id: WOOD, value: 2 },
        AspectValue { aspect_id: OAK, value: 3 },
        AspectValue { aspect_id: 9, value: 100 },
    ];
    let mut forest = definition(FOREST, "forest", 0);
    forest.stock = vec![
        StockSlot { aspect_id: 9, default: 0 },
        StockSlot { aspect_id: OAK, default: 3 },
    ];
    let mut egg = definition(0x2003, "egg", MAGNETIC);
    egg.lifecycle_recipe = Some(42);
    let stone = definition(0x2004, "stone", MAGNETIC);
    Env {
        now_ms: NOW,
        state: state_flags(&reg),
        bk: bk_flags(&reg),
        catalog: Catalog {
            definitions: vec![
                definition(SOUL, "soul", 0),
                log,
                definition(AXE, "axe", 0),
                forest,
                egg,
                stone,
            ],
            aspects: vec![
                AspectDefinition { name: "wood".to_string(), id: WOOD, ancestors: Vec::new() },
                AspectDefinition { name: "oak".to_string(), id: OAK, ancestors: vec![WOOD] },
                AspectDefinition { name: "iron".to_string(), id: 3, ancestors: Vec::new() },
            ],
            blueprints: vec![Blueprint { key: "house".to_string(), id: 2 }],
            recipes: vec![
                recipe(
                    1,
                    vec![stmt(vec![slot(0, 0), w("def_id")], text("log"))],
                    vec![
                        stmt(vec![w("sys"), w("duration"), w("set")], num(10)),
                        stmt(vec![slot(0, 0), w("destroy")], None),
                        stmt(vec![w("root"), w("inventory"), w("create")], text("axe")),
                        stmt(vec![w("root"), w("style"), w("set")], text("rtl")),
                    ],
                ),
                tile_recipe(2),
                recipe(3, Vec::new(), vec![stmt(vec![w("root"), w("vanish")], None)]),
                recipe(
                    4,
                    Vec::new(),
                    vec![stmt(vec![w("root"), w("inventory"), w("create")], text("nothing"))],
                ),
            ],
            mini_zone_type: None,
        },
        loose_kinds: kinds,
        loose_rect: 2,
    }
}

fn tables() -> Tables {
    Tables {
        cards: Vec::new(),
        card_id_counter: None,
        souls: Vec::new(),
        soul_privates: Vec::new(),
        pending_actions: Vec::new(),
        lifecycle_pending: Vec::new(),
        players: Vec::new(),
        player_sessions: Vec::new(),
        player_profiles: Vec::new(),
        rosters: Vec::new(),
        player_id_counter: None,
        zones: Vec::new(),
        regions: Vec::new(),
        next_sequence: 0,
    }
}

fn put(e: &Env, tb: &mut Tables, id: u32, m: Micro, owner: u32, def: u16, state: u32) {
    cards::create_at(e, tb, id, 100, world(), m, owner, def, state, 0);
}

fn world() -> u64 {
    packed::pack_macro_zone_full(0, packed::WORLD_LAYER, 0, 0)
}

/// A player with a soul `10` that owns a log `11` and an axe `12`, and a forest
/// tile with stocks `(1, 2)` on cell `(4, 3)`.
fn scene(e: &Env) -> Tables {
    let mut tb = tables();
    players::claim_or_login(e, &mut tb, ME, "ada".to_string()).unwrap();
    put(e, &mut tb, 10, Micro::snap(1, 1, 1), FIRST_PLAYER_ID, SOUL, OWNED);
    put(e, &mut tb, 11, Micro::snap(2, 2, 1), 10, LOG, 0);
    put(e, &mut tb, 12, Micro::Stacked { root: 10, branch: 2, index: 0 }, 10, AXE, 0);
    let mut seq = tb.next_sequence;
    let def = packed::pack_zone_definition(7);
    zones::create_at(&mut tb.zones, &mut seq, 1, world(), def, 0, &[0; 16], 50);
    zones::set_tile_at(&mut tb.zones, &mut seq, 1, 50, 3, 4, 0x12, 1, 2);
    tb.next_sequence = seq;
    tb
}

const HEX: HexLocation = HexLocation { zone_id: 1, macro_zone: 0, col: 4, row: 3, owner_id: 0 };

// ---- paths ---------------------------------------------------------
#[test]
fn path_words_and_bindings() {
    assert!(path::is_word(&w("root"), "root"));
    assert!(!path::is_word(&ix(3), "root"));
    assert!(path::text_is(&"log".to_string(), "log"));
    let b = vec![vec![7, 0]];
    assert_eq!(path::read_binding(&b, 0, 0), Ok(7));
    assert_eq!(path::read_binding(&b, 1, 0), Err(PathError::NoBinding { iterator_id: 1 }));
    assert_eq!(path::read_binding(&b, 0, 2), Err(PathError::NoOffset { iterator_id: 0, offset: 2 }));
}

#[test]
fn paths_walk_owners_and_parents() {
    let e = env();
    let tb = scene(&e);
    let b = vec![vec![11, 0]];
    let go = |segs: Vec<Seg>, root: u32| {
        let n = segs.len();
        path::resolve_card_target(&e, &tb, &segs, 0, n, &b, root)
    };
    assert_eq!(go(vec![w("root")], 10), Ok(10));
    assert_eq!(go(vec![slot(0, 0), w("owner")], 10), Ok(10));
    assert_eq!(go(vec![slot(0, 0), w("owner"), w("owner")], 10), Ok(FIRST_PLAYER_ID));
    assert_eq!(go(vec![w("root"), w("parent")], 12), Ok(10));
    assert_eq!(go(vec![w("root"), slot(0, 0)], 12), Ok(11));
    assert_eq!(go(vec![], 10), Err(PathError::BadAnchor));
    assert_eq!(go(vec![w("moon")], 10), Err(PathError::BadAnchor));
    assert_eq!(go(vec![w("root")], 0), Err(PathError::RootIsZero));
    assert_eq!(go(vec![w("root"), w("owner")], 99), Err(PathError::CardMissing { card_id: 99 }));
    assert_eq!(go(vec![w("root"), w("sideways")], 10), Err(PathError::BadSegment));
    assert_eq!(go(vec![slot(0, 1)], 10), Err(PathError::EndsAtZero));
    let mut tb2 = scene(&e);
    cards::create_at(&e, &mut tb2, 20, 100, 0, Micro::snap(0, 0, 0), 0, LOG, 0, 0);
    let at = |segs: Vec<Seg>| path::resolve_card_target(&e, &tb2, &segs, 0, 2, &b, 20);
    assert_eq!(at(vec![w("root"), w("owner")]), Err(PathError::NoOwner { card_id: 20 }));
    assert_eq!(at(vec![w("root"), w("parent")]), Err(PathError::NoParent { card_id: 20 }));
}

#[test]
fn slot_references_collapse_to_their_iterator() {
    let mut nested = iterator(2, false, false);
    nested.parent = vec![w("root")];
    let its = vec![iterator(1, true, false), nested];
    let raw = vec![sw("root"), sw("slot"), si(2), si(5), sw("owner")];
    let out = path::collapse_slots_readonly(&raw, 5, &its).unwrap();
    assert_eq!(out.len(), 3);
    assert!(matches!(out[1], Seg::Slot { iterator_id: 1, offset: 5 }));
    assert!(path::is_word(&out[2], "owner"));
    let top = path::collapse_slots_readonly(&vec![sw("slot"), si(1), si(0)], 3, &its).unwrap();
    assert!(matches!(top[0], Seg::Slot { iterator_id: 0, offset: 0 }));
    let bad = |b: u32| path::collapse_slots_readonly(&vec![sw("slot"), si(b), si(0)], 3, &its).err();
    assert_eq!(bad(256), Some(PathError::BranchTooLarge { value: 256 }));
    assert_eq!(bad(7), Some(PathError::NoIterator { branch: 7 }));
}

// ---- the tape ------------------------------------------------------
struct Bench {
    e: Env,
    tb: Tables,
    r: Recipe,
    walker: TapeWalker,
    hex: Option<HexLocation>,
}

impl Bench {
    fn new() -> Bench {
        let e = env();
        let tb = scene(&e);
        let mut r = recipe(1, Vec::new(), Vec::new());
        r.iterators.push(iterator(0, false, false));
        r.iterators.push(iterator(3, false, false));
        Bench { e, tb, r, walker: TapeWalker::new(), hex: Some(HEX) }
    }

    fn run(&mut self, segs: Vec<Seg>, value: Option<StatementValue>) -> Result<(), TapeError> {
        let b = vec![vec![11], vec![0], vec![0]];
        tape::execute_stmt(
            &self.e,
            &self.tb,
            &mut self.walker,
            &self.r,
            &segs,
            0,
            &value,
            &b,
            10,
            &self.hex,
        )
    }
}

#[test]
fn system_statements_set_the_duration() {
    let mut b = Bench::new();
    assert_eq!(b.run(vec![w("sys"), w("duration"), w("set")], num(7)), Ok(()));
    assert_eq!(b.walker.duration, 7);
    assert_eq!(b.run(vec![w("sys"), w("duration")], num(7)), Err(TapeError::SysShape));
    assert_eq!(b.run(vec![w("sys"), ix(0), w("set")], num(7)), Err(TapeError::SysSlotNotWord));
    assert_eq!(b.run(vec![w("sys"), w("duration"), w("add")], num(7)), Err(TapeError::SysNotSet));
    assert_eq!(b.run(vec![w("sys"), w("speed"), w("set")], num(7)), Err(TapeError::SysUnknownSlot));
    assert_eq!(
        b.run(vec![w("sys"), w("duration"), w("set")], None),
        Err(TapeError::DurationNotInteger)
    );
}

#[test]
fn variables_hold_numbers_and_read_aspects() {
    let mut b = Bench::new();
    assert_eq!(b.run(vec![w("var"), ix(2), w("set")], num(5)), Ok(()));
    assert_eq!(b.run(vec![w("var"), ix(2), w("add")], num(3)), Ok(()));
    assert_eq!(b.run(vec![w("var"), ix(2), w("sub")], num(10)), Ok(()));
    assert_eq!(b.walker.vars[2], -2);
    // Wood counts its descendant oak: 2 + 3.
    let wood = vec![sw("slot"), si(1), si(0), sw("aspect"), sw("wood")];
    assert_eq!(b.run(vec![w("var"), ix(0), w("set")], read(wood)), Ok(()));
    assert_eq!(b.walker.vars[0], 5);
    assert_eq!(b.run(vec![w("var"), ix(0), w("set")], num(i32::MAX as i64)), Ok(()));
    assert_eq!(b.run(vec![w("var"), ix(0), w("add")], num(1)), Ok(()));
    assert_eq!(b.walker.vars[0], i32::MAX);
}

#[test]
fn variable_statements_are_checked() {
    let mut b = Bench::new();
    let var = |n: Seg, op: Seg| vec![w("var"), n, op];
    assert_eq!(b.run(vec![w("var"), ix(0)], num(1)), Err(TapeError::VarShape));
    assert_eq!(b.run(var(w("x"), w("set")), num(1)), Err(TapeError::VarIndexExpected));
    assert_eq!(b.run(var(ix(8), w("set")), num(1)), Err(TapeError::VarOutOfRange { index: 8 }));
    assert_eq!(b.run(var(ix(0), ix(1)), num(1)), Err(TapeError::VarOpNotWord));
    assert_eq!(b.run(var(ix(0), w("set")), None), Err(TapeError::VarNeedsValue));
    assert_eq!(b.run(var(ix(0), w("mul")), num(1)), Err(TapeError::VarUnsupportedOp));
    assert_eq!(b.run(var(ix(0), w("set")), text("x")), Err(TapeError::NoPath));
    let mut path = |p: Vec<Segment>| b.run(vec![w("var"), ix(0), w("set")], read(p));
    assert_eq!(path(vec![sw("root"), sw("aspect")]), Err(TapeError::PathTooShort));
    assert_eq!(path(vec![sw("root"), sw("x"), sw("wood")]), Err(TapeError::AspectExpected));
    assert_eq!(path(vec![sw("root"), sw("aspect"), si(1)]), Err(TapeError::AspectNameNotWord));
    assert_eq!(path(vec![sw("root"), sw("aspect"), sw("tin")]), Err(TapeError::UnknownAspect));
    assert_eq!(
        path(vec![sw("moon"), sw("aspect"), sw("wood")]),
        Err(TapeError::Path(PathError::BadAnchor))
    );
    put(&b.e, &mut b.tb, 10, Micro::snap(0, 0, 0), FIRST_PLAYER_ID, 0x6999, OWNED);
    assert_eq!(
        b.run(vec![w("var"), ix(0), w("set")], read(vec![sw("root"), sw("aspect"), sw("wood")])),
        Err(TapeError::UnknownDefinition { card_id: 10 })
    );
}

#[test]
fn guards_run_the_inner_statement() {
    let mut b = Bench::new();
    b.run(vec![w("var"), ix(0), w("set")], num(5)).unwrap();
    let guard = |op: &str, n: u32| {
        vec![w("when"), w("var"), ix(0), w(op), ix(n), w("sys"), w("duration"), w("set")]
    };
    for (op, n, runs) in [
        ("gt", 4, true),
        ("gt", 5, false),
        ("ge", 5, true),
        ("lt", 5, false),
        ("le", 5, true),
        ("eq", 5, true),
        ("ne", 5, false),
    ] {
        b.walker.duration = 0;
        assert_eq!(b.run(guard(op, n), num(9)), Ok(()));
        assert_eq!(b.walker.duration == 9, runs);
    }
}

#[test]
fn guards_are_checked() {
    let mut b = Bench::new();
    let v = || num(9);
    let tail = |mut head: Vec<Seg>| {
        head.extend(vec![w("sys"), w("duration"), w("set")]);
        head
    };
    assert_eq!(b.run(tail(vec![w("when"), w("var"), ix(0)]), v()), Err(TapeError::NoComparison));
    assert_eq!(
        b.run(vec![w("when"), w("var"), ix(0), w("gt")], v()),
        Err(TapeError::NoComparisonValue)
    );
    assert_eq!(
        b.run(tail(vec![w("when"), w("var"), ix(0), w("gt"), w("x")]), v()),
        Err(TapeError::ComparisonWithWord)
    );
    assert_eq!(
        b.run(tail(vec![w("when"), w("var"), ix(0), w("gt"), slot(0, 0)]), v()),
        Err(TapeError::ComparisonWithSlot)
    );
    assert_eq!(
        b.run(vec![w("when"), w("var"), ix(0), w("gt"), ix(1)], v()),
        Err(TapeError::NoInnerStatement)
    );
    assert_eq!(
        b.run(tail(vec![w("when"), w("root"), ix(0), w("gt"), ix(1)]), v()),
        Err(TapeError::PredicateNotVariable)
    );
    assert_eq!(
        b.run(tail(vec![w("when"), w("var"), ix(9), w("gt"), ix(1)]), v()),
        Err(TapeError::VarOutOfRange { index: 9 })
    );
}

#[test]
fn statement_heads_are_checked() {
    let mut b = Bench::new();
    assert_eq!(b.run(vec![], None), Err(TapeError::Malformed));
    assert_eq!(b.run(vec![ix(1), w("set")], None), Err(TapeError::Malformed));
    assert_eq!(b.run(vec![w("moon"), w("set")], None), Err(TapeError::UnsupportedHead));
    assert_eq!(b.run(vec![w("root"), ix(1)], None), Err(TapeError::OpNotWord));
    assert_eq!(b.run(vec![w("root"), w("vanish")], None), Err(TapeError::UnsupportedOp));
}

#[test]
fn card_statements_push_effects() {
    let mut b = Bench::new();
    b.run(vec![slot(0, 0), w("destroy")], None).unwrap();
    b.run(vec![w("root"), w("inventory"), w("create")], text("axe")).unwrap();
    b.run(vec![w("root"), w("stack"), ix(2), w("create")], text("axe")).unwrap();
    b.run(vec![w("root"), w("blueprint"), w("unlock")], text("house")).unwrap();
    b.run(vec![w("root"), w("owner"), w("aspect"), w("faction"), w("set")], num(2)).unwrap();
    assert!(matches!(b.walker.pending[0], Effect::Destroy { card_id: 11 }));
    assert!(matches!(&b.walker.pending[1],
        Effect::Create { def_key, owner_id: 10 } if def_key == "axe"));
    assert!(matches!(&b.walker.pending[2],
        Effect::CreateDeferred { def_key, host_card_id: 10 } if def_key == "axe"));
    assert!(matches!(&b.walker.pending[3],
        Effect::UnlockBlueprint { blueprint_key, target_card_id: 10 } if blueprint_key == "house"));
    assert!(matches!(b.walker.pending[4],
        Effect::SetPlayerFaction { player_id: FIRST_PLAYER_ID, faction: 2 }));
    b.run(vec![slot(0, 0), w("style"), w("set")], text("ltr")).unwrap();
    // Setting a style has no effect at completion.
    assert_eq!(b.walker.styles[&11], 1);
    assert_eq!(b.walker.pending.len(), 5);
}

#[test]
fn card_statements_are_checked() {
    let mut b = Bench::new();
    let faction = || vec![w("root"), w("owner"), w("aspect"), w("faction"), w("set")];
    assert_eq!(
        b.run(vec![w("root"), w("inventory"), w("create")], num(1)),
        Err(TapeError::CreateNeedsKey)
    );
    assert_eq!(b.run(vec![w("root"), w("create")], text("axe")), Err(TapeError::CreatePath));
    assert_eq!(b.run(vec![w("root"), w("unlock")], text("house")), Err(TapeError::UnlockPath));
    assert_eq!(
        b.run(vec![w("root"), w("blueprint"), w("unlock")], num(1)),
        Err(TapeError::UnlockNeedsKey)
    );
    assert_eq!(
        b.run(vec![w("root"), w("aspect"), w("faction"), w("set")], num(1)),
        Err(TapeError::NotAPlayer { id: 10 })
    );
    assert_eq!(b.run(faction(), text("x")), Err(TapeError::FactionNeedsInteger));
    assert_eq!(b.run(faction(), num(4)), Err(TapeError::FactionOutOfRange));
    assert_eq!(
        b.run(vec![w("root"), w("style"), w("set")], text("loud")),
        Err(TapeError::UnknownStyle)
    );
    assert_eq!(
        b.run(vec![w("root"), w("style"), w("set")], None),
        Err(TapeError::StyleNeedsValue)
    );
    assert_eq!(
        b.run(vec![slot(5, 0), w("destroy")], None),
        Err(TapeError::Path(PathError::NoBinding { iterator_id: 5 }))
    );
}

#[test]
fn styles_are_named_or_numbered() {
    assert_eq!(tape::style_from_value(&text("none")), Ok(0));
    assert_eq!(tape::style_from_value(&text("rtl")), Ok(2));
    assert_eq!(tape::style_from_value(&num(13)), Ok(5));
    assert_eq!(tape::style_from_value(&num(-1)), Ok(7));
}

#[test]
fn tile_stock_statements_find_their_slot() {
    let mut b = Bench::new();
    let at = |op: &str| vec![slot(1, 0), w("aspect"), w("wood"), w(op)];
    b.run(at("sub"), num(1)).unwrap();
    b.run(at("add"), num(300)).unwrap();
    b.run(at("set"), num(-4)).unwrap();
    let seen: Vec<(StockOp, u8, usize)> = b
        .walker
        .pending
        .iter()
        .map(|x| match x {
            Effect::ModifyTileStock { zone_id: 1, row: 3, col: 4, slot, op, delta } => {
                (*op, *delta, *slot)
            }
            _ => panic!("unexpected effect"),
        })
        .collect();
    assert_eq!(
        seen,
        vec![(StockOp::Sub, 1, 1), (StockOp::Add, 255, 1), (StockOp::Assign, 0, 1)]
    );
}

#[test]
fn tile_stock_statements_are_checked() {
    let mut b = Bench::new();
    let stock = |head: Vec<Seg>, name: Seg| {
        let mut s = head;
        s.extend(vec![w("aspect"), name, w("sub")]);
        s
    };
    assert_eq!(b.run(vec![slot(1, 0), w("sub")], num(1)), Err(TapeError::StockPathTooShort));
    assert_eq!(
        b.run(vec![slot(1, 0), w("x"), w("wood"), w("sub")], num(1)),
        Err(TapeError::AspectExpected)
    );
    assert_eq!(b.run(stock(vec![slot(1, 0)], ix(1)), num(1)), Err(TapeError::AspectNameNotWord));
    assert_eq!(b.run(stock(vec![slot(1, 0)], w("wood")), None), Err(TapeError::StockNeedsInteger));
    assert_eq!(
        b.run(stock(vec![w("root")], w("wood")), num(1)),
        Err(TapeError::StockTargetNotSlot)
    );
    assert_eq!(
        b.run(stock(vec![slot(0, 0)], w("wood")), num(1)),
        Err(TapeError::StockTargetNotTile)
    );
    assert_eq!(
        b.run(stock(vec![slot(9, 0)], w("wood")), num(1)),
        Err(TapeError::IteratorOutOfRange { iterator_id: 9 })
    );
    assert_eq!(b.run(stock(vec![slot(1, 0)], w("tin")), num(1)), Err(TapeError::UnknownAspect));
    assert_eq!(b.run(stock(vec![slot(1, 0)], w("iron")), num(1)), Err(TapeError::NoStockSlot));
    b.hex = Some(HexLocation { col: 0, ..HEX });
    assert_eq!(
        b.run(stock(vec![slot(1, 0)], w("wood")), num(1)),
        Err(TapeError::TileUndefined { def_id: 0 })
    );
    b.hex = Some(HexLocation { col: 8, ..HEX });
    assert_eq!(
        b.run(stock(vec![slot(1, 0)], w("wood")), num(1)),
        Err(TapeError::TileMissing { row: 3, col: 8 })
    );
    b.hex = Some(HexLocation { zone_id: 5, ..HEX });
    assert_eq!(
        b.run(stock(vec![slot(1, 0)], w("wood")), num(1)),
        Err(TapeError::ZoneMissing { zone_id: 5 })
    );
    b.hex = None;
    assert_eq!(b.run(stock(vec![slot(1, 0)], w("wood")), num(1)), Err(TapeError::NoSyntheticTile));
}

#[test]
fn aspects_add_up_over_descendants() {
    let e = env();
    let log = e.catalog.decode_definition(LOG).unwrap();
    assert_eq!(tape::sum_aspects(&e.catalog, log, WOOD), 5);
    assert_eq!(tape::sum_aspects(&e.catalog, log, OAK), 3);
    assert!(e.catalog.is_aspect_descendant(OAK, WOOD));
    assert!(!e.catalog.is_aspect_descendant(WOOD, OAK));
    assert_eq!(e.catalog.aspect_id(&"oak".to_string()), Some(OAK));
    assert_eq!(e.catalog.find_packed_by_key(&"axe".to_string()), Some(AXE));
    assert_eq!(e.catalog.find_blueprint(&"house".to_string()), Some(2));
    assert!(e.catalog.recipe(99).is_none());
}

// ---- plans ---------------------------------------------------------
#[test]
fn plans_collect_duration_effects_and_holds() {
    let e = env();
    let tb = scene(&e);
    let r = e.catalog.recipe(1).unwrap();
    let p = plan::plan(&e, &tb, r, &vec![vec![11]], 10, &None).ok().unwrap();
    assert_eq!(p.duration_ms(), 10_000);
    assert_eq!(p.pending.len(), 2);
    assert_eq!(p.styles[&10], 2);
    assert_eq!(
        *p.holds(),
        vec![
            (10, HoldKinds { slot_hold: false, position_hold: true, slot_share: true }),
            (11, HoldKinds { slot_hold: true, position_hold: false, slot_share: false }),
        ]
    );
    let bad = e.catalog.recipe(3).unwrap();
    assert_eq!(
        plan::plan(&e, &tb, bad, &vec![vec![11]], 10, &None).err(),
        Some(PlanError { index: 0, error: TapeError::UnsupportedOp })
    );
}

#[test]
fn holds_are_the_union_over_iterators() {
    let mut r = recipe(1, Vec::new(), Vec::new());
    r.iterators.push(iterator(2, false, true));
    let h = plan::compute_holds(&r, &vec![vec![30, 0, 20], vec![20]], 25);
    assert_eq!(
        h,
        vec![
            (20, HoldKinds { slot_hold: true, position_hold: true, slot_share: true }),
            (25, HoldKinds { slot_hold: false, position_hold: true, slot_share: true }),
            (30, HoldKinds { slot_hold: true, position_hold: false, slot_share: false }),
        ]
    );
    r.anchors_root = false;
    assert_eq!(plan::compute_holds(&r, &vec![], 25), vec![]);
}

// ---- verification --------------------------------------------------
fn check(tb: &Tables, s: Stmt, tile: Option<SyntheticTile>) -> Result<(), VerifyError> {
    let e = env();
    let mut r = recipe(1, Vec::new(), Vec::new());
    r.iterators.push(iterator(0, false, false));
    let mut nested = iterator(2, false, false);
    nested.parent = vec![w("root")];
    r.iterators.push(nested);
    verify::verify_stmt(&e, tb, &r, &s, 10, &vec![vec![11], vec![0], vec![12]], &tile, NOW)
}

#[test]
fn definitions_and_aspects_are_required() {
    let e = env();
    let tb = scene(&e);
    let tile = Some((FOREST, (1, 2)));
    let def = |p: Vec<Seg>, v: Option<StatementValue>| {
        let mut s = p;
        s.push(w("def_id"));
        check(&tb, stmt(s, v), tile)
    };
    assert_eq!(def(vec![slot(0, 0)], text("log")), Ok(()));
    assert_eq!(def(vec![slot(1, 0)], text("forest")), Ok(()));
    assert_eq!(def(vec![slot(0, 0), w("owner")], text("soul")), Ok(()));
    assert_eq!(def(vec![w("root"), slot(2, 0)], text("axe")), Ok(()));
    assert_eq!(def(vec![slot(0, 0)], text("axe")), Err(VerifyError::WrongDefinition));
    assert_eq!(def(vec![slot(0, 0)], num(1)), Err(VerifyError::DefinitionNeedsText));
    let min = |p: Vec<Seg>, name: &str, v: Option<StatementValue>| {
        let mut s = p;
        s.extend(vec![w("aspect"), w(name), w("min")]);
        check(&tb, stmt(s, v), tile)
    };
    assert_eq!(min(vec![slot(0, 0)], "wood", num(5)), Ok(()));
    assert_eq!(
        min(vec![slot(0, 0)], "wood", num(6)),
        Err(VerifyError::BelowMinimum { required: 6, total: 5 })
    );
    // A tile counts its stock, not its definition's values.
    assert_eq!(min(vec![slot(1, 0)], "wood", num(2)), Ok(()));
    assert_eq!(
        min(vec![slot(1, 0)], "oak", num(3)),
        Err(VerifyError::BelowMinimum { required: 3, total: 2 })
    );
    assert_eq!(min(vec![slot(0, 0)], "tin", num(1)), Err(VerifyError::UnknownAspect));
    assert_eq!(min(vec![slot(0, 0)], "wood", None), Err(VerifyError::MinNeedsInteger));
}

#[test]
fn input_statements_are_checked() {
    let e = env();
    let mut tb = scene(&e);
    let tile = Some((FOREST, (1, 2)));
    let v = || num(1);
    let run = |tb: &Tables, s: Vec<Seg>| check(tb, stmt(s, v()), tile);
    assert_eq!(run(&tb, vec![]), Err(VerifyError::NoPredicate));
    assert_eq!(run(&tb, vec![slot(0, 0), ix(1)]), Err(VerifyError::NoPredicate));
    assert_eq!(run(&tb, vec![w("aspect"), w("wood"), w("min")]), Err(VerifyError::MinPath));
    assert_eq!(
        run(&tb, vec![slot(0, 0), w("x"), w("wood"), w("min")]),
        Err(VerifyError::AspectExpected)
    );
    assert_eq!(
        run(&tb, vec![slot(0, 0), w("aspect"), ix(1), w("min")]),
        Err(VerifyError::AspectNameNotWord)
    );
    for op in ["destroy", "create", "set", "add", "sub", "random"] {
        assert_eq!(run(&tb, vec![slot(0, 0), w(op)]), Err(VerifyError::OutputOp));
    }
    assert_eq!(run(&tb, vec![slot(0, 0), w("ge")]), Err(VerifyError::ComparisonOp));
    assert_eq!(run(&tb, vec![slot(0, 0), w("max")]), Err(VerifyError::UnsupportedPredicate));
    let wood = |p: Vec<Seg>| {
        let mut s = p;
        s.extend(vec![w("aspect"), w("wood"), w("min")]);
        s
    };
    assert_eq!(
        run(&tb, wood(vec![slot(7, 0)])),
        Err(VerifyError::IteratorOutOfRange { iterator_id: 7 })
    );
    assert_eq!(
        run(&tb, wood(vec![slot(1, 0), w("owner")])),
        Err(VerifyError::TileHasNoChain)
    );
    assert_eq!(
        check(&tb, stmt(wood(vec![slot(1, 0)]), v()), None),
        Err(VerifyError::Unbound { iterator_id: 1, offset: 0 })
    );
    assert_eq!(
        run(&tb, wood(vec![w("root"), slot(0, 0), slot(0, 0)])),
        Err(VerifyError::SlotAfterSlot { iterator_id: 0, offset: 0 })
    );
    assert_eq!(
        run(&tb, wood(vec![w("moon")])),
        Err(VerifyError::Path(PathError::BadAnchor))
    );
    put(&e, &mut tb, 12, Micro::Stacked { root: 10, branch: 1, index: 0 }, 10, AXE, 0);
    assert_eq!(
        run(&tb, wood(vec![w("root"), slot(2, 0)])),
        Err(VerifyError::BranchMismatch { iterator_id: 2, expected: 2, actual: 1 })
    );
    put(&e, &mut tb, 11, Micro::snap(0, 0, 0), 10, 0x2999, 0);
    assert_eq!(
        run(&tb, wood(vec![slot(0, 0)])),
        Err(VerifyError::UnknownDefinition { packed_definition: 0x2999 })
    );
}

#[test]
fn the_first_failing_input_is_reported() {
    let e = env();
    let tb = scene(&e);
    let r = recipe(
        1,
        vec![
            stmt(vec![slot(0, 0), w("def_id")], text("log")),
            stmt(vec![slot(0, 0), w("def_id")], text("axe")),
        ],
        Vec::new(),
    );
    let b = vec![vec![11]];
    assert_eq!(
        verify::verify_input(&e, &tb, &r, 10, &b, &None, NOW),
        Some(InputError { index: 1, error: VerifyError::WrongDefinition })
    );
    assert_eq!(
        verify::resolve_target(&e, &tb, &r, &vec![slot(0, 0)], 1, 10, &b, &None, NOW),
        Ok((LOG, None))
    );
}

#[test]
fn bound_cards_must_be_free() {
    let e = env();
    let mut tb = scene(&e);
    let r = recipe(1, Vec::new(), Vec::new());
    let bind = |tb: &Tables, root: u32, row: Vec<u32>| {
        verify::validate_bindings(&e, tb, &r, 1, root, &vec![row], FIRST_PLAYER_ID, NOW)
    };
    assert_eq!(bind(&tb, 10, vec![11, 0, 12]), None);
    assert_eq!(bind(&tb, 99, vec![11]), Some(BindError::CardMissing { card_id: 99 }));
    assert_eq!(bind(&tb, 10, vec![98]), Some(BindError::CardMissing { card_id: 98 }));
    assert_eq!(bind(&tb, 10, vec![11, 11]), Some(BindError::BoundTwice { card_id: 11 }));
    put(&e, &mut tb, 20, Micro::snap(0, 0, 0), 10, LOG, DEAD);
    assert_eq!(bind(&tb, 10, vec![20]), Some(BindError::CardDead { card_id: 20 }));
    put(&e, &mut tb, 21, Micro::snap(0, 0, 0), 4444, SOUL, OWNED);
    assert_eq!(bind(&tb, 10, vec![21]), Some(BindError::NotOwned { card_id: 21, owner: 4444 }));
    // What the world owns is anyone's to use.
    put(&e, &mut tb, 22, Micro::snap(0, 0, 0), 0, LOG, 0);
    assert_eq!(bind(&tb, 10, vec![22]), None);
    let held = |kind: HoldKind, n: u32| {
        let mut tb = scene(&e);
        for _ in 0..n {
            cards::acquire_hold(&e, &mut tb, 11, 500, kind);
        }
        tb
    };
    assert_eq!(
        bind(&held(HoldKind::SlotHold, 1), 10, vec![11]),
        Some(BindError::Claimed { card_id: 11 })
    );
    assert_eq!(
        bind(&held(HoldKind::SlotShare, 1), 10, vec![11]),
        Some(BindError::Shared { card_id: 11 })
    );
    assert_eq!(bind(&held(HoldKind::Touch, 2), 10, vec![11]), None);
    assert_eq!(
        bind(&held(HoldKind::Touch, 3), 10, vec![11]),
        Some(BindError::Busy { card_id: 11 })
    );
    // The root may be shared, but nothing may be stacked on a blocked one.
    assert_eq!(bind(&held(HoldKind::SlotShare, 1), 11, vec![12]), None);
    assert_eq!(
        bind(&held(HoldKind::DropHold, 1), 11, vec![12]),
        Some(BindError::BlocksStacking { card_id: 11 })
    );
}

#[test]
fn magnetic_cards_belong_to_their_recipe() {
    let e = env();
    let mut tb = scene(&e);
    let r = recipe(1, Vec::new(), Vec::new());
    put(&e, &mut tb, 30, Micro::snap(0, 0, 0), 10, 0x2003, 0);
    put(&e, &mut tb, 31, Micro::snap(0, 0, 0), 10, 0x2004, 0);
    put(&e, &mut tb, 32, Micro::snap(0, 0, 0), 10, 0x2999, MAGNETIC);
    let bind = |id: u32, recipe_id: u16| {
        verify::validate_bindings(&e, &tb, &r, recipe_id, 10, &vec![vec![id]], FIRST_PLAYER_ID, NOW)
    };
    assert_eq!(bind(30, 42), None);
    assert_eq!(bind(30, 1), Some(BindError::LockedToRecipe { card_id: 30, recipe_id: 42 }));
    assert_eq!(bind(31, 1), Some(BindError::NoLifecycleRecipe { card_id: 31 }));
    assert_eq!(bind(32, 1), Some(BindError::UnknownDefinition { card_id: 32 }));
}

// ---- proposals -----------------------------------------------------
fn go(e: &Env, tb: &mut Tables, id: u16, root: u32, b: Vec<Vec<u32>>) -> Result<(), ProposeError> {
    let cell = packed::pack_micro_loose(4, 3, 0, 0);
    propose::propose_action(e, tb, ME, NOW, id, packed::WORLD_LAYER, 0, cell, root, &b)
}

#[test]
fn proposals_stitch_hold_and_complete() {
    let e = env();
    let mut tb = scene(&e);
    assert_eq!(go(&e, &mut tb, 1, 10, vec![vec![11]]), Ok(()));
    assert!(tb.pending_actions.is_empty());
    let end = NOW + 10_000;
    // At the start the log is a member of the root's stack and claimed.
    let log = cards::prior_at(&tb, 11, NOW).unwrap();
    assert_eq!(cards::micro_of(&e, &log), Micro::Stacked { root: 10, branch: 1, index: 0 });
    assert_eq!(cards::hold_count(&e, HoldKind::SlotHold, log.flags_bk), 1);
    assert_eq!(cards::hold_count(&e, HoldKind::Touch, log.flags_bk), 1);
    assert_eq!(log.flags_state & e.state.pos_need, e.state.pos_need);
    let root = cards::prior_at(&tb, 10, NOW).unwrap();
    assert_eq!(cards::hold_count(&e, HoldKind::SlotShare, root.flags_bk), 1);
    assert_eq!(cards::hold_count(&e, HoldKind::PositionHold, root.flags_bk), 1);
    // At the end the log is dead, every hold is given back, and the axe is there.
    let log = cards::prior_at(&tb, 11, end).unwrap();
    assert_eq!(log.flags_state & DEAD, DEAD);
    assert_eq!(cards::hold_count(&e, HoldKind::SlotHold, log.flags_bk), 0);
    assert_eq!(cards::hold_count(&e, HoldKind::Touch, log.flags_bk), 0);
    let root = cards::prior_at(&tb, 10, end).unwrap();
    assert_eq!(cards::hold_count(&e, HoldKind::SlotShare, root.flags_bk), 0);
    assert_eq!(cards::hold_count(&e, HoldKind::PositionHold, root.flags_bk), 0);
    assert_eq!(root.flags_state & e.state.progress_style_mask, 2 << 8);
    assert_eq!(root.flags_state & e.state.pos_need, 0);
    let axe = cards::prior_at(&tb, cards::FIRST_CARD_ID, end).unwrap();
    assert_eq!((axe.packed_definition, axe.owner_id), (AXE, 10));
    assert_eq!(cards::prior_at(&tb, cards::FIRST_CARD_ID, end - 1), None);
}

#[test]
fn tile_proposals_promote_their_tile() {
    let e = env();
    let mut tb = scene(&e);
    assert_eq!(go(&e, &mut tb, 2, 0, vec![vec![0]]), Ok(()));
    let tile = cards::FIRST_CARD_ID;
    let c = cards::prior_at(&tb, tile, NOW).unwrap();
    assert_eq!((c.packed_definition, c.macro_zone), (FOREST, world()));
    assert_eq!(tile_cards::tile_full_view(&e, &tb, world(), 4, 3, NOW), Some((FOREST, 1, 1)));
    assert!(tile_cards::find_tile_card_at(&e, &tb, world(), 4, 3, NOW).is_some());
    // A tile without stock does not do.
    let mut tb = scene(&e);
    let mut seq = tb.next_sequence;
    zones::set_tile_stock_at(&mut tb.zones, &mut seq, 1, 50, 3, 4, 1, 0);
    tb.next_sequence = seq;
    assert_eq!(
        go(&e, &mut tb, 2, 0, vec![vec![0]]),
        Err(ProposeError::Input(InputError {
            index: 0,
            error: VerifyError::BelowMinimum { required: 1, total: 0 },
        }))
    );
}

#[test]
fn tile_cards_are_promoted_and_restocked() {
    let e = env();
    let mut tb = scene(&e);
    assert_eq!(
        tile_cards::find_or_create_tile_card(&e, &mut tb, 5, 0, 0, NOW),
        Err(TileError::NoZone { location: 5 })
    );
    assert_eq!(
        tile_cards::find_or_create_tile_card(&e, &mut tb, world(), 8, 0, NOW),
        Err(TileError::OutOfRange { q: 8, r: 0 })
    );
    assert_eq!(
        tile_cards::find_or_create_tile_card(&e, &mut tb, world(), 0, 0, NOW),
        Err(TileError::Empty { q: 0, r: 0 })
    );
    let c = tile_cards::find_or_create_tile_card(&e, &mut tb, world(), 4, 3, NOW).unwrap();
    tile_cards::set_tile_stock(&e, &mut tb, c.card_id, NOW, 0, 3);
    assert_eq!(tile_cards::tile_full_view(&e, &tb, world(), 4, 3, NOW), Some((FOREST, 3, 2)));
    let cell = packed::pack_micro_loose(4, 3, 0, 0);
    let (tile, hex) = propose::derive_synthetic_hex(&e, &tb, packed::WORLD_LAYER, 0, cell, NOW).unwrap();
    assert_eq!(tile, (FOREST, (3, 2)));
    assert_eq!(hex, HEX);
    assert_eq!(propose::derive_synthetic_hex(&e, &tb, 31, 0, cell, NOW), None);
    // Once it stands in another zone, the cell has no tile-card.
    let c = tile_cards::find_tile_card_at(&e, &tb, world(), 4, 3, NOW).unwrap();
    cards::write_at(&e, &mut tb, cards::Card { macro_zone: 5, ..c }, NOW + 1);
    assert!(tile_cards::find_tile_card_at(&e, &tb, world(), 4, 3, NOW + 1).is_none());
}

#[test]
fn proposals_are_checked() {
    let e = env();
    let mut tb = tables();
    assert_eq!(
        go(&e, &mut tb, 1, 10, vec![vec![11]]),
        Err(ProposeError::Caller(PlayerError::NoSession))
    );
    let mut tb = scene(&e);
    assert_eq!(
        go(&e, &mut tb, 9, 10, vec![]),
        Err(ProposeError::UnknownRecipe { recipe_id: 9 })
    );
    assert_eq!(
        go(&e, &mut tb, 1, 10, vec![]),
        Err(ProposeError::BindingCount { expected: 1, actual: 0 })
    );
    assert_eq!(
        propose::propose_action(&e, &mut tb, ME, NOW + 1, 1, 64, 0, 0, 10, &vec![vec![11]]),
        Err(ProposeError::Time(TimeDrift::ClientAhead { by: 1 }))
    );
    assert_eq!(
        propose::propose_action(&e, &mut tb, ME, NOW, 2, 1, 0, 0, 0, &vec![vec![0]]),
        Err(ProposeError::NoTile)
    );
    assert_eq!(
        go(&e, &mut tb, 1, 10, vec![vec![12]]),
        Err(ProposeError::Input(InputError { index: 0, error: VerifyError::WrongDefinition }))
    );
    assert_eq!(
        go(&e, &mut tb, 1, 99, vec![vec![11]]),
        Err(ProposeError::Bind(BindError::CardMissing { card_id: 99 }))
    );
    assert_eq!(
        go(&e, &mut tb, 3, 10, vec![vec![11]]),
        Err(ProposeError::Plan(PlanError { index: 0, error: TapeError::UnsupportedOp }))
    );
    assert_eq!(
        go(&e, &mut tb, 4, 10, vec![vec![11]]),
        Err(ProposeError::Commit(CommitError::UnknownCard))
    );
    let key = pending_actions::dedup_key(1, 10, &vec![vec![11]]);
    let mut tb = scene(&e);
    pending_actions::install(&mut tb.pending_actions, key, NOW);
    assert_eq!(
        go(&e, &mut tb, 1, 10, vec![vec![11]]),
        Err(ProposeError::InFlight { dedup_key: key })
    );
}

#[test]
fn overdue_actions_block_other_proposals() {
    let e = env();
    let mut tb = scene(&e);
    put(&e, &mut tb, 30, Micro::snap(0, 0, 0), 10, 0x2003, 0);
    lifecycle_pending::install(&mut tb, 30, 5_000, FIRST_PLAYER_ID);
    players::resync_lifecycle_summary(&mut tb, FIRST_PLAYER_ID);
    assert_eq!(
        go(&e, &mut tb, 1, 10, vec![vec![11]]),
        Err(ProposeError::Blocked(Blocked {
            card_id: 30,
            expires_at_ms: 5_000,
            overdue_ms: NOW - 5_000,
        }))
    );
    // A proposal on the overdue card itself is let through to verification.
    assert_eq!(
        go(&e, &mut tb, 1, 10, vec![vec![30]]),
        Err(ProposeError::Input(InputError { index: 0, error: VerifyError::WrongDefinition }))
    );
}

#[test]
fn a_tile_that_vanished_cannot_be_promoted() {
    let e = env();
    let mut tb = scene(&e);
    let r = e.catalog.recipe(2).unwrap();
    // Nothing stands on the cell any more, so no tile is seen at all.
    let mut seq = tb.next_sequence;
    zones::set_tile_at(&mut tb.zones, &mut seq, 1, 50, 3, 4, 0, 0, 0);
    tb.next_sequence = seq;
    assert_eq!(go(&e, &mut tb, 2, 0, vec![vec![0]]), Err(ProposeError::NoTile));
    assert_eq!(r.id, 2);
}

#[test]
fn stitching_leaves_nested_rows_alone() {
    let e = env();
    let mut tb = scene(&e);
    let mut r = recipe(1, Vec::new(), Vec::new());
    let mut nested = iterator(2, false, false);
    nested.parent = vec![w("root")];
    r.iterators.push(nested);
    let before = cards::prior_at(&tb, 12, NOW);
    let cell = packed::pack_micro_loose(6, 6, 0, 0);
    propose::chain_stitch(&e, &mut tb, &r, 10, packed::WORLD_LAYER, 0, cell, &vec![vec![11], vec![12]], NOW);
    assert_eq!(cards::prior_at(&tb, 12, NOW), before);
    let root = cards::prior_at(&tb, 10, NOW).unwrap();
    assert_eq!(cards::micro_of(&e, &root), Micro::snap(6, 6, 1));
    let p = plan::plan(&e, &tb, &r, &vec![vec![11], vec![12]], 10, &None).ok().unwrap();
    propose::apply_locks(&e, &mut tb, &p, NOW);
    let axe = cards::prior_at(&tb, 12, NOW).unwrap();
    assert_eq!(cards::hold_count(&e, HoldKind::SlotShare, axe.flags_bk), 1);
}

#[test]
fn bound_proposals_need_no_session() {
    let e = env();
    let mut tb = scene(&e);
    tb.player_sessions.clear();
    let r = e.catalog.recipe(1).unwrap();
    let b = vec![vec![11]];
    assert_eq!(
        propose::propose_bound(&e, &mut tb, r, 1, 64, 0, 0, 10, &b, &None, FIRST_PLAYER_ID, NOW),
        Ok(())
    );
}

// ---- completion ----------------------------------------------------
fn finish(tb: &mut Tables, pending: Vec<Effect>) -> Result<(), CommitError> {
    let e = env();
    let r = recipe(1, Vec::new(), Vec::new());
    let mut p = plan::plan(&e, tb, &r, &vec![vec![]], 0, &None).ok().unwrap();
    p.pending = pending;
    p.duration = 1;
    completion::commit(&e, tb, &p, &vec![vec![]], 0, 500, 77)
}

#[test]
fn effects_are_carried_out() {
    let e = env();
    let mut tb = scene(&e);
    tb.soul_privates.push(SoulPrivate {
        card_id: 10,
        data_shard: 0,
        blueprints_0: 0,
        active_blueprints: 0,
    });
    pending_actions::install(&mut tb.pending_actions, 77, 1_500);
    let done = finish(
        &mut tb,
        vec![
            Effect::CreateDeferred { def_key: "axe".to_string(), host_card_id: 10 },
            Effect::CreateDeferred { def_key: "axe".to_string(), host_card_id: 999 },
            Effect::ModifyTileStock { zone_id: 1, row: 3, col: 4, slot: 0, op: StockOp::Add, delta: 9 },
            Effect::UnlockBlueprint { blueprint_key: "house".to_string(), target_card_id: 10 },
        ],
    );
    assert_eq!(done, Ok(()));
    assert!(tb.pending_actions.is_empty());
    let first = cards::prior_at(&tb, cards::FIRST_CARD_ID, 1_500).unwrap();
    assert_eq!(cards::micro_of(&e, &first), Micro::deferred(10));
    assert_eq!(first.owner_id, FIRST_PLAYER_ID);
    let lost = cards::prior_at(&tb, cards::FIRST_CARD_ID + 1, 1_500).unwrap();
    assert_eq!(cards::micro_of(&e, &lost), Micro::deferred(0));
    assert_eq!(tile_cards::tile_full_view(&e, &tb, world(), 4, 3, 1_500), Some((FOREST, 3, 2)));
    assert_eq!(tb.soul_privates[0].blueprints_0, 2);
    let later = finish(&mut tb, vec![Effect::ModifyTileStock {
        zone_id: 1,
        row: 3,
        col: 4,
        slot: 1,
        op: StockOp::Sub,
        delta: 9,
    }]);
    assert_eq!(later, Ok(()));
    assert_eq!(tile_cards::tile_full_view(&e, &tb, world(), 4, 3, 1_500), Some((FOREST, 3, 0)));
}

#[test]
fn factions_change_at_completion() {
    let mut tb = tables();
    players::create_at(&mut tb, 2000, "ada".to_string(), 10);
    let set = |id: u32| vec![Effect::SetPlayerFaction { player_id: id, faction: 3 }];
    assert_eq!(finish(&mut tb, set(2000)), Ok(()));
    assert_eq!(players::player_faction(&players::latest(&tb, 2000).unwrap()), 3);
    assert_eq!(
        finish(&mut tb, set(5)),
        Err(CommitError::Faction(PlayerError::PlayerNotFound { player_id: 5 }))
    );
}

#[test]
fn effects_that_fail_are_reported() {
    let e = env();
    let mut tb = scene(&e);
    let key = |k: &str| k.to_string();
    assert_eq!(
        finish(&mut tb, vec![Effect::Create { def_key: key("x"), owner_id: 10 }]),
        Err(CommitError::UnknownCard)
    );
    assert_eq!(
        finish(&mut tb, vec![Effect::CreateDeferred { def_key: key("x"), host_card_id: 10 }]),
        Err(CommitError::UnknownCard)
    );
    let stock = |zone_id: u32, col: u8| {
        vec![Effect::ModifyTileStock { zone_id, row: 3, col, slot: 0, op: StockOp::Assign, delta: 1 }]
    };
    assert_eq!(finish(&mut tb, stock(9, 4)), Err(CommitError::ZoneMissing { zone_id: 9 }));
    assert_eq!(
        finish(&mut tb, stock(1, 0)),
        Err(CommitError::Tile(TileError::Empty { q: 0, r: 3 }))
    );
    assert_eq!(
        finish(&mut tb, vec![Effect::UnlockBlueprint { blueprint_key: key("x"), target_card_id: 10 }]),
        Err(CommitError::UnknownBlueprint)
    );
    assert_eq!(
        finish(
            &mut tb,
            vec![Effect::UnlockBlueprint { blueprint_key: key("house"), target_card_id: 10 }]
        ),
        Err(CommitError::Unlock(GateError::NoSoulPrivate { card_id: 10 }))
    );
}

#[test]
fn participants_are_sorted_without_doubles() {
    assert_eq!(
        completion::find_participants(&vec![vec![30, 0, 20], vec![20, 5]], 25),
        vec![5, 20, 25, 30]
    );
    assert_eq!(completion::find_participants(&vec![vec![0]], 0), Vec::<u32>::new());
}

// ---- recipes on creation -------------------------------------------
fn candidate(index: u16, hex: Option<u32>, root: Option<u32>, has_spec: u32) -> Candidate {
    Candidate {
        index,
        hex,
        root,
        feasible: true,
        has_spec,
        duration: Some(Duration::Fixed { secs: 3 }),
        start_root: FlagOps { set: 1 << 2, clear: 0, slot_hold: None },
        start_hex: FlagOps { set: 0, clear: 1 << 2, slot_hold: None },
    }
}

#[test]
fn the_most_specific_recipe_is_picked() {
    let cs = vec![
        candidate(1, None, Some(2), 5),
        candidate(2, None, Some(2), 6),
        candidate(3, Some(1), None, 0),
        candidate(4, None, Some(2), 6),
        candidate(5, None, Some(0), 9),
    ];
    assert_eq!(on_create::pick(&cs, true), Some(2));
    assert_eq!(on_create::pick(&cs, false), Some(1));
    let mut none = vec![candidate(1, None, Some(2), 5)];
    none[0].feasible = false;
    assert_eq!(on_create::pick(&none, true), None);
}

#[test]
fn recipes_start_when_a_card_is_created() {
    let e = env();
    let mut tb = scene(&e);
    let cs = vec![candidate(7, None, Some(1), 0)];
    assert_eq!(
        on_create::trigger(&e, &mut tb, 11, NOW, &cs, false, true),
        Ok(Some(Started { index: 7, root: 11, hex: 0, completion_ms: 3_100 }))
    );
    let c = cards::prior_at(&tb, 11, 100).unwrap();
    assert_eq!(cards::hold_count(&e, HoldKind::SlotHold, c.flags_bk), 1);
    assert_eq!(cards::hold_count(&e, HoldKind::PositionHold, c.flags_bk), 0);
    assert_eq!(c.flags_state & (1 << 2), 1 << 2);
    let cs = vec![candidate(8, Some(1), Some(1), 0)];
    assert_eq!(
        on_create::trigger(&e, &mut tb, 12, NOW, &cs, true, true),
        Ok(Some(Started { index: 8, root: 12, hex: 12, completion_ms: 3_100 }))
    );
    let c = cards::prior_at(&tb, 12, 100).unwrap();
    assert_eq!(cards::hold_count(&e, HoldKind::PositionHold, c.flags_bk), 1);
    assert_eq!(c.flags_state & (1 << 2), 0);
    // Requirements that cannot be bound leave the holds and schedule nothing.
    assert_eq!(on_create::trigger(&e, &mut tb, 10, NOW, &cs, true, false), Ok(None));
    assert_eq!(on_create::trigger(&e, &mut tb, 99, NOW, &cs, true, true), Ok(None));
    assert_eq!(on_create::trigger(&e, &mut tb, 10, NOW, &vec![], true, true), Ok(None));
}

#[test]
fn recipes_without_a_fixed_duration_do_not_start() {
    let e = env();
    let mut tb = scene(&e);
    let before = tb.cards.len();
    let mut c = candidate(7, None, Some(1), 0);
    c.duration = Some(Duration::Conditional);
    assert_eq!(
        on_create::trigger(&e, &mut tb, 11, NOW, &vec![c], false, true),
        Err(TriggerError::ConditionalDuration { index: 7 })
    );
    let mut c = candidate(7, None, Some(1), 0);
    c.duration = None;
    assert_eq!(
        on_create::trigger(&e, &mut tb, 11, NOW, &vec![c], false, true),
        Err(TriggerError::NoDuration { index: 7 })
    );
    assert_eq!(tb.cards.len(), before);
}

#[test]
fn a_recipe_may_give_the_slot_back() {
    let e = env();
    let mut tb = scene(&e);
    let mut c = candidate(7, Some(1), Some(1), 0);
    c.start_root.slot_hold = Some(false);
    assert!(on_create::trigger(&e, &mut tb, 11, NOW, &vec![c], true, true).unwrap().is_some());
    let row = cards::prior_at(&tb, 11, 100).unwrap();
    assert_eq!(cards::hold_count(&e, HoldKind::SlotHold, row.flags_bk), 0);
    assert_eq!(cards::hold_count(&e, HoldKind::PositionHold, row.flags_bk), 1);
    // The hex has the last word.
    let mut c = candidate(7, Some(1), Some(1), 0);
    c.start_root.slot_hold = Some(false);
    c.start_hex.slot_hold = Some(true);
    assert!(on_create::trigger(&e, &mut tb, 12, NOW, &vec![c], true, true).unwrap().is_some());
    let row = cards::prior_at(&tb, 12, 100).unwrap();
    assert_eq!(cards::hold_count(&e, HoldKind::SlotHold, row.flags_bk), 1);
}

// ---- soul stacks ---------------------------------------------------
#[test]
fn soul_stacks_are_read_level_by_level() {
    let e = env();
    let mut tb = tables();
    put(&e, &mut tb, 10, Micro::snap(1, 1, 1), FIRST_PLAYER_ID, SOUL, OWNED);
    let on = |root: u32, branch: u8| Micro::Stacked { root, branch, index: 0 };
    put(&e, &mut tb, 22, on(21, 1), 10, LOG, 0);
    put(&e, &mut tb, 21, on(10, 1), 10, LOG, 0);
    put(&e, &mut tb, 23, on(10, 2), 10, LOG, 0);
    put(&e, &mut tb, 24, on(10, 1), 10, LOG, DEAD);
    let ids: Vec<u32> = soul_stack(&e, &tb, 10, 1).iter().map(|c| c.card_id).collect();
    assert_eq!(ids, vec![21, 22]);
    assert_eq!(soul_stack(&e, &tb, 0, 1).len(), 0);
    let has = on_create::has_candidates(&e, &tb, 22, 1, 2);
    assert_eq!(has.above, vec![LOG, LOG]);
    assert_eq!(has.below, vec![LOG]);
    put(&e, &mut tb, 30, Micro::snap(2, 1, 1), 0, LOG, 0);
    assert!(on_create::has_candidates(&e, &tb, 30, 1, 2).above.is_empty());
}
