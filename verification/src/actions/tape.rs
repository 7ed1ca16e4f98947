//! The output tape of a recipe.
//!
//! The tape is walked once, when an action is proposed. The walk reads the tables
//! and writes nothing; it gives a plan of effects, which are emitted at the
//! action's completion time.
use std::collections::HashMap;

use vstd::prelude::*;

use crate::actions::path;
use crate::actions::path::PathError;
use crate::cards::cards;
use crate::cards::env::Env;
use crate::content;
use crate::content::AspectDefinition;
use crate::content::AspectId;
use crate::content::AspectValue;
use crate::content::Catalog;
use crate::content::Recipe;
use crate::content::Seg;
use crate::content::Segment;
use crate::content::StatementValue;
use crate::content::StockSlot;
use crate::history;
use crate::packed;
use crate::players::players;
use crate::regions::zones;
use crate::tables::Db;
use crate::tables::Tables;

verus! {

/// Where a synthetic tile stands: a zone tile that stands in for a card.
#[derive(Clone, Copy, Debug, PartialEq, Eq, Structural)]
pub struct HexLocation {
    pub zone_id: u32,
    pub macro_zone: u64,
    pub col: u8,
    pub row: u8,
    pub owner_id: u32,
}

pub const PROGRESS_STYLE_NONE: u32 = 0;

pub const PROGRESS_STYLE_LTR: u32 = 1;

pub const PROGRESS_STYLE_RTL: u32 = 2;

/// Variable slots of a walk.
pub const VAR_SLOT_COUNT: usize = 8;

/// The card type of tiles.
pub const TILE_CARD_TYPE: u8 = 7;

/// Arithmetic on a tile stock.
#[derive(Clone, Copy, Debug, PartialEq, Eq, Structural)]
pub enum StockOp {
    Sub,
    Add,
    Assign,
}

/// An effect of a walk, emitted at the completion time.
pub enum Effect {
    Destroy { card_id: u32 },
    /// Create a card in the inventory of `owner_id`.
    Create { def_key: String, owner_id: u32 },
    ModifyTileStock { zone_id: u32, row: u8, col: u8, slot: usize, op: StockOp, delta: u8 },
    UnlockBlueprint { blueprint_key: String, target_card_id: u32 },
    SetPlayerFaction { player_id: u32, faction: u8 },
    /// Create a card as a deferred member of a host's stack.
    CreateDeferred { def_key: String, host_card_id: u32 },
}

/// Why a statement cannot be executed.
#[derive(Clone, Copy, Debug, PartialEq, Eq, Structural)]
pub enum TapeError {
    Path(PathError),
    Malformed,
    UnsupportedHead,
    SysShape,
    SysSlotNotWord,
    SysNotSet,
    SysUnknownSlot,
    DurationNotInteger,
    UnknownStyle,
    StyleNeedsValue,
    VarShape,
    VarIndexExpected,
    VarOutOfRange { index: u32 },
    VarOpNotWord,
    VarNeedsValue,
    VarUnsupportedOp,
    NoPath,
    PathTooShort,
    AspectExpected,
    AspectNameNotWord,
    UnknownAspect,
    UnknownDefinition { card_id: u32 },
    NoComparison,
    NoComparisonValue,
    ComparisonWithWord,
    ComparisonWithSlot,
    NoInnerStatement,
    PredicateNotVariable,
    OpNotWord,
    CreateNeedsKey,
    CreatePath,
    UnlockPath,
    UnlockNeedsKey,
    NotAPlayer { id: u32 },
    FactionNeedsInteger,
    FactionOutOfRange,
    StockPathTooShort,
    StockNeedsInteger,
    NoSyntheticTile,
    StockTargetNotSlot,
    StockTargetNotTile,
    IteratorOutOfRange { iterator_id: u32 },
    ZoneMissing { zone_id: u32 },
    TileMissing { row: u8, col: u8 },
    TileUndefined { def_id: u16 },
    NoStockSlot,
    UnsupportedOp,
}

/// Scratch state of a walk.
pub struct TapeWalker {
    pub vars: [i32; 8],
    /// Duration of the action in seconds.
    pub duration: u32,
    /// Progress style of each card that gets one.
    pub styles: HashMap<u32, u8>,
    pub pending: Vec<Effect>,
}

/// The contents of a [`TapeWalker`].
#[verifier::ext_equal]
pub struct Walk {
    pub vars: Seq<i32>,
    pub duration: u32,
    pub styles: Map<u32, u8>,
    pub pending: Seq<Effect>,
}

impl View for TapeWalker {
    type V = Walk;

    open spec fn view(&self) -> Walk {
        Walk {
            vars: self.vars@,
            duration: self.duration,
            styles: self.styles@,
            pending: self.pending@,
        }
    }
}

/// A walk at its start.
pub open spec fn fresh_walk() -> Walk {
    Walk {
        vars: Seq::new(8, |i: int| 0i32),
        duration: 0,
        styles: Map::empty(),
        pending: Seq::empty(),
    }
}

impl TapeWalker {
    /// A walker at the start of a tape.
    pub fn new() -> (w: Self)
        ensures
            w@ == fresh_walk(),
    {
        let w = TapeWalker {
            vars: [0, 0, 0, 0, 0, 0, 0, 0],
            duration: 0,
            styles: HashMap::new(),
            pending: Vec::new(),
        };
        assert(w@ =~= fresh_walk());
        w
    }
}

// ---- sys -----------------------------------------------------------
/// Outcome of `sys.duration.set: <seconds>`.
pub open spec fn sys_done(w: Walk, segs: Seq<Seg>, value: Option<StatementValue>) -> Result<
    Walk,
    TapeError,
> {
    if segs.len() != 3 {
        Err(TapeError::SysShape)
    } else if !(segs[1] is Word) {
        Err(TapeError::SysSlotNotWord)
    } else if !path::word_is(segs[2], "set"@) {
        Err(TapeError::SysNotSet)
    } else if !path::word_is(segs[1], "duration"@) {
        Err(TapeError::SysUnknownSlot)
    } else {
        match value {
            Some(StatementValue::Int(n)) => Ok(Walk { duration: n as u32, ..w }),
            _ => Err(TapeError::DurationNotInteger),
        }
    }
}

fn execute_sys(
    walker: &mut TapeWalker,
    segs: &Vec<Seg>,
    from: usize,
    value: &Option<StatementValue>,
) -> (r: Result<(), TapeError>)
    requires
        from <= segs.len(),
    ensures
        match sys_done(old(walker)@, segs@.skip(from as int), *value) {
            Ok(w) => r is Ok && final(walker)@ == w,
            Err(err) => r == Err::<(), TapeError>(err) && final(walker)@ == old(walker)@,
        },
{
    if segs.len() - from != 3 {
        return Err(TapeError::SysShape);
    }
    assert(segs@.skip(from as int)[1] == segs@[from + 1]);
    assert(segs@.skip(from as int)[2] == segs@[from + 2]);
    match &segs[from + 1] {
        Seg::Word(_) => {},
        _ => {
            return Err(TapeError::SysSlotNotWord);
        },
    }
    if !path::is_word(&segs[from + 2], "set") {
        return Err(TapeError::SysNotSet);
    }
    if !path::is_word(&segs[from + 1], "duration") {
        return Err(TapeError::SysUnknownSlot);
    }
    match value {
        Some(StatementValue::Int(n)) => {
            walker.duration =
            #[verifier::truncate]
            (*n as u32);
            Ok(())
        },
        _ => Err(TapeError::DurationNotInteger),
    }
}

/// The style that a value names: by name, or by its low three bits.
pub open spec fn style_named(value: Option<StatementValue>) -> Result<u8, TapeError> {
    match value {
        Some(StatementValue::Str { text, path }) => if text@ == "none"@ {
            Ok(0)
        } else if text@ == "ltr"@ {
            Ok(1)
        } else if text@ == "rtl"@ {
            Ok(2)
        } else {
            Err(TapeError::UnknownStyle)
        },
        Some(StatementValue::Int(n)) => Ok((n % 8) as u8),
        None => Err(TapeError::StyleNeedsValue),
    }
}

/// Decode a progress style.
pub fn style_from_value(value: &Option<StatementValue>) -> (r: Result<u8, TapeError>)
    ensures
        r == style_named(*value),
{
    match value {
        Some(StatementValue::Str { text, .. }) => {
            if path::text_is(text, "none") {
                Ok(PROGRESS_STYLE_NONE as u8)
            } else if path::text_is(text, "ltr") {
                Ok(PROGRESS_STYLE_LTR as u8)
            } else if path::text_is(text, "rtl") {
                Ok(PROGRESS_STYLE_RTL as u8)
            } else {
                Err(TapeError::UnknownStyle)
            }
        },
        Some(StatementValue::Int(n)) => {
            let n: i64 = *n;
            let low: u8 = (#[verifier::truncate]
            (n as u8)) & 7;
            assert((n as u8) & 7 == n % 8) by (bit_vector);
            Ok(low)
        },
        None => Err(TapeError::StyleNeedsValue),
    }
}

// ---- reading values ------------------------------------------------
/// Sum the aspect values of a definition that are `wanted` or descend from it.
pub fn sum_aspects(c: &Catalog, d: &content::CardDefinition, wanted: AspectId) -> (total: i32)
    requires
        content::sums_fit(c.aspects@, *d),
    ensures
        total == content::aspect_sum(c.aspects@, d.aspects@, wanted),
{
    let entries = &d.aspects;
    let mut total: i32 = 0;
    let mut i: usize = 0;
    while i < entries.len()
        invariant
            i <= entries.len(),
            entries@ == d.aspects@,
            content::sums_fit(c.aspects@, *d),
            total == content::aspect_sum(c.aspects@, entries@.take(i as int), wanted),
        decreases entries.len() - i,
    {
        proof {
            let next = entries@.take(i + 1);
            assert(next.drop_last() =~= entries@.take(i as int));
            assert(next.last() == entries@[i as int]);
            assert(content::aspect_sum(c.aspects@, d.aspects@.take(i + 1), wanted) <= i32::MAX);
        }
        if c.is_aspect_descendant(entries[i].aspect_id, wanted) {
            total = total + entries[i].value;
        }
        i = i + 1;
    }
    assert(entries@.take(entries.len() as int) =~= entries@);
    total
}

/// The value that a text `<path>.aspect.<name>` reads: the sum of the named
/// aspect over the definition of the card at the path.
pub open spec fn path_value(
    e: Env,
    db: Db,
    r: Recipe,
    text: Option<Vec<Segment>>,
    bindings: Seq<Vec<u32>>,
    root: u32,
) -> Result<i32, TapeError> {
    match text {
        None => Err(TapeError::NoPath),
        Some(raw) => {
            let n = raw@.len();
            if n < 3 {
                Err(TapeError::PathTooShort)
            } else if !(raw@[n - 2] matches Segment::Word(w) && w@ == "aspect"@) {
                Err(TapeError::AspectExpected)
            } else {
                match raw@[n - 1] {
                    Segment::Index(_) => Err(TapeError::AspectNameNotWord),
                    Segment::Word(name) => match content::aspect_by_name(
                        e.catalog.aspects@,
                        name@,
                    ) {
                        None => Err(TapeError::UnknownAspect),
                        Some(wanted) => match path::collapsed(
                            raw@.take(n - 2),
                            r.iterators@,
                            0,
                            Seq::empty(),
                        ) {
                            Err(err) => Err(TapeError::Path(err)),
                            Ok(p) => match path::target(e, db, p, bindings, root) {
                                Err(err) => Err(TapeError::Path(err)),
                                Ok(card_id) => aspect_of_card(e, db, card_id, wanted),
                            },
                        },
                    },
                }
            }
        },
    }
}

/// The sum of an aspect over the definition of a card.
pub open spec fn aspect_of_card(e: Env, db: Db, card_id: u32, wanted: AspectId) -> Result<
    i32,
    TapeError,
> {
    match cards::current(e, db, card_id) {
        None => Err(TapeError::Path(PathError::CardMissing { card_id })),
        Some(c) => match content::definition(e.catalog.definitions@, c.packed_definition) {
            None => Err(TapeError::UnknownDefinition { card_id }),
            Some(d) => Ok(content::aspect_sum(e.catalog.aspects@, d.aspects@, wanted) as i32),
        },
    }
}

fn read_path_value(
    e: &Env,
    tb: &Tables,
    recipe: &Recipe,
    text: &Option<Vec<Segment>>,
    bindings: &Vec<Vec<u32>>,
    root: u32,
) -> (r: Result<i32, TapeError>)
    requires
        e.wf(),
        e.catalog.summable(),
    ensures
        r == path_value(*e, tb@, *recipe, *text, bindings@, root),
{
    let raw = match text {
        None => {
            return Err(TapeError::NoPath);
        },
        Some(raw) => raw,
    };
    let n: usize = raw.len();
    if n < 3 {
        return Err(TapeError::PathTooShort);
    }
    match &raw[n - 2] {
        Segment::Word(w) => {
            if !path::text_is(w, "aspect") {
                return Err(TapeError::AspectExpected);
            }
        },
        _ => {
            return Err(TapeError::AspectExpected);
        },
    }
    let wanted: AspectId = match &raw[n - 1] {
        Segment::Index(_) => {
            return Err(TapeError::AspectNameNotWord);
        },
        Segment::Word(name) => match e.catalog.aspect_id(name) {
            None => {
                return Err(TapeError::UnknownAspect);
            },
            Some(id) => id,
        },
    };
    let p: Vec<Seg> = match path::collapse_slots_readonly(raw, n - 2, &recipe.iterators) {
        Err(err) => {
            return Err(TapeError::Path(err));
        },
        Ok(p) => p,
    };
    assert(p@.subrange(0, p.len() as int) =~= p@);
    let card_id: u32 = match path::resolve_card_target(e, tb, &p, 0, p.len(), bindings, root) {
        Err(err) => {
            return Err(TapeError::Path(err));
        },
        Ok(id) => id,
    };
    match cards::latest(e, tb, card_id) {
        None => Err(TapeError::Path(PathError::CardMissing { card_id })),
        Some(c) => match e.catalog.decode_definition(c.packed_definition) {
            None => Err(TapeError::UnknownDefinition { card_id }),
            Some(d) => {
                proof {
                    let k = choose|k: int|
                        0 <= k < e.catalog.definitions@.len() && e.catalog.definitions@[k] == *d;
                    assert(content::sums_fit(e.catalog.aspects@, e.catalog.definitions[k]));
                }
                Ok(sum_aspects(&e.catalog, d, wanted))
            },
        },
    }
}

// ---- var -----------------------------------------------------------
/// Sum of two numbers, cut to the range of `i32`.
pub open spec fn saturated(n: int) -> i32 {
    if n > i32::MAX {
        i32::MAX
    } else if n < i32::MIN {
        i32::MIN
    } else {
        n as i32
    }
}

fn saturate(n: i64) -> (r: i32)
    ensures
        r == saturated(n as int),
{
    if n > i32::MAX as i64 {
        i32::MAX
    } else if n < i32::MIN as i64 {
        i32::MIN
    } else {
        n as i32
    }
}

/// The operand of a variable statement: a literal, or a read path.
pub open spec fn operand(
    e: Env,
    db: Db,
    r: Recipe,
    value: Option<StatementValue>,
    bindings: Seq<Vec<u32>>,
    root: u32,
) -> Result<i32, TapeError> {
    match value {
        Some(StatementValue::Int(n)) => Ok(n as i32),
        Some(StatementValue::Str { text, path }) => path_value(e, db, r, path, bindings, root),
        None => Err(TapeError::VarNeedsValue),
    }
}

/// Outcome of `var.N.set`, `var.N.add` or `var.N.sub`.
pub open spec fn var_done(
    e: Env,
    db: Db,
    w: Walk,
    r: Recipe,
    segs: Seq<Seg>,
    value: Option<StatementValue>,
    bindings: Seq<Vec<u32>>,
    root: u32,
) -> Result<Walk, TapeError> {
    if segs.len() != 3 {
        Err(TapeError::VarShape)
    } else {
        match segs[1] {
            Seg::Index(n) => if n >= VAR_SLOT_COUNT {
                Err(TapeError::VarOutOfRange { index: n })
            } else if !(segs[2] is Word) {
                Err(TapeError::VarOpNotWord)
            } else {
                match operand(e, db, r, value, bindings, root) {
                    Err(err) => Err(err),
                    Ok(x) => {
                        let v = w.vars[n as int];
                        if path::word_is(segs[2], "set"@) {
                            Ok(Walk { vars: w.vars.update(n as int, x), ..w })
                        } else if path::word_is(segs[2], "add"@) {
                            Ok(Walk { vars: w.vars.update(n as int, saturated(v + x)), ..w })
                        } else if path::word_is(segs[2], "sub"@) {
                            Ok(Walk { vars: w.vars.update(n as int, saturated(v - x)), ..w })
                        } else {
                            Err(TapeError::VarUnsupportedOp)
                        }
                    },
                }
            },
            _ => Err(TapeError::VarIndexExpected),
        }
    }
}

fn execute_var(
    e: &Env,
    tb: &Tables,
    walker: &mut TapeWalker,
    recipe: &Recipe,
    segs: &Vec<Seg>,
    from: usize,
    value: &Option<StatementValue>,
    bindings: &Vec<Vec<u32>>,
    root: u32,
) -> (r: Result<(), TapeError>)
    requires
        e.wf(),
        e.catalog.summable(),
        from <= segs.len(),
    ensures
        match var_done(
            *e,
            tb@,
            old(walker)@,
            *recipe,
            segs@.skip(from as int),
            *value,
            bindings@,
            root,
        ) {
            Ok(w) => r is Ok && final(walker)@ == w,
            Err(err) => r == Err::<(), TapeError>(err) && final(walker)@ == old(walker)@,
        },
{
    if segs.len() - from != 3 {
        return Err(TapeError::VarShape);
    }
    assert(segs@.skip(from as int)[1] == segs@[from + 1]);
    assert(segs@.skip(from as int)[2] == segs@[from + 2]);
    let index: u32 = match &segs[from + 1] {
        Seg::Index(n) => *n,
        _ => {
            return Err(TapeError::VarIndexExpected);
        },
    };
    if index as usize >= VAR_SLOT_COUNT {
        return Err(TapeError::VarOutOfRange { index });
    }
    match &segs[from + 2] {
        Seg::Word(_) => {},
        _ => {
            return Err(TapeError::VarOpNotWord);
        },
    }
    let x: i32 = match value {
        Some(StatementValue::Int(n)) =>
        #[verifier::truncate]
        (*n as i32),
        Some(StatementValue::Str { path, .. }) => match read_path_value(
            e,
            tb,
            recipe,
            path,
            bindings,
            root,
        ) {
            Err(err) => {
                return Err(err);
            },
            Ok(x) => x,
        },
        None => {
            return Err(TapeError::VarNeedsValue);
        },
    };
    let v: i32 = walker.vars[index as usize];
    if path::is_word(&segs[from + 2], "set") {
        walker.vars[index as usize] = x;
        Ok(())
    } else if path::is_word(&segs[from + 2], "add") {
        walker.vars[index as usize] = saturate(v as i64 + x as i64);
        Ok(())
    } else if path::is_word(&segs[from + 2], "sub") {
        walker.vars[index as usize] = saturate(v as i64 - x as i64);
        Ok(())
    } else {
        Err(TapeError::VarUnsupportedOp)
    }
}

// ---- when ----------------------------------------------------------
pub open spec fn is_comparison(s: Seg) -> bool {
    path::word_is(s, "gt"@) || path::word_is(s, "ge"@) || path::word_is(s, "lt"@) || path::word_is(
        s,
        "le"@,
    ) || path::word_is(s, "eq"@) || path::word_is(s, "ne"@)
}

fn test_comparison(s: &Seg) -> (r: bool)
    ensures
        r == is_comparison(*s),
{
    path::is_word(s, "gt") || path::is_word(s, "ge") || path::is_word(s, "lt") || path::is_word(
        s,
        "le",
    ) || path::is_word(s, "eq") || path::is_word(s, "ne")
}

/// Position of the first comparison at or after `i`.
pub open spec fn comparison_at(segs: Seq<Seg>, i: int) -> Option<int>
    decreases segs.len() - i,
{
    if i >= segs.len() {
        None
    } else if is_comparison(segs[i]) {
        Some(i)
    } else {
        comparison_at(segs, i + 1)
    }
}

/// `a` compares to `b` as the comparison says.
pub open spec fn compares(s: Seg, a: i32, b: i32) -> bool {
    if path::word_is(s, "gt"@) {
        a > b
    } else if path::word_is(s, "ge"@) {
        a >= b
    } else if path::word_is(s, "lt"@) {
        a < b
    } else if path::word_is(s, "le"@) {
        a <= b
    } else if path::word_is(s, "eq"@) {
        a == b
    } else {
        a != b
    }
}

/// Evaluate the guard of `when.var.N.<comparison>.<value>.<inner>`: the position
/// of the inner statement where the guard holds, `None` where it does not.
pub open spec fn gate(w: Walk, segs: Seq<Seg>) -> Result<Option<int>, TapeError> {
    match comparison_at(segs, 1) {
        None => Err(TapeError::NoComparison),
        Some(k) => if k + 1 >= segs.len() {
            Err(TapeError::NoComparisonValue)
        } else {
            match segs[k + 1] {
                Seg::Word(_) => Err(TapeError::ComparisonWithWord),
                Seg::Slot { iterator_id, offset } => Err(TapeError::ComparisonWithSlot),
                Seg::Index(b) => if k + 2 >= segs.len() {
                    Err(TapeError::NoInnerStatement)
                } else if k != 3 || !path::word_is(segs[1], "var"@) {
                    Err(TapeError::PredicateNotVariable)
                } else {
                    match segs[2] {
                        Seg::Index(n) => if n >= VAR_SLOT_COUNT {
                            Err(TapeError::VarOutOfRange { index: n })
                        } else if compares(segs[k], w.vars[n as int], b as i32) {
                            Ok(Some(k + 2))
                        } else {
                            Ok(None)
                        },
                        _ => Err(TapeError::PredicateNotVariable),
                    }
                },
            }
        },
    }
}

fn evaluate_gate(walker: &TapeWalker, segs: &Vec<Seg>, from: usize) -> (r: Result<
    Option<usize>,
    TapeError,
>)
    requires
        from <= segs.len(),
    ensures
        match r {
            Err(err) => gate(walker@, segs@.skip(from as int)) == Err::<Option<int>, TapeError>(err),
            Ok(None) => gate(walker@, segs@.skip(from as int)) == Ok::<Option<int>, TapeError>(None),
            Ok(Some(k)) => {
                &&& from + 5 <= k < segs.len()
                &&& gate(walker@, segs@.skip(from as int)) == Ok::<Option<int>, TapeError>(
                    Some(k - from),
                )
            },
        },
{
    let ghost part = segs@.skip(from as int);
    let n: usize = segs.len();
    if from == n {
        return Err(TapeError::NoComparison);
    }
    let mut k: usize = from + 1;
    while k < n && !test_comparison(&segs[k])
        invariant
            from < k <= n,
            n == segs.len(),
            part == segs@.skip(from as int),
            comparison_at(part, 1) == comparison_at(part, k - from),
        decreases n - k,
    {
        assert(part[k - from] == segs@[k as int]);
        k = k + 1;
    }
    if k == n {
        return Err(TapeError::NoComparison);
    }
    assert(part[k - from] == segs@[k as int]);
    if n - k <= 1 {
        return Err(TapeError::NoComparisonValue);
    }
    assert(part[k - from + 1] == segs@[k + 1]);
    let b: i32 = match &segs[k + 1] {
        Seg::Word(_) => {
            return Err(TapeError::ComparisonWithWord);
        },
        Seg::Slot { .. } => {
            return Err(TapeError::ComparisonWithSlot);
        },
        Seg::Index(b) =>
        #[verifier::truncate]
        (*b as i32),
    };
    if n - k <= 2 {
        return Err(TapeError::NoInnerStatement);
    }
    if k - from != 3 {
        return Err(TapeError::PredicateNotVariable);
    }
    assert(part[1] == segs@[from + 1]);
    assert(part[2] == segs@[from + 2]);
    if !path::is_word(&segs[from + 1], "var") {
        return Err(TapeError::PredicateNotVariable);
    }
    let index: u32 = match &segs[from + 2] {
        Seg::Index(x) => *x,
        _ => {
            return Err(TapeError::PredicateNotVariable);
        },
    };
    if index as usize >= VAR_SLOT_COUNT {
        return Err(TapeError::VarOutOfRange { index });
    }
    let a: i32 = walker.vars[index as usize];
    let s = &segs[k];
    let holds: bool = if path::is_word(s, "gt") {
        a > b
    } else if path::is_word(s, "ge") {
        a >= b
    } else if path::is_word(s, "lt") {
        a < b
    } else if path::is_word(s, "le") {
        a <= b
    } else if path::is_word(s, "eq") {
        a == b
    } else {
        a != b
    };
    if holds {
        Ok(Some(k + 2))
    } else {
        Ok(None)
    }
}

// ---- card operations -----------------------------------------------
/// The first stock slot whose aspect is `wanted` or descends from it.
pub open spec fn stock_slot(aspects: Seq<AspectDefinition>, stock: Seq<StockSlot>, wanted: AspectId) -> Option<
    int,
>
    decreases stock.len(),
{
    if stock.len() == 0 {
        None
    } else {
        match stock_slot(aspects, stock.drop_last(), wanted) {
            Some(i) => Some(i),
            None => if content::descends(aspects, stock.last().aspect_id, wanted) {
                Some(stock.len() - 1)
            } else {
                None
            },
        }
    }
}

fn find_stock_slot(c: &Catalog, stock: &Vec<StockSlot>, wanted: AspectId) -> (found: Option<usize>)
    ensures
        match found {
            Some(i) => stock_slot(c.aspects@, stock@, wanted) == Some(i as int),
            None => stock_slot(c.aspects@, stock@, wanted) is None,
        },
{
    let mut found: Option<usize> = None;
    let mut i: usize = 0;
    while i < stock.len()
        invariant
            i <= stock.len(),
            match found {
                Some(k) => stock_slot(c.aspects@, stock@.take(i as int), wanted) == Some(k as int),
                None => stock_slot(c.aspects@, stock@.take(i as int), wanted) is None,
            },
        decreases stock.len() - i,
    {
        proof {
            let next = stock@.take(i + 1);
            assert(next.drop_last() =~= stock@.take(i as int));
            assert(next.last() == stock@[i as int]);
        }
        if found.is_none() && c.is_aspect_descendant(stock[i].aspect_id, wanted) {
            found = Some(i);
        }
        i = i + 1;
    }
    assert(stock@.take(stock.len() as int) =~= stock@);
    found
}

/// The tile that a stock statement targets: a single reference to the first slot
/// of the top-level iterator over branch 0, resolved to a synthetic tile.
pub open spec fn tile_target(r: Recipe, p: Seq<Seg>, hex: Option<HexLocation>) -> Result<
    HexLocation,
    TapeError,
> {
    match hex {
        None => Err(TapeError::NoSyntheticTile),
        Some(h) => if p.len() != 1 {
            Err(TapeError::StockTargetNotSlot)
        } else {
            match p[0] {
                Seg::Slot { iterator_id, offset } => if iterator_id >= r.iterators@.len() {
                    Err(TapeError::IteratorOutOfRange { iterator_id })
                } else {
                    let it = r.iterators@[iterator_id as int];
                    if it.parent@.len() > 0 || it.branch != 0 || offset != 0 {
                        Err(TapeError::StockTargetNotTile)
                    } else {
                        Ok(h)
                    }
                },
                _ => Err(TapeError::StockTargetNotSlot),
            }
        },
    }
}

fn require_synthetic_tile_target(
    recipe: &Recipe,
    segs: &Vec<Seg>,
    lo: usize,
    hi: usize,
    hex: &Option<HexLocation>,
) -> (r: Result<HexLocation, TapeError>)
    requires
        lo <= hi <= segs.len(),
    ensures
        r == tile_target(*recipe, segs@.subrange(lo as int, hi as int), *hex),
{
    let h: HexLocation = match hex {
        None => {
            return Err(TapeError::NoSyntheticTile);
        },
        Some(h) => *h,
    };
    if hi - lo != 1 {
        return Err(TapeError::StockTargetNotSlot);
    }
    match &segs[lo] {
        Seg::Slot { iterator_id, offset } => {
            if *iterator_id as usize >= recipe.iterators.len() {
                return Err(TapeError::IteratorOutOfRange { iterator_id: *iterator_id });
            }
            let it = &recipe.iterators[*iterator_id as usize];
            if it.parent.len() > 0 || it.branch != 0 || *offset != 0 {
                return Err(TapeError::StockTargetNotTile);
            }
            Ok(h)
        },
        _ => Err(TapeError::StockTargetNotSlot),
    }
}

/// The stock slot of the tile at a location that counts an aspect.
pub open spec fn tile_slot_for(e: Env, db: Db, h: HexLocation, wanted: AspectId) -> Result<
    int,
    TapeError,
> {
    match history::latest(db.zones, h.zone_id) {
        None => Err(TapeError::ZoneMissing { zone_id: h.zone_id }),
        Some(z) => if h.row >= 8 || h.col >= 8 {
            Err(TapeError::TileMissing { row: h.row, col: h.col })
        } else {
            let def_id = zones::tile_of(z, h.row as int, h.col as int).0;
            match content::definition(
                e.catalog.definitions@,
                packed::definition_word(TILE_CARD_TYPE, def_id),
            ) {
                None => Err(TapeError::TileUndefined { def_id }),
                Some(d) => match stock_slot(e.catalog.aspects@, d.stock@, wanted) {
                    None => Err(TapeError::NoStockSlot),
                    Some(k) => Ok(k),
                },
            }
        },
    }
}

fn find_tile_slot(e: &Env, tb: &Tables, h: &HexLocation, wanted: AspectId) -> (r: Result<
    usize,
    TapeError,
>)
    ensures
        match r {
            Ok(k) => tile_slot_for(*e, tb@, *h, wanted) == Ok::<int, TapeError>(k as int),
            Err(err) => tile_slot_for(*e, tb@, *h, wanted) == Err::<int, TapeError>(err),
        },
{
    let z = match zones::latest(&tb.zones, h.zone_id) {
        None => {
            return Err(TapeError::ZoneMissing { zone_id: h.zone_id });
        },
        Some(z) => z,
    };
    let def_id: u16 = match z.tile_def_id_at(h.row, h.col) {
        None => {
            return Err(TapeError::TileMissing { row: h.row, col: h.col });
        },
        Some(d) => d,
    };
    match e.catalog.decode_definition(packed::pack_definition(TILE_CARD_TYPE, def_id)) {
        None => Err(TapeError::TileUndefined { def_id }),
        Some(d) => match find_stock_slot(&e.catalog, &d.stock, wanted) {
            None => Err(TapeError::NoStockSlot),
            Some(k) => Ok(k),
        },
    }
}

/// The amount of a stock statement, cut to a byte.
pub open spec fn stock_delta(n: i64) -> u8 {
    if n < 0 {
        0
    } else if n > 255 {
        255
    } else {
        n as u8
    }
}

/// The effect of `<tile>.aspect.<name>.<op>: <amount>`; `p` is the path up to the
/// operation.
pub open spec fn stock_effect(
    e: Env,
    db: Db,
    r: Recipe,
    p: Seq<Seg>,
    op: StockOp,
    value: Option<StatementValue>,
    hex: Option<HexLocation>,
) -> Result<Effect, TapeError> {
    let n = p.len();
    if n < 2 {
        Err(TapeError::StockPathTooShort)
    } else if !path::word_is(p[n - 2], "aspect"@) {
        Err(TapeError::AspectExpected)
    } else {
        match p[n - 1] {
            Seg::Word(name) => match value {
                Some(StatementValue::Int(amount)) => match tile_target(r, p.take(n - 2), hex) {
                    Err(err) => Err(err),
                    Ok(h) => match content::aspect_by_name(e.catalog.aspects@, name@) {
                        None => Err(TapeError::UnknownAspect),
                        Some(wanted) => match tile_slot_for(e, db, h, wanted) {
                            Err(err) => Err(err),
                            Ok(k) => Ok(
                                Effect::ModifyTileStock {
                                    zone_id: h.zone_id,
                                    row: h.row,
                                    col: h.col,
                                    slot: k as usize,
                                    op,
                                    delta: stock_delta(amount),
                                },
                            ),
                        },
                    },
                },
                _ => Err(TapeError::StockNeedsInteger),
            },
            _ => Err(TapeError::AspectNameNotWord),
        }
    }
}

fn plan_stock(
    e: &Env,
    tb: &Tables,
    recipe: &Recipe,
    segs: &Vec<Seg>,
    lo: usize,
    hi: usize,
    op: StockOp,
    value: &Option<StatementValue>,
    hex: &Option<HexLocation>,
) -> (r: Result<Effect, TapeError>)
    requires
        lo <= hi <= segs.len(),
    ensures
        r == stock_effect(
            *e,
            tb@,
            *recipe,
            segs@.subrange(lo as int, hi as int),
            op,
            *value,
            *hex,
        ),
{
    let ghost p = segs@.subrange(lo as int, hi as int);
    if hi - lo < 2 {
        return Err(TapeError::StockPathTooShort);
    }
    assert(p[p.len() - 2] == segs@[hi - 2]);
    assert(p[p.len() - 1] == segs@[hi - 1]);
    assert(p.take(p.len() - 2) =~= segs@.subrange(lo as int, hi - 2));
    if !path::is_word(&segs[hi - 2], "aspect") {
        return Err(TapeError::AspectExpected);
    }
    let name = match &segs[hi - 1] {
        Seg::Word(w) => w,
        _ => {
            return Err(TapeError::AspectNameNotWord);
        },
    };
    let delta: u8 = match value {
        Some(StatementValue::Int(n)) => {
            if *n < 0 {
                0
            } else if *n > 255 {
                255
            } else {
                *n as u8
            }
        },
        _ => {
            return Err(TapeError::StockNeedsInteger);
        },
    };
    let h: HexLocation = match require_synthetic_tile_target(recipe, segs, lo, hi - 2, hex) {
        Err(err) => {
            return Err(err);
        },
        Ok(h) => h,
    };
    let wanted: AspectId = match e.catalog.aspect_id(name) {
        None => {
            return Err(TapeError::UnknownAspect);
        },
        Some(id) => id,
    };
    match find_tile_slot(e, tb, &h, wanted) {
        Err(err) => Err(err),
        Ok(slot) => Ok(
            Effect::ModifyTileStock {
                zone_id: h.zone_id,
                row: h.row,
                col: h.col,
                slot,
                op,
                delta,
            },
        ),
    }
}

/// A path, as a tape result.
pub open spec fn target(e: Env, db: Db, p: Seq<Seg>, bindings: Seq<Vec<u32>>, root: u32) -> Result<
    u32,
    TapeError,
> {
    match path::target(e, db, p, bindings, root) {
        Ok(id) => Ok(id),
        Err(err) => Err(TapeError::Path(err)),
    }
}

fn resolve(
    e: &Env,
    tb: &Tables,
    segs: &Vec<Seg>,
    lo: usize,
    hi: usize,
    bindings: &Vec<Vec<u32>>,
    root: u32,
) -> (r: Result<u32, TapeError>)
    requires
        lo <= hi <= segs.len(),
    ensures
        r == target(*e, tb@, segs@.subrange(lo as int, hi as int), bindings@, root),
{
    match path::resolve_card_target(e, tb, segs, lo, hi, bindings, root) {
        Ok(id) => Ok(id),
        Err(err) => Err(TapeError::Path(err)),
    }
}

/// The effect of `<host>.inventory.create: <key>` or `<host>.stack.N.create: <key>`.
pub open spec fn create_effect(
    e: Env,
    db: Db,
    p: Seq<Seg>,
    value: Option<StatementValue>,
    bindings: Seq<Vec<u32>>,
    root: u32,
) -> Result<Effect, TapeError> {
    let n = p.len();
    match value {
        Some(StatementValue::Str { text, path }) => if n >= 1 && path::word_is(
            p[n - 1],
            "inventory"@,
        ) {
            match target(e, db, p.take(n - 1), bindings, root) {
                Err(err) => Err(err),
                Ok(owner_id) => Ok(Effect::Create { def_key: text, owner_id }),
            }
        } else if n >= 2 && p[n - 1] is Index && path::word_is(p[n - 2], "stack"@) {
            match target(e, db, p.take(n - 2), bindings, root) {
                Err(err) => Err(err),
                Ok(host_card_id) => Ok(Effect::CreateDeferred { def_key: text, host_card_id }),
            }
        } else {
            Err(TapeError::CreatePath)
        },
        _ => Err(TapeError::CreateNeedsKey),
    }
}

fn plan_create(
    e: &Env,
    tb: &Tables,
    segs: &Vec<Seg>,
    lo: usize,
    hi: usize,
    value: &Option<StatementValue>,
    bindings: &Vec<Vec<u32>>,
    root: u32,
) -> (r: Result<Effect, TapeError>)
    requires
        lo <= hi <= segs.len(),
    ensures
        r == create_effect(
            *e,
            tb@,
            segs@.subrange(lo as int, hi as int),
            *value,
            bindings@,
            root,
        ),
{
    let ghost p = segs@.subrange(lo as int, hi as int);
    let def_key: String = match value {
        Some(StatementValue::Str { text, .. }) => text.clone(),
        _ => {
            return Err(TapeError::CreateNeedsKey);
        },
    };
    if hi - lo >= 1 && path::is_word(&segs[hi - 1], "inventory") {
        assert(p.take(p.len() - 1) =~= segs@.subrange(lo as int, hi - 1));
        return match resolve(e, tb, segs, lo, hi - 1, bindings, root) {
            Err(err) => Err(err),
            Ok(owner_id) => Ok(Effect::Create { def_key, owner_id }),
        };
    }
    let counted: bool = hi - lo >= 2 && match &segs[hi - 1] {
        Seg::Index(_) => true,
        _ => false,
    };
    if counted && path::is_word(&segs[hi - 2], "stack") {
        assert(p.take(p.len() - 2) =~= segs@.subrange(lo as int, hi - 2));
        return match resolve(e, tb, segs, lo, hi - 2, bindings, root) {
            Err(err) => Err(err),
            Ok(host_card_id) => Ok(Effect::CreateDeferred { def_key, host_card_id }),
        };
    }
    Err(TapeError::CreatePath)
}

/// The effect of `<soul>.blueprint.unlock: <key>`.
pub open spec fn unlock_effect(
    e: Env,
    db: Db,
    p: Seq<Seg>,
    value: Option<StatementValue>,
    bindings: Seq<Vec<u32>>,
    root: u32,
) -> Result<Effect, TapeError> {
    let n = p.len();
    if n < 1 || !path::word_is(p[n - 1], "blueprint"@) {
        Err(TapeError::UnlockPath)
    } else {
        match target(e, db, p.take(n - 1), bindings, root) {
            Err(err) => Err(err),
            Ok(target_card_id) => match value {
                Some(StatementValue::Str { text, path }) => Ok(
                    Effect::UnlockBlueprint { blueprint_key: text, target_card_id },
                ),
                _ => Err(TapeError::UnlockNeedsKey),
            },
        }
    }
}

/// `p` ends in `aspect.faction`.
pub open spec fn names_faction(p: Seq<Seg>) -> bool {
    p.len() >= 2 && path::word_is(p[p.len() - 2], "aspect"@) && path::word_is(
        p[p.len() - 1],
        "faction"@,
    )
}

fn is_aspect_faction_path(segs: &Vec<Seg>, lo: usize, hi: usize) -> (r: bool)
    requires
        lo <= hi <= segs.len(),
    ensures
        r == names_faction(segs@.subrange(lo as int, hi as int)),
{
    if hi - lo < 2 {
        return false;
    }
    path::is_word(&segs[hi - 2], "aspect") && path::is_word(&segs[hi - 1], "faction")
}

/// The player that a path names.
pub open spec fn player_target(
    e: Env,
    db: Db,
    p: Seq<Seg>,
    bindings: Seq<Vec<u32>>,
    root: u32,
) -> Result<u32, TapeError> {
    match target(e, db, p, bindings, root) {
        Err(err) => Err(err),
        Ok(id) => if history::latest(db.players, id) is Some {
            Ok(id)
        } else {
            Err(TapeError::NotAPlayer { id })
        },
    }
}

fn resolve_player_target(
    e: &Env,
    tb: &Tables,
    segs: &Vec<Seg>,
    lo: usize,
    hi: usize,
    bindings: &Vec<Vec<u32>>,
    root: u32,
) -> (r: Result<u32, TapeError>)
    requires
        lo <= hi <= segs.len(),
    ensures
        r == player_target(*e, tb@, segs@.subrange(lo as int, hi as int), bindings@, root),
{
    match resolve(e, tb, segs, lo, hi, bindings, root) {
        Err(err) => Err(err),
        Ok(id) => {
            if players::latest(tb, id).is_some() {
                Ok(id)
            } else {
                Err(TapeError::NotAPlayer { id })
            }
        },
    }
}

/// The effect of `<owner chain>.aspect.faction.set: <faction>`.
pub open spec fn faction_effect(
    e: Env,
    db: Db,
    p: Seq<Seg>,
    value: Option<StatementValue>,
    bindings: Seq<Vec<u32>>,
    root: u32,
) -> Result<Effect, TapeError> {
    match player_target(e, db, p.take(p.len() - 2), bindings, root) {
        Err(err) => Err(err),
        Ok(player_id) => match value {
            Some(StatementValue::Int(n)) => if 0 <= n <= 3 {
                Ok(Effect::SetPlayerFaction { player_id, faction: n as u8 })
            } else {
                Err(TapeError::FactionOutOfRange)
            },
            _ => Err(TapeError::FactionNeedsInteger),
        },
    }
}

pub open spec fn pushed(w: Walk, effect: Result<Effect, TapeError>) -> Result<Walk, TapeError> {
    match effect {
        Err(err) => Err(err),
        Ok(x) => Ok(Walk { pending: w.pending.push(x), ..w }),
    }
}

/// Outcome of a statement whose last word acts on the card or tile before it.
pub open spec fn card_op_done(
    e: Env,
    db: Db,
    w: Walk,
    r: Recipe,
    segs: Seq<Seg>,
    value: Option<StatementValue>,
    bindings: Seq<Vec<u32>>,
    root: u32,
    hex: Option<HexLocation>,
) -> Result<Walk, TapeError> {
    let n = segs.len();
    if n == 0 || !(segs[n - 1] is Word) {
        Err(TapeError::OpNotWord)
    } else {
        let op = segs[n - 1];
        let p = segs.take(n - 1);
        if path::word_is(op, "destroy"@) {
            pushed(
                w,
                match target(e, db, p, bindings, root) {
                    Err(err) => Err(err),
                    Ok(card_id) => Ok(Effect::Destroy { card_id }),
                },
            )
        } else if path::word_is(op, "create"@) {
            pushed(w, create_effect(e, db, p, value, bindings, root))
        } else if path::word_is(op, "unlock"@) {
            pushed(w, unlock_effect(e, db, p, value, bindings, root))
        } else if path::word_is(op, "set"@) && n >= 2 && path::word_is(p[n - 2], "style"@) {
            match target(e, db, p.take(n - 2), bindings, root) {
                Err(err) => Err(err),
                Ok(id) => match style_named(value) {
                    Err(err) => Err(err),
                    Ok(style) => Ok(Walk { styles: w.styles.insert(id, style), ..w }),
                },
            }
        } else if path::word_is(op, "set"@) && names_faction(p) {
            pushed(w, faction_effect(e, db, p, value, bindings, root))
        } else if path::word_is(op, "sub"@) {
            pushed(w, stock_effect(e, db, r, p, StockOp::Sub, value, hex))
        } else if path::word_is(op, "add"@) {
            pushed(w, stock_effect(e, db, r, p, StockOp::Add, value, hex))
        } else if path::word_is(op, "set"@) {
            pushed(w, stock_effect(e, db, r, p, StockOp::Assign, value, hex))
        } else {
            Err(TapeError::UnsupportedOp)
        }
    }
}

fn push_effect(walker: &mut TapeWalker, effect: Result<Effect, TapeError>) -> (r: Result<
    (),
    TapeError,
>)
    ensures
        match pushed(old(walker)@, effect) {
            Ok(w) => r is Ok && final(walker)@ == w,
            Err(err) => r == Err::<(), TapeError>(err) && final(walker)@ == old(walker)@,
        },
{
    match effect {
        Err(err) => Err(err),
        Ok(x) => {
            walker.pending.push(x);
            Ok(())
        },
    }
}

/// Execute a statement whose last word acts on the card or tile before it. An error
/// leaves the walk as it was.
pub fn execute_card_op(
    e: &Env,
    tb: &Tables,
    walker: &mut TapeWalker,
    recipe: &Recipe,
    segs: &Vec<Seg>,
    from: usize,
    value: &Option<StatementValue>,
    bindings: &Vec<Vec<u32>>,
    root: u32,
    hex: &Option<HexLocation>,
) -> (r: Result<(), TapeError>)
    requires
        from <= segs.len(),
    ensures
        match card_op_done(
            *e,
            tb@,
            old(walker)@,
            *recipe,
            segs@.skip(from as int),
            *value,
            bindings@,
            root,
            *hex,
        ) {
            Ok(w) => r is Ok && final(walker)@ == w,
            Err(err) => r == Err::<(), TapeError>(err) && final(walker)@ == old(walker)@,
        },
{
    let ghost part = segs@.skip(from as int);
    if segs.len() == from {
        return Err(TapeError::OpNotWord);
    }
    let hi: usize = segs.len() - 1;
    let op = &segs[hi];
    let ghost p = part.take(part.len() - 1);
    proof {
        assert(part[part.len() - 1] == *op);
        assert(p =~= segs@.subrange(from as int, hi as int));
    }
    match op {
        Seg::Word(_) => {},
        _ => {
            return Err(TapeError::OpNotWord);
        },
    }
    if path::is_word(op, "destroy") {
        let effect: Result<Effect, TapeError> = match resolve(
            e,
            tb,
            segs,
            from,
            hi,
            bindings,
            root,
        ) {
            Err(err) => Err(err),
            Ok(card_id) => Ok(Effect::Destroy { card_id }),
        };
        return push_effect(walker, effect);
    }
    if path::is_word(op, "create") {
        return push_effect(walker, plan_create(e, tb, segs, from, hi, value, bindings, root));
    }
    if path::is_word(op, "unlock") {
        if hi == from || !path::is_word(&segs[hi - 1], "blueprint") {
            return Err(TapeError::UnlockPath);
        }
        assert(p.take(p.len() - 1) =~= segs@.subrange(from as int, hi - 1));
        let effect: Result<Effect, TapeError> = match resolve(
            e,
            tb,
            segs,
            from,
            hi - 1,
            bindings,
            root,
        ) {
            Err(err) => Err(err),
            Ok(target_card_id) => match value {
                Some(StatementValue::Str { text, .. }) => Ok(
                    Effect::UnlockBlueprint { blueprint_key: text.clone(), target_card_id },
                ),
                _ => Err(TapeError::UnlockNeedsKey),
            },
        };
        return push_effect(walker, effect);
    }
    if path::is_word(op, "set") && hi > from && path::is_word(&segs[hi - 1], "style") {
        assert(p.take(part.len() - 2) =~= segs@.subrange(from as int, hi - 1));
        let id: u32 = match resolve(e, tb, segs, from, hi - 1, bindings, root) {
            Err(err) => {
                return Err(err);
            },
            Ok(id) => id,
        };
        return match style_from_value(value) {
            Err(err) => Err(err),
            Ok(style) => {
                walker.styles.insert(id, style);
                Ok(())
            },
        };
    }
    if path::is_word(op, "set") && is_aspect_faction_path(segs, from, hi) {
        assert(p.take(p.len() - 2) =~= segs@.subrange(from as int, hi - 2));
        let effect: Result<Effect, TapeError> = match resolve_player_target(
            e,
            tb,
            segs,
            from,
            hi - 2,
            bindings,
            root,
        ) {
            Err(err) => Err(err),
            Ok(player_id) => match value {
                Some(StatementValue::Int(n)) => {
                    if 0 <= *n && *n <= 3 {
                        Ok(Effect::SetPlayerFaction { player_id, faction: *n as u8 })
                    } else {
                        Err(TapeError::FactionOutOfRange)
                    }
                },
                _ => Err(TapeError::FactionNeedsInteger),
            },
        };
        return push_effect(walker, effect);
    }
    if path::is_word(op, "sub") {
        let effect = plan_stock(e, tb, recipe, segs, from, hi, StockOp::Sub, value, hex);
        return push_effect(walker, effect);
    }
    if path::is_word(op, "add") {
        let effect = plan_stock(e, tb, recipe, segs, from, hi, StockOp::Add, value, hex);
        return push_effect(walker, effect);
    }
    if path::is_word(op, "set") {
        let effect = plan_stock(e, tb, recipe, segs, from, hi, StockOp::Assign, value, hex);
        return push_effect(walker, effect);
    }
    Err(TapeError::UnsupportedOp)
}

// ---- statements ----------------------------------------------------
/// Outcome of one statement of the tape.
pub open spec fn stmt_done(
    e: Env,
    db: Db,
    w: Walk,
    r: Recipe,
    segs: Seq<Seg>,
    value: Option<StatementValue>,
    bindings: Seq<Vec<u32>>,
    root: u32,
    hex: Option<HexLocation>,
) -> Result<Walk, TapeError>
    decreases segs.len(),
{
    if segs.len() == 0 || segs[0] is Index {
        Err(TapeError::Malformed)
    } else if segs[0] is Slot {
        card_op_done(e, db, w, r, segs, value, bindings, root, hex)
    } else if path::word_is(segs[0], "when"@) {
        match gate(w, segs) {
            Err(err) => Err(err),
            Ok(None) => Ok(w),
            Ok(Some(k)) => if 0 < k < segs.len() {
                stmt_done(e, db, w, r, segs.skip(k), value, bindings, root, hex)
            } else {
                Err(TapeError::Malformed)
            },
        }
    } else if path::word_is(segs[0], "sys"@) {
        sys_done(w, segs, value)
    } else if path::word_is(segs[0], "var"@) {
        var_done(e, db, w, r, segs, value, bindings, root)
    } else if path::word_is(segs[0], "root"@) {
        card_op_done(e, db, w, r, segs, value, bindings, root, hex)
    } else {
        Err(TapeError::UnsupportedHead)
    }
}

/// Execute the statement that starts at `from`.
pub fn execute_stmt(
    e: &Env,
    tb: &Tables,
    walker: &mut TapeWalker,
    recipe: &Recipe,
    segs: &Vec<Seg>,
    from: usize,
    value: &Option<StatementValue>,
    bindings: &Vec<Vec<u32>>,
    root: u32,
    hex: &Option<HexLocation>,
) -> (r: Result<(), TapeError>)
    requires
        e.wf(),
        e.catalog.summable(),
        from <= segs.len(),
    ensures
        match stmt_done(
            *e,
            tb@,
            old(walker)@,
            *recipe,
            segs@.skip(from as int),
            *value,
            bindings@,
            root,
            *hex,
        ) {
            Ok(w) => r is Ok && final(walker)@ == w,
            Err(err) => r == Err::<(), TapeError>(err) && final(walker)@ == old(walker)@,
        },
    decreases segs.len() - from,
{
    if from == segs.len() {
        return Err(TapeError::Malformed);
    }
    assert(segs@.skip(from as int)[0] == segs@[from as int]);
    match &segs[from] {
        Seg::Index(_) => {
            return Err(TapeError::Malformed);
        },
        Seg::Slot { .. } => {
            return execute_card_op(e, tb, walker, recipe, segs, from, value, bindings, root, hex);
        },
        Seg::Word(_) => {},
    }
    let head = &segs[from];
    if path::is_word(head, "when") {
        match evaluate_gate(walker, segs, from) {
            Err(err) => Err(err),
            Ok(None) => Ok(()),
            Ok(Some(k)) => {
                assert(segs@.skip(from as int).skip(k - from) =~= segs@.skip(k as int));
                execute_stmt(e, tb, walker, recipe, segs, k, value, bindings, root, hex)
            },
        }
    } else if path::is_word(head, "sys") {
        execute_sys(walker, segs, from, value)
    } else if path::is_word(head, "var") {
        execute_var(e, tb, walker, recipe, segs, from, value, bindings, root)
    } else if path::is_word(head, "root") {
        execute_card_op(e, tb, walker, recipe, segs, from, value, bindings, root, hex)
    } else {
        Err(TapeError::UnsupportedHead)
    }
}

// ---- laws ----------------------------------------------------------
/// The walk with one more effect to come.
pub open spec fn with_effect(w: Walk, x: Effect) -> Walk {
    Walk { pending: w.pending.push(x), ..w }
}

/// The walk with the progress style of one card set.
pub open spec fn with_style(w: Walk, id: u32, style: u8) -> Walk {
    Walk { styles: w.styles.insert(id, style), ..w }
}

/// The statement ends in `style.set`.
pub open spec fn sets_style(segs: Seq<Seg>) -> bool {
    let n = segs.len();
    n >= 2 && path::word_is(segs[n - 1], "set"@) && path::word_is(segs[n - 2], "style"@)
}

/// A statement that acts on a card or tile adds exactly one effect after those
/// before it, or sets the style of one card to one of eight; variables and duration
/// never change. Only a statement that ends in `style.set` sets a style, and such a
/// statement adds no effect.
pub proof fn card_ops_do_one_thing(
    e: Env,
    db: Db,
    w: Walk,
    r: Recipe,
    segs: Seq<Seg>,
    value: Option<StatementValue>,
    bindings: Seq<Vec<u32>>,
    root: u32,
    hex: Option<HexLocation>,
)
    requires
        card_op_done(e, db, w, r, segs, value, bindings, root, hex) is Ok,
    ensures
        ({
            let out = card_op_done(e, db, w, r, segs, value, bindings, root, hex)->Ok_0;
            if sets_style(segs) {
                exists|id: u32, style: u8| style < 8 && out == #[trigger] with_style(w, id, style)
            } else {
                exists|x: Effect| out == #[trigger] with_effect(w, x)
            }
        }),
{
    let out = card_op_done(e, db, w, r, segs, value, bindings, root, hex)->Ok_0;
    let n = segs.len();
    let p = segs.take(n - 1);
    reveal_strlit("set");
    reveal_strlit("destroy");
    reveal_strlit("create");
    reveal_strlit("unlock");
    assert("set"@.len() == 3 && "destroy"@.len() == 7 && "create"@.len() == 6 && "unlock"@.len()
        == 6);
    if sets_style(segs) {
        assert(p[n - 2] == segs[n - 2]);
        let id = target(e, db, p.take(n - 2), bindings, root)->Ok_0;
        let style = style_named(value)->Ok_0;
        assert(out == with_style(w, id, style));
    } else {
        assert(out == with_effect(w, out.pending.last()));
    }
}

} // verus!
