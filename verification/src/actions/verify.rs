//! Verification of a proposal: its bindings against the recipe's input
//! predicates, and against the state of the world.
use vstd::prelude::*;

use crate::actions::path;
use crate::actions::path::PathError;
use crate::actions::tape;
use crate::cards::cards;
use crate::cards::cards::Card;
use crate::cards::env::Env;
use crate::cards::env::HoldKind;
use crate::cards::flags;
use crate::content;
use crate::content::AspectDefinition;
use crate::content::AspectId;
use crate::content::Catalog;
use crate::content::Recipe;
use crate::content::Seg;
use crate::content::StatementValue;
use crate::content::StockSlot;
use crate::content::Stmt;
use crate::history;
use crate::packed;
use crate::regions::cards as tiles;
use crate::tables::Db;
use crate::tables::Tables;

verus! {

/// Why an input predicate does not hold or cannot be evaluated.
#[derive(Clone, Copy, Debug, PartialEq, Eq, Structural)]
pub enum VerifyError {
    Path(PathError),
    IteratorOutOfRange { iterator_id: u32 },
    /// A synthetic tile has no chain to walk.
    TileHasNoChain,
    /// The slot is bound to no card.
    Unbound { iterator_id: u32, offset: u32 },
    /// A slot reference follows another without a step between them.
    SlotAfterSlot { iterator_id: u32, offset: u32 },
    /// A nested binding stands in another branch than its iterator's.
    BranchMismatch { iterator_id: u32, expected: u8, actual: u8 },
    /// The statement does not end in a predicate.
    NoPredicate,
    DefinitionNeedsText,
    UnknownDefinition { packed_definition: u16 },
    WrongDefinition,
    MinPath,
    AspectExpected,
    AspectNameNotWord,
    MinNeedsInteger,
    UnknownAspect,
    BelowMinimum { required: i32, total: i32 },
    OutputOp,
    ComparisonOp,
    UnsupportedPredicate,
}

/// What stands at a path: a definition, and row stocks where it has them.
pub type Subject = (u16, Option<(u8, u8)>);

/// Where a path starts.
pub enum Anchored {
    /// At a synthetic tile, which ends it.
    Tile { subject: Subject },
    Card { card_id: u32 },
}

/// The definition and stocks of a synthetic tile.
pub type SyntheticTile = (u16, (u8, u8));

/// The card bound at a slot of one of the recipe's iterators.
pub open spec fn slot_card(r: Recipe, bindings: Seq<Vec<u32>>, iterator_id: u32, offset: u32) -> Result<
    u32,
    VerifyError,
> {
    if iterator_id >= r.iterators@.len() {
        Err(VerifyError::IteratorOutOfRange { iterator_id })
    } else {
        match path::bound_at(bindings, iterator_id, offset) {
            Err(err) => Err(VerifyError::Path(err)),
            Ok(id) => Ok(id),
        }
    }
}

fn read_slot(recipe: &Recipe, bindings: &Vec<Vec<u32>>, iterator_id: u32, offset: u32) -> (r: Result<
    u32,
    VerifyError,
>)
    ensures
        r == slot_card(*recipe, bindings@, iterator_id, offset),
        r is Ok ==> iterator_id < recipe.iterators.len(),
{
    if iterator_id as usize >= recipe.iterators.len() {
        return Err(VerifyError::IteratorOutOfRange { iterator_id });
    }
    match path::read_binding(bindings, iterator_id, offset) {
        Err(err) => Err(VerifyError::Path(err)),
        Ok(id) => Ok(id),
    }
}

/// Resolve the first segment of a path.
pub open spec fn anchored(
    r: Recipe,
    p: Seq<Seg>,
    root: u32,
    bindings: Seq<Vec<u32>>,
    tile: Option<SyntheticTile>,
) -> Result<Anchored, VerifyError> {
    if p.len() == 0 {
        Err(VerifyError::Path(PathError::BadAnchor))
    } else if path::word_is(p[0], "root"@) {
        if root == 0 {
            Err(VerifyError::Path(PathError::RootIsZero))
        } else {
            Ok(Anchored::Card { card_id: root })
        }
    } else {
        match p[0] {
            Seg::Slot { iterator_id, offset } => match slot_card(r, bindings, iterator_id, offset) {
                Err(err) => Err(err),
                Ok(id) => {
                    let it = r.iterators@[iterator_id as int];
                    if id == 0 && it.parent@.len() == 0 && it.branch == 0 && offset == 0
                        && tile is Some {
                        if p.len() == 1 {
                            Ok(Anchored::Tile { subject: ((tile->0).0, Some((tile->0).1)) })
                        } else {
                            Err(VerifyError::TileHasNoChain)
                        }
                    } else if id == 0 {
                        Err(VerifyError::Unbound { iterator_id, offset })
                    } else {
                        Ok(Anchored::Card { card_id: id })
                    }
                },
            },
            _ => Err(VerifyError::Path(PathError::BadAnchor)),
        }
    }
}

/// The card reached from `card_id` by the segment `i` of a path. A slot reference
/// of a nested iterator must stand in the iterator's branch.
pub open spec fn stepped(
    e: Env,
    db: Db,
    r: Recipe,
    p: Seq<Seg>,
    i: int,
    bindings: Seq<Vec<u32>>,
    card_id: u32,
    t: u64,
) -> Result<u32, VerifyError> {
    if path::word_is(p[i], "owner"@) {
        match history::prior_at(db.cards, card_id, t) {
            None => Err(VerifyError::Path(PathError::CardMissing { card_id })),
            Some(c) => if c.owner_id == 0 {
                Err(VerifyError::Path(PathError::NoOwner { card_id }))
            } else {
                Ok(c.owner_id)
            },
        }
    } else if path::word_is(p[i], "parent"@) {
        match history::prior_at(db.cards, card_id, t) {
            None => Err(VerifyError::Path(PathError::CardMissing { card_id })),
            Some(c) => if !cards::is_member(e, c) {
                Err(VerifyError::Path(PathError::NoParent { card_id }))
            } else {
                Ok(c.micro_location)
            },
        }
    } else {
        match p[i] {
            Seg::Slot { iterator_id, offset } => match slot_card(r, bindings, iterator_id, offset) {
                Err(err) => Err(err),
                Ok(id) => if id == 0 {
                    Err(VerifyError::Unbound { iterator_id, offset })
                } else if i > 1 && p[i - 1] is Slot {
                    Err(VerifyError::SlotAfterSlot { iterator_id, offset })
                } else {
                    let it = r.iterators@[iterator_id as int];
                    if it.parent@.len() == 0 {
                        Ok(id)
                    } else {
                        match history::prior_at(db.cards, id, t) {
                            None => Err(VerifyError::Path(PathError::CardMissing { card_id: id })),
                            Some(c) => if cards::branch_of(e, c) != it.branch {
                                Err(
                                    VerifyError::BranchMismatch {
                                        iterator_id,
                                        expected: it.branch,
                                        actual: cards::branch_of(e, c),
                                    },
                                )
                            } else {
                                Ok(id)
                            },
                        }
                    }
                },
            },
            _ => Err(VerifyError::Path(PathError::BadSegment)),
        }
    }
}

/// The card reached from `start` by the segments `1..n` of a path.
pub open spec fn walked(
    e: Env,
    db: Db,
    r: Recipe,
    p: Seq<Seg>,
    n: int,
    bindings: Seq<Vec<u32>>,
    start: u32,
    t: u64,
) -> Result<u32, VerifyError>
    decreases n,
{
    if n <= 1 {
        Ok(start)
    } else {
        match walked(e, db, r, p, n - 1, bindings, start, t) {
            Err(err) => Err(err),
            Ok(id) => stepped(e, db, r, p, n - 1, bindings, id, t),
        }
    }
}

/// What a card offers to a predicate: its definition, and for a tile-card its
/// stocks.
pub open spec fn subject_of(e: Env, c: Card) -> Subject {
    (
        c.packed_definition,
        if packed::card_type(c.packed_definition) == tiles::TILE_CARD_TYPE {
            Some(
                (
                    tiles::stock_value(e.bk, c.flags_bk, 0),
                    tiles::stock_value(e.bk, c.flags_bk, 1),
                ),
            )
        } else {
            None
        },
    )
}

/// What stands at a path.
pub open spec fn subject(
    e: Env,
    db: Db,
    r: Recipe,
    p: Seq<Seg>,
    root: u32,
    bindings: Seq<Vec<u32>>,
    tile: Option<SyntheticTile>,
    t: u64,
) -> Result<Subject, VerifyError> {
    match anchored(r, p, root, bindings, tile) {
        Err(err) => Err(err),
        Ok(Anchored::Tile { subject }) => Ok(subject),
        Ok(Anchored::Card { card_id: start }) => match walked(
            e,
            db,
            r,
            p,
            p.len() as int,
            bindings,
            start,
            t,
        ) {
            Err(err) => Err(err),
            Ok(card_id) => match history::prior_at(db.cards, card_id, t) {
                None => Err(VerifyError::Path(PathError::CardMissing { card_id })),
                Some(c) => Ok(subject_of(e, c)),
            },
        },
    }
}

proof fn lemma_walk_stops(
    e: Env,
    db: Db,
    r: Recipe,
    p: Seq<Seg>,
    n: int,
    m: int,
    bindings: Seq<Vec<u32>>,
    start: u32,
    t: u64,
)
    requires
        1 <= n <= m,
        walked(e, db, r, p, n, bindings, start, t) is Err,
    ensures
        walked(e, db, r, p, m, bindings, start, t) == walked(e, db, r, p, n, bindings, start, t),
    decreases m - n,
{
    if n < m {
        lemma_walk_stops(e, db, r, p, n, m - 1, bindings, start, t);
    }
}

fn find_anchor(
    recipe: &Recipe,
    segs: &Vec<Seg>,
    hi: usize,
    root: u32,
    bindings: &Vec<Vec<u32>>,
    tile: &Option<SyntheticTile>,
) -> (r: Result<Anchored, VerifyError>)
    requires
        hi <= segs.len(),
    ensures
        r == anchored(*recipe, segs@.take(hi as int), root, bindings@, *tile),
{
    if hi == 0 {
        return Err(VerifyError::Path(PathError::BadAnchor));
    }
    assert(segs@.take(hi as int)[0] == segs@[0]);
    if path::is_word(&segs[0], "root") {
        if root == 0 {
            return Err(VerifyError::Path(PathError::RootIsZero));
        }
        return Ok(Anchored::Card { card_id: root });
    }
    match &segs[0] {
        Seg::Slot { iterator_id, offset } => {
            let id: u32 = match read_slot(recipe, bindings, *iterator_id, *offset) {
                Err(err) => {
                    return Err(err);
                },
                Ok(id) => id,
            };
            let it = &recipe.iterators[*iterator_id as usize];
            if id == 0 && it.parent.len() == 0 && it.branch == 0 && *offset == 0 {
                if let Some(s) = tile {
                    if hi == 1 {
                        return Ok(Anchored::Tile { subject: (s.0, Some(s.1)) });
                    }
                    return Err(VerifyError::TileHasNoChain);
                }
            }
            if id == 0 {
                return Err(VerifyError::Unbound { iterator_id: *iterator_id, offset: *offset });
            }
            Ok(Anchored::Card { card_id: id })
        },
        _ => Err(VerifyError::Path(PathError::BadAnchor)),
    }
}

fn take_step(
    e: &Env,
    tb: &Tables,
    recipe: &Recipe,
    segs: &Vec<Seg>,
    hi: usize,
    i: usize,
    bindings: &Vec<Vec<u32>>,
    card_id: u32,
    now_ms: u64,
) -> (r: Result<u32, VerifyError>)
    requires
        e.wf(),
        1 <= i < hi <= segs.len(),
    ensures
        r == stepped(
            *e,
            tb@,
            *recipe,
            segs@.take(hi as int),
            i as int,
            bindings@,
            card_id,
            now_ms,
        ),
{
    let seg = &segs[i];
    assert(segs@.take(hi as int)[i as int] == *seg);
    assert(segs@.take(hi as int)[i - 1] == segs@[i - 1]);
    if path::is_word(seg, "owner") {
        return match cards::prior_at(tb, card_id, now_ms) {
            None => Err(VerifyError::Path(PathError::CardMissing { card_id })),
            Some(c) => {
                if c.owner_id == 0 {
                    Err(VerifyError::Path(PathError::NoOwner { card_id }))
                } else {
                    Ok(c.owner_id)
                }
            },
        };
    }
    if path::is_word(seg, "parent") {
        return match cards::prior_at(tb, card_id, now_ms) {
            None => Err(VerifyError::Path(PathError::CardMissing { card_id })),
            Some(c) => {
                if !cards::micro_is_card(e, &c) {
                    Err(VerifyError::Path(PathError::NoParent { card_id }))
                } else {
                    Ok(c.micro_location)
                }
            },
        };
    }
    match seg {
        Seg::Slot { iterator_id, offset } => {
            let id: u32 = match read_slot(recipe, bindings, *iterator_id, *offset) {
                Err(err) => {
                    return Err(err);
                },
                Ok(id) => id,
            };
            if id == 0 {
                return Err(VerifyError::Unbound { iterator_id: *iterator_id, offset: *offset });
            }
            let after_slot: bool = i > 1 && match &segs[i - 1] {
                Seg::Slot { .. } => true,
                _ => false,
            };
            if after_slot {
                return Err(
                    VerifyError::SlotAfterSlot { iterator_id: *iterator_id, offset: *offset },
                );
            }
            let it = &recipe.iterators[*iterator_id as usize];
            if it.parent.len() == 0 {
                return Ok(id);
            }
            match cards::prior_at(tb, id, now_ms) {
                None => Err(VerifyError::Path(PathError::CardMissing { card_id: id })),
                Some(c) => {
                    let actual: u8 = cards::stack_branch(e, &c);
                    if actual != it.branch {
                        Err(
                            VerifyError::BranchMismatch {
                                iterator_id: *iterator_id,
                                expected: it.branch,
                                actual,
                            },
                        )
                    } else {
                        Ok(id)
                    }
                },
            }
        },
        _ => Err(VerifyError::Path(PathError::BadSegment)),
    }
}

/// Resolve the first `hi` segments of a statement to what stands there.
pub fn resolve_target(
    e: &Env,
    tb: &Tables,
    recipe: &Recipe,
    segs: &Vec<Seg>,
    hi: usize,
    root: u32,
    bindings: &Vec<Vec<u32>>,
    tile: &Option<SyntheticTile>,
    now_ms: u64,
) -> (r: Result<Subject, VerifyError>)
    requires
        e.wf(),
        hi <= segs.len(),
    ensures
        r == subject(
            *e,
            tb@,
            *recipe,
            segs@.take(hi as int),
            root,
            bindings@,
            *tile,
            now_ms,
        ),
{
    let ghost p = segs@.take(hi as int);
    let start: u32 = match find_anchor(recipe, segs, hi, root, bindings, tile) {
        Err(err) => {
            return Err(err);
        },
        Ok(Anchored::Tile { subject }) => {
            return Ok(subject);
        },
        Ok(Anchored::Card { card_id }) => card_id,
    };
    let mut card_id: u32 = start;
    let mut i: usize = 1;
    while i < hi
        invariant
            1 <= i,
            i <= hi <= segs.len(),
            e.wf(),
            p == segs@.take(hi as int),
            walked(*e, tb@, *recipe, p, i as int, bindings@, start, now_ms) == Ok::<
                u32,
                VerifyError,
            >(card_id),
            anchored(*recipe, p, root, bindings@, *tile) == Ok::<Anchored, VerifyError>(
                Anchored::Card { card_id: start },
            ),
        decreases hi - i,
    {
        match take_step(e, tb, recipe, segs, hi, i, bindings, card_id, now_ms) {
            Ok(id) => {
                card_id = id;
            },
            Err(err) => {
                proof {
                    lemma_walk_stops(
                        *e,
                        tb@,
                        *recipe,
                        p,
                        i + 1,
                        hi as int,
                        bindings@,
                        start,
                        now_ms,
                    );
                }
                return Err(err);
            },
        }
        i = i + 1;
    }
    match cards::prior_at(tb, card_id, now_ms) {
        None => Err(VerifyError::Path(PathError::CardMissing { card_id })),
        Some(c) => {
            let d: (u8, u16) = packed::unpack_definition(c.packed_definition);
            let stocks: Option<(u8, u8)> = if d.0 == tiles::TILE_CARD_TYPE {
                Some(
                    (
                        tiles::tile_stock(&e.bk, c.flags_bk, 0),
                        tiles::tile_stock(&e.bk, c.flags_bk, 1),
                    ),
                )
            } else {
                None
            };
            Ok((c.packed_definition, stocks))
        },
    }
}

// ---- aspects -------------------------------------------------------
/// The aspect value that a predicate sees: the row stocks where a stock slot
/// matches, else the definition's own values.
pub open spec fn aspect_seen(c: Catalog, s: Subject, wanted: AspectId) -> Result<i32, VerifyError> {
    match content::definition(c.definitions@, s.0) {
        None => Err(VerifyError::UnknownDefinition { packed_definition: s.0 }),
        Some(d) => {
            let own = content::aspect_sum(c.aspects@, d.aspects@, wanted) as i32;
            match s.1 {
                None => Ok(own),
                Some(stocks) => {
                    let m = content::stock_sum(c.aspects@, d.stock@, stocks, wanted);
                    if m.0 > 0 {
                        Ok(m.1 as i32)
                    } else {
                        Ok(own)
                    }
                },
            }
        },
    }
}

fn aspect_total(c: &Catalog, s: Subject, wanted: AspectId) -> (r: Result<i32, VerifyError>)
    requires
        c.summable(),
    ensures
        r == aspect_seen(*c, s, wanted),
{
    let d = match c.decode_definition(s.0) {
        None => {
            return Err(VerifyError::UnknownDefinition { packed_definition: s.0 });
        },
        Some(d) => d,
    };
    proof {
        let k = choose|k: int| 0 <= k < c.definitions@.len() && c.definitions@[k] == *d;
        assert(content::sums_fit(c.aspects@, c.definitions[k]));
    }
    if let Some(stocks) = s.1 {
        let slots = &d.stock;
        let mut matched: bool = false;
        let mut total: i32 = 0;
        let mut i: usize = 0;
        while i < slots.len()
            invariant
                i <= slots.len(),
                slots@ == d.stock@,
                content::sums_fit(c.aspects@, *d),
                0 <= total,
                matched == (content::stock_sum(c.aspects@, slots@.take(i as int), stocks, wanted).0 > 0),
                content::stock_sum(c.aspects@, slots@.take(i as int), stocks, wanted).0 >= 0,
                total == content::stock_sum(c.aspects@, slots@.take(i as int), stocks, wanted).1,
            decreases slots.len() - i,
        {
            proof {
                let next = slots@.take(i + 1);
                assert(next.drop_last() =~= slots@.take(i as int));
                assert(next.last() == slots@[i as int]);
                assert(content::stock_sum(c.aspects@, next, stocks, wanted).1 <= i32::MAX);
            }
            if c.is_aspect_descendant(slots[i].aspect_id, wanted) {
                matched = true;
                let v: u8 = if i == 0 {
                    stocks.0
                } else {
                    stocks.1
                };
                total = total + v as i32;
            }
            i = i + 1;
        }
        assert(slots@.take(slots.len() as int) =~= slots@);
        if matched {
            return Ok(total);
        }
    }
    Ok(tape::sum_aspects(c, d, wanted))
}

// ---- input predicates ----------------------------------------------
pub open spec fn is_output_op(s: Seg) -> bool {
    path::word_is(s, "destroy"@) || path::word_is(s, "create"@) || path::word_is(s, "set"@)
        || path::word_is(s, "add"@) || path::word_is(s, "sub"@) || path::word_is(s, "random"@)
}

/// Evaluate `<path>.def_id: <key>` or `<path>.aspect.<name>.min: <least>`.
pub open spec fn predicate(
    e: Env,
    db: Db,
    r: Recipe,
    stmt: Stmt,
    root: u32,
    bindings: Seq<Vec<u32>>,
    tile: Option<SyntheticTile>,
    t: u64,
) -> Result<(), VerifyError> {
    let segs = stmt.segments@;
    let n = segs.len();
    if n == 0 || !(segs[n - 1] is Word) {
        Err(VerifyError::NoPredicate)
    } else if path::word_is(segs[n - 1], "def_id"@) {
        match stmt.value {
            Some(StatementValue::Str { text, path }) => match subject(
                e,
                db,
                r,
                segs.take(n - 1),
                root,
                bindings,
                tile,
                t,
            ) {
                Err(err) => Err(err),
                Ok(s) => match content::definition(e.catalog.definitions@, s.0) {
                    None => Err(VerifyError::UnknownDefinition { packed_definition: s.0 }),
                    Some(d) => if d.key@ != text@ {
                        Err(VerifyError::WrongDefinition)
                    } else {
                        Ok(())
                    },
                },
            },
            _ => Err(VerifyError::DefinitionNeedsText),
        }
    } else if path::word_is(segs[n - 1], "min"@) {
        if n < 4 {
            Err(VerifyError::MinPath)
        } else if !path::word_is(segs[n - 3], "aspect"@) {
            Err(VerifyError::AspectExpected)
        } else {
            match segs[n - 2] {
                Seg::Word(name) => match stmt.value {
                    Some(StatementValue::Int(least)) => match content::aspect_by_name(
                        e.catalog.aspects@,
                        name@,
                    ) {
                        None => Err(VerifyError::UnknownAspect),
                        Some(wanted) => match subject(
                            e,
                            db,
                            r,
                            segs.take(n - 3),
                            root,
                            bindings,
                            tile,
                            t,
                        ) {
                            Err(err) => Err(err),
                            Ok(s) => match aspect_seen(e.catalog, s, wanted) {
                                Err(err) => Err(err),
                                Ok(total) => if total < least as i32 {
                                    Err(
                                        VerifyError::BelowMinimum { required: least as i32, total },
                                    )
                                } else {
                                    Ok(())
                                },
                            },
                        },
                    },
                    _ => Err(VerifyError::MinNeedsInteger),
                },
                _ => Err(VerifyError::AspectNameNotWord),
            }
        }
    } else if is_output_op(segs[n - 1]) {
        Err(VerifyError::OutputOp)
    } else if tape::is_comparison(segs[n - 1]) {
        Err(VerifyError::ComparisonOp)
    } else {
        Err(VerifyError::UnsupportedPredicate)
    }
}

fn verify_min(
    e: &Env,
    tb: &Tables,
    recipe: &Recipe,
    stmt: &Stmt,
    root: u32,
    bindings: &Vec<Vec<u32>>,
    tile: &Option<SyntheticTile>,
    now_ms: u64,
) -> (r: Result<(), VerifyError>)
    requires
        e.wf(),
        e.catalog.summable(),
        stmt.segments.len() > 0,
        path::word_is(stmt.segments@[stmt.segments.len() - 1], "min"@),
        !path::word_is(stmt.segments@[stmt.segments.len() - 1], "def_id"@),
    ensures
        r == predicate(*e, tb@, *recipe, *stmt, root, bindings@, *tile, now_ms),
{
    let segs = &stmt.segments;
    let n: usize = segs.len();
    if n < 4 {
        return Err(VerifyError::MinPath);
    }
    if !path::is_word(&segs[n - 3], "aspect") {
        return Err(VerifyError::AspectExpected);
    }
    let name = match &segs[n - 2] {
        Seg::Word(w) => w,
        _ => {
            return Err(VerifyError::AspectNameNotWord);
        },
    };
    let least: i32 = match &stmt.value {
        Some(StatementValue::Int(x)) =>
        #[verifier::truncate]
        (*x as i32),
        _ => {
            return Err(VerifyError::MinNeedsInteger);
        },
    };
    let wanted: AspectId = match e.catalog.aspect_id(name) {
        None => {
            return Err(VerifyError::UnknownAspect);
        },
        Some(id) => id,
    };
    let s: Subject = match resolve_target(
        e,
        tb,
        recipe,
        segs,
        n - 3,
        root,
        bindings,
        tile,
        now_ms,
    ) {
        Err(err) => {
            return Err(err);
        },
        Ok(s) => s,
    };
    match aspect_total(&e.catalog, s, wanted) {
        Err(err) => Err(err),
        Ok(total) => {
            if total < least {
                Err(VerifyError::BelowMinimum { required: least, total })
            } else {
                Ok(())
            }
        },
    }
}

/// Evaluate one input predicate.
pub fn verify_stmt(
    e: &Env,
    tb: &Tables,
    recipe: &Recipe,
    stmt: &Stmt,
    root: u32,
    bindings: &Vec<Vec<u32>>,
    tile: &Option<SyntheticTile>,
    now_ms: u64,
) -> (r: Result<(), VerifyError>)
    requires
        e.wf(),
        e.catalog.summable(),
    ensures
        r == predicate(*e, tb@, *recipe, *stmt, root, bindings@, *tile, now_ms),
{
    let segs = &stmt.segments;
    let n: usize = segs.len();
    if n == 0 {
        return Err(VerifyError::NoPredicate);
    }
    let op = &segs[n - 1];
    match op {
        Seg::Word(_) => {},
        _ => {
            return Err(VerifyError::NoPredicate);
        },
    }
    if path::is_word(op, "def_id") {
        let key = match &stmt.value {
            Some(StatementValue::Str { text, .. }) => text,
            _ => {
                return Err(VerifyError::DefinitionNeedsText);
            },
        };
        let s: Subject = match resolve_target(
            e,
            tb,
            recipe,
            segs,
            n - 1,
            root,
            bindings,
            tile,
            now_ms,
        ) {
            Err(err) => {
                return Err(err);
            },
            Ok(s) => s,
        };
        return match e.catalog.decode_definition(s.0) {
            None => Err(VerifyError::UnknownDefinition { packed_definition: s.0 }),
            Some(d) => {
                if d.key == *key {
                    Ok(())
                } else {
                    Err(VerifyError::WrongDefinition)
                }
            },
        };
    }
    if path::is_word(op, "min") {
        return verify_min(e, tb, recipe, stmt, root, bindings, tile, now_ms);
    }
    if path::is_word(op, "destroy") || path::is_word(op, "create") || path::is_word(op, "set")
        || path::is_word(op, "add") || path::is_word(op, "sub") || path::is_word(op, "random") {
        return Err(VerifyError::OutputOp);
    }
    if path::is_word(op, "gt") || path::is_word(op, "ge") || path::is_word(op, "lt")
        || path::is_word(op, "le") || path::is_word(op, "eq") || path::is_word(op, "ne") {
        return Err(VerifyError::ComparisonOp);
    }
    Err(VerifyError::UnsupportedPredicate)
}

/// A failed input statement.
#[derive(Clone, Copy, Debug, PartialEq, Eq, Structural)]
pub struct InputError {
    /// Position of the statement.
    pub index: usize,
    pub error: VerifyError,
}

/// The first of the first `n` input statements that fails.
pub open spec fn input_error(
    e: Env,
    db: Db,
    r: Recipe,
    root: u32,
    bindings: Seq<Vec<u32>>,
    tile: Option<SyntheticTile>,
    t: u64,
    n: int,
) -> Option<InputError>
    decreases n,
{
    if n <= 0 {
        None
    } else {
        match input_error(e, db, r, root, bindings, tile, t, n - 1) {
            Some(err) => Some(err),
            None => match predicate(e, db, r, r.input@[n - 1], root, bindings, tile, t) {
                Ok(()) => None,
                Err(error) => Some(InputError { index: (n - 1) as usize, error }),
            },
        }
    }
}

proof fn lemma_first_error(
    e: Env,
    db: Db,
    r: Recipe,
    root: u32,
    bindings: Seq<Vec<u32>>,
    tile: Option<SyntheticTile>,
    t: u64,
    n: int,
    m: int,
)
    requires
        0 <= n <= m,
        input_error(e, db, r, root, bindings, tile, t, n) is Some,
    ensures
        input_error(e, db, r, root, bindings, tile, t, m) == input_error(
            e,
            db,
            r,
            root,
            bindings,
            tile,
            t,
            n,
        ),
    decreases m - n,
{
    if n < m {
        lemma_first_error(e, db, r, root, bindings, tile, t, n, m - 1);
    }
}

/// Evaluate every input predicate of a recipe.
pub fn verify_input(
    e: &Env,
    tb: &Tables,
    recipe: &Recipe,
    root: u32,
    bindings: &Vec<Vec<u32>>,
    tile: &Option<SyntheticTile>,
    now_ms: u64,
) -> (failed: Option<InputError>)
    requires
        e.wf(),
        e.catalog.summable(),
    ensures
        failed == input_error(
            *e,
            tb@,
            *recipe,
            root,
            bindings@,
            *tile,
            now_ms,
            recipe.input@.len() as int,
        ),
{
    let input = &recipe.input;
    let mut i: usize = 0;
    while i < input.len()
        invariant
            i <= input.len(),
            input@ == recipe.input@,
            e.wf(),
            e.catalog.summable(),
            input_error(*e, tb@, *recipe, root, bindings@, *tile, now_ms, i as int) is None,
        decreases input.len() - i,
    {
        match verify_stmt(e, tb, recipe, &input[i], root, bindings, tile, now_ms) {
            Ok(()) => {},
            Err(error) => {
                proof {
                    lemma_first_error(
                        *e,
                        tb@,
                        *recipe,
                        root,
                        bindings@,
                        *tile,
                        now_ms,
                        i + 1,
                        input.len() as int,
                    );
                }
                return Some(InputError { index: i, error });
            },
        }
        i = i + 1;
    }
    None
}

// ---- bindings against the world ------------------------------------
/// Why a binding is rejected.
#[derive(Clone, Copy, Debug, PartialEq, Eq, Structural)]
pub enum BindError {
    CardMissing { card_id: u32 },
    CardDead { card_id: u32 },
    /// Another action holds the card for itself.
    Claimed { card_id: u32 },
    /// Other actions share the card, so that it cannot be claimed.
    Shared { card_id: u32 },
    /// Too many actions run on the card.
    Busy { card_id: u32 },
    /// The root takes no stack.
    BlocksStacking { card_id: u32 },
    BoundTwice { card_id: u32 },
    NotOwned { card_id: u32, owner: u32 },
    UnknownDefinition { card_id: u32 },
    /// A magnetic card whose definition names no recipe.
    NoLifecycleRecipe { card_id: u32 },
    /// A magnetic card that another recipe must resolve.
    LockedToRecipe { card_id: u32, recipe_id: u16 },
}

/// The card is alive and its holds permit another action that claims it (or
/// shares it).
pub open spec fn hold_error(e: Env, c: Card, card_id: u32, claims: bool) -> Option<BindError> {
    if cards::is_dead(e, c) {
        Some(BindError::CardDead { card_id })
    } else if cards::hold_value(e, HoldKind::SlotHold, c.flags_bk) > 0 {
        Some(BindError::Claimed { card_id })
    } else if claims && cards::hold_value(e, HoldKind::SlotShare, c.flags_bk) > 0 {
        Some(BindError::Shared { card_id })
    } else if cards::hold_value(e, HoldKind::Touch, c.flags_bk) >= flags::TOUCH_COUNT_CLIENT_CAP {
        Some(BindError::Busy { card_id })
    } else {
        None
    }
}

fn check_holds(e: &Env, c: &Card, card_id: u32, claims: bool) -> (r: Option<BindError>)
    requires
        e.wf(),
    ensures
        r == hold_error(*e, *c, card_id, claims),
{
    if c.flags_state & e.state.dead != 0 {
        return Some(BindError::CardDead { card_id });
    }
    if cards::hold_count(e, HoldKind::SlotHold, c.flags_bk) > 0 {
        return Some(BindError::Claimed { card_id });
    }
    if claims && cards::hold_count(e, HoldKind::SlotShare, c.flags_bk) > 0 {
        return Some(BindError::Shared { card_id });
    }
    if cards::hold_count(e, HoldKind::Touch, c.flags_bk) >= flags::TOUCH_COUNT_CLIENT_CAP {
        return Some(BindError::Busy { card_id });
    }
    None
}

/// Why the root cannot take part.
pub open spec fn root_error(e: Env, db: Db, r: Recipe, root: u32, t: u64) -> Option<BindError> {
    if root == 0 {
        None
    } else {
        match history::prior_at(db.cards, root, t) {
            None => Some(BindError::CardMissing { card_id: root }),
            Some(c) => match hold_error(e, c, root, r.root_slot_hold) {
                Some(err) => Some(err),
                None => if cards::hold_value(e, HoldKind::DropHold, c.flags_bk) > 0 {
                    Some(BindError::BlocksStacking { card_id: root })
                } else {
                    None
                },
            },
        }
    }
}

/// A magnetic card may only be resolved by its own recipe.
pub open spec fn magnetic_error(e: Env, c: Card, card_id: u32, recipe_id: u16) -> Option<BindError> {
    if c.flags_state & e.state.magnetic == 0 {
        None
    } else {
        match content::definition(e.catalog.definitions@, c.packed_definition) {
            None => Some(BindError::UnknownDefinition { card_id }),
            Some(d) => match d.lifecycle_recipe {
                None => Some(BindError::NoLifecycleRecipe { card_id }),
                Some(own) => if own != recipe_id {
                    Some(BindError::LockedToRecipe { card_id, recipe_id: own })
                } else {
                    None
                },
            },
        }
    }
}

/// Why a bound card cannot take part.
pub open spec fn card_error(
    e: Env,
    db: Db,
    card_id: u32,
    claims: bool,
    recipe_id: u16,
    caller: u32,
    t: u64,
) -> Option<BindError> {
    match history::prior_at(db.cards, card_id, t) {
        None => Some(BindError::CardMissing { card_id }),
        Some(c) => match hold_error(e, c, card_id, claims) {
            Some(err) => Some(err),
            None => {
                let owner = match cards::player_of(e, db, card_id) {
                    Some(p) => p,
                    None => cards::WORLD_PLAYER_ID,
                };
                if owner != caller && owner != cards::WORLD_PLAYER_ID {
                    Some(BindError::NotOwned { card_id, owner })
                } else {
                    magnetic_error(e, c, card_id, recipe_id)
                }
            },
        },
    }
}

fn check_card(
    e: &Env,
    tb: &Tables,
    card_id: u32,
    claims: bool,
    recipe_id: u16,
    caller: u32,
    now_ms: u64,
) -> (r: Option<BindError>)
    requires
        e.wf(),
    ensures
        r == card_error(*e, tb@, card_id, claims, recipe_id, caller, now_ms),
{
    let c: Card = match cards::prior_at(tb, card_id, now_ms) {
        None => {
            return Some(BindError::CardMissing { card_id });
        },
        Some(c) => c,
    };
    if let Some(err) = check_holds(e, &c, card_id, claims) {
        return Some(err);
    }
    let owner: u32 = match cards::owning_player(e, tb, card_id) {
        Some(p) => p,
        None => cards::WORLD_PLAYER_ID,
    };
    if owner != caller && owner != cards::WORLD_PLAYER_ID {
        return Some(BindError::NotOwned { card_id, owner });
    }
    if c.flags_state & e.state.magnetic == 0 {
        return None;
    }
    match e.catalog.decode_definition(c.packed_definition) {
        None => Some(BindError::UnknownDefinition { card_id }),
        Some(d) => match d.lifecycle_recipe {
            None => Some(BindError::NoLifecycleRecipe { card_id }),
            Some(own) => {
                if own != recipe_id {
                    Some(BindError::LockedToRecipe { card_id, recipe_id: own })
                } else {
                    None
                }
            },
        },
    }
}

/// The cards seen after a binding row, or the first card of it that is rejected:
/// one that was seen before, or that cannot take part.
pub open spec fn row_checked(
    e: Env,
    db: Db,
    seen: Seq<u32>,
    row: Seq<u32>,
    claims: bool,
    recipe_id: u16,
    caller: u32,
    t: u64,
) -> Result<Seq<u32>, BindError>
    decreases row.len(),
{
    if row.len() == 0 {
        Ok(seen)
    } else {
        match row_checked(e, db, seen, row.drop_last(), claims, recipe_id, caller, t) {
            Err(err) => Err(err),
            Ok(before) => {
                let card_id = row.last();
                if card_id == 0 {
                    Ok(before)
                } else if before.contains(card_id) {
                    Err(BindError::BoundTwice { card_id })
                } else {
                    match card_error(e, db, card_id, claims, recipe_id, caller, t) {
                        Some(err) => Err(err),
                        None => Ok(before.push(card_id)),
                    }
                }
            },
        }
    }
}

/// The iterator of a row claims its cards; a row without an iterator does too.
pub open spec fn row_claims(r: Recipe, i: int) -> bool {
    i < r.iterators@.len() ==> r.iterators@[i].slot_hold
}

pub open spec fn rows_checked(
    e: Env,
    db: Db,
    r: Recipe,
    recipe_id: u16,
    bindings: Seq<Vec<u32>>,
    caller: u32,
    t: u64,
    n: int,
) -> Result<Seq<u32>, BindError>
    decreases n,
{
    if n <= 0 {
        Ok(Seq::empty())
    } else {
        match rows_checked(e, db, r, recipe_id, bindings, caller, t, n - 1) {
            Err(err) => Err(err),
            Ok(seen) => row_checked(
                e,
                db,
                seen,
                bindings[n - 1]@,
                row_claims(r, n - 1),
                recipe_id,
                caller,
                t,
            ),
        }
    }
}

/// Why the bindings of a proposal are rejected.
pub open spec fn binding_error(
    e: Env,
    db: Db,
    r: Recipe,
    recipe_id: u16,
    root: u32,
    bindings: Seq<Vec<u32>>,
    caller: u32,
    t: u64,
) -> Option<BindError> {
    match root_error(e, db, r, root, t) {
        Some(err) => Some(err),
        None => match rows_checked(
            e,
            db,
            r,
            recipe_id,
            bindings,
            caller,
            t,
            bindings.len() as int,
        ) {
            Err(err) => Some(err),
            Ok(_) => None,
        },
    }
}

proof fn lemma_row_stops(
    e: Env,
    db: Db,
    seen: Seq<u32>,
    row: Seq<u32>,
    claims: bool,
    recipe_id: u16,
    caller: u32,
    t: u64,
    n: int,
)
    requires
        0 <= n <= row.len(),
        row_checked(e, db, seen, row.take(n), claims, recipe_id, caller, t) is Err,
    ensures
        row_checked(e, db, seen, row, claims, recipe_id, caller, t) == row_checked(
            e,
            db,
            seen,
            row.take(n),
            claims,
            recipe_id,
            caller,
            t,
        ),
    decreases row.len() - n,
{
    if n < row.len() {
        assert(row.take(n + 1).drop_last() =~= row.take(n));
        lemma_row_stops(e, db, seen, row, claims, recipe_id, caller, t, n + 1);
    } else {
        assert(row.take(n) =~= row);
    }
}

proof fn lemma_rows_stop(
    e: Env,
    db: Db,
    r: Recipe,
    recipe_id: u16,
    bindings: Seq<Vec<u32>>,
    caller: u32,
    t: u64,
    n: int,
    m: int,
)
    requires
        0 <= n <= m,
        rows_checked(e, db, r, recipe_id, bindings, caller, t, n) is Err,
    ensures
        rows_checked(e, db, r, recipe_id, bindings, caller, t, m) == rows_checked(
            e,
            db,
            r,
            recipe_id,
            bindings,
            caller,
            t,
            n,
        ),
    decreases m - n,
{
    if n < m {
        lemma_rows_stop(e, db, r, recipe_id, bindings, caller, t, n, m - 1);
    }
}

fn check_row(
    e: &Env,
    tb: &Tables,
    seen: &mut Vec<u32>,
    row: &Vec<u32>,
    claims: bool,
    recipe_id: u16,
    caller: u32,
    now_ms: u64,
) -> (r: Option<BindError>)
    requires
        e.wf(),
    ensures
        match r {
            None => row_checked(
                *e,
                tb@,
                old(seen)@,
                row@,
                claims,
                recipe_id,
                caller,
                now_ms,
            ) == Ok::<Seq<u32>, BindError>(final(seen)@),
            Some(err) => row_checked(
                *e,
                tb@,
                old(seen)@,
                row@,
                claims,
                recipe_id,
                caller,
                now_ms,
            ) == Err::<Seq<u32>, BindError>(err),
        },
{
    let ghost start = seen@;
    let mut i: usize = 0;
    assert(row@.take(0) =~= Seq::empty());
    while i < row.len()
        invariant
            i <= row.len(),
            e.wf(),
            start == old(seen)@,
            row_checked(
                *e,
                tb@,
                start,
                row@.take(i as int),
                claims,
                recipe_id,
                caller,
                now_ms,
            ) == Ok::<Seq<u32>, BindError>(seen@),
        decreases row.len() - i,
    {
        proof {
            let next = row@.take(i + 1);
            assert(next.drop_last() =~= row@.take(i as int));
            assert(next.last() == row@[i as int]);
        }
        let card_id: u32 = row[i];
        if card_id != 0 {
            let failed: Option<BindError> = if cards::holds_id(seen, card_id) {
                Some(BindError::BoundTwice { card_id })
            } else {
                check_card(e, tb, card_id, claims, recipe_id, caller, now_ms)
            };
            match failed {
                Some(err) => {
                    proof {
                        lemma_row_stops(
                            *e,
                            tb@,
                            start,
                            row@,
                            claims,
                            recipe_id,
                            caller,
                            now_ms,
                            i + 1,
                        );
                    }
                    return Some(err);
                },
                None => {
                    seen.push(card_id);
                },
            }
        }
        i = i + 1;
    }
    assert(row@.take(row.len() as int) =~= row@);
    None
}

/// Check every bound card against the world: it exists and lives, its holds
/// permit the action, it belongs to the caller or to the world, it is bound once,
/// and a magnetic card is resolved by its own recipe.
pub fn validate_bindings(
    e: &Env,
    tb: &Tables,
    recipe: &Recipe,
    recipe_id: u16,
    root: u32,
    bindings: &Vec<Vec<u32>>,
    caller_player_id: u32,
    now_ms: u64,
) -> (failed: Option<BindError>)
    requires
        e.wf(),
    ensures
        failed == binding_error(
            *e,
            tb@,
            *recipe,
            recipe_id,
            root,
            bindings@,
            caller_player_id,
            now_ms,
        ),
{
    if root != 0 {
        match cards::prior_at(tb, root, now_ms) {
            None => {
                return Some(BindError::CardMissing { card_id: root });
            },
            Some(c) => {
                if let Some(err) = check_holds(e, &c, root, recipe.root_slot_hold) {
                    return Some(err);
                }
                if cards::hold_count(e, HoldKind::DropHold, c.flags_bk) > 0 {
                    return Some(BindError::BlocksStacking { card_id: root });
                }
            },
        }
    }
    assert(root_error(*e, tb@, *recipe, root, now_ms) is None);
    let mut seen: Vec<u32> = Vec::new();
    let mut i: usize = 0;
    while i < bindings.len()
        invariant
            i <= bindings.len(),
            e.wf(),
            root_error(*e, tb@, *recipe, root, now_ms) is None,
            rows_checked(
                *e,
                tb@,
                *recipe,
                recipe_id,
                bindings@,
                caller_player_id,
                now_ms,
                i as int,
            ) == Ok::<Seq<u32>, BindError>(seen@),
        decreases bindings.len() - i,
    {
        let claims: bool = if i < recipe.iterators.len() {
            recipe.iterators[i].slot_hold
        } else {
            true
        };
        match check_row(
            e,
            tb,
            &mut seen,
            &bindings[i],
            claims,
            recipe_id,
            caller_player_id,
            now_ms,
        ) {
            None => {},
            Some(err) => {
                proof {
                    lemma_rows_stop(
                        *e,
                        tb@,
                        *recipe,
                        recipe_id,
                        bindings@,
                        caller_player_id,
                        now_ms,
                        i + 1,
                        bindings.len() as int,
                    );
                }
                return Some(err);
            },
        }
        i = i + 1;
    }
    None
}

// ---- laws ----------------------------------------------------------
/// Every card of accepted bindings is in force, alive, claimed by no other action,
/// touched less often than a client may touch it, and no other player's. Where its
/// row claims it, no other action shares it.
pub proof fn accepted_cards_are_free(
    e: Env,
    db: Db,
    r: Recipe,
    recipe_id: u16,
    root: u32,
    bindings: Seq<Vec<u32>>,
    caller: u32,
    t: u64,
    i: int,
    j: int,
)
    requires
        binding_error(e, db, r, recipe_id, root, bindings, caller, t) is None,
        0 <= i < bindings.len(),
        0 <= j < bindings[i]@.len(),
        bindings[i]@[j] != 0,
    ensures
        ({
            let id = bindings[i]@[j];
            &&& history::prior_at(db.cards, id, t) matches Some(c) && !cards::is_dead(e, c)
                && cards::hold_value(e, HoldKind::SlotHold, c.flags_bk) == 0
                && cards::hold_value(e, HoldKind::Touch, c.flags_bk) < flags::TOUCH_COUNT_CLIENT_CAP
                && (row_claims(r, i) ==> cards::hold_value(e, HoldKind::SlotShare, c.flags_bk)
                == 0)
            &&& cards::player_of(e, db, id) matches Some(p) ==> p == caller || p
                == cards::WORLD_PLAYER_ID
        }),
{
    lemma_rows_accept(e, db, r, recipe_id, bindings, caller, t, bindings.len() as int, i, j);
}

proof fn lemma_rows_accept(
    e: Env,
    db: Db,
    r: Recipe,
    recipe_id: u16,
    bindings: Seq<Vec<u32>>,
    caller: u32,
    t: u64,
    n: int,
    i: int,
    j: int,
)
    requires
        0 <= i < n <= bindings.len(),
        rows_checked(e, db, r, recipe_id, bindings, caller, t, n) is Ok,
        0 <= j < bindings[i]@.len(),
        bindings[i]@[j] != 0,
    ensures
        card_error(e, db, bindings[i]@[j], row_claims(r, i), recipe_id, caller, t) is None,
    decreases n,
{
    let prev = rows_checked(e, db, r, recipe_id, bindings, caller, t, n - 1);
    if i == n - 1 {
        lemma_row_accepts(
            e,
            db,
            prev->Ok_0,
            bindings[i]@,
            row_claims(r, i),
            recipe_id,
            caller,
            t,
            j,
        );
    } else {
        lemma_rows_accept(e, db, r, recipe_id, bindings, caller, t, n - 1, i, j);
    }
}

proof fn lemma_row_accepts(
    e: Env,
    db: Db,
    seen: Seq<u32>,
    row: Seq<u32>,
    claims: bool,
    recipe_id: u16,
    caller: u32,
    t: u64,
    j: int,
)
    requires
        row_checked(e, db, seen, row, claims, recipe_id, caller, t) is Ok,
        0 <= j < row.len(),
        row[j] != 0,
    ensures
        card_error(e, db, row[j], claims, recipe_id, caller, t) is None,
    decreases row.len(),
{
    if j < row.len() - 1 {
        assert(row.drop_last()[j] == row[j]);
        lemma_row_accepts(e, db, seen, row.drop_last(), claims, recipe_id, caller, t, j);
    }
}

/// No card is bound at two places of accepted bindings.
pub proof fn accepted_cards_are_distinct(
    e: Env,
    db: Db,
    r: Recipe,
    recipe_id: u16,
    root: u32,
    bindings: Seq<Vec<u32>>,
    caller: u32,
    t: u64,
    i: int,
    j: int,
    k: int,
    l: int,
)
    requires
        binding_error(e, db, r, recipe_id, root, bindings, caller, t) is None,
        0 <= i < bindings.len(),
        0 <= j < bindings[i]@.len(),
        0 <= k < bindings.len(),
        0 <= l < bindings[k]@.len(),
        (i, j) != (k, l),
        bindings[i]@[j] != 0,
    ensures
        bindings[i]@[j] != bindings[k]@[l],
{
    let n = bindings.len() as int;
    if bindings[k]@[l] != 0 {
        if i < k || (i == k && j < l) {
            lemma_rows_distinct(e, db, r, recipe_id, bindings, caller, t, n, i, j, k, l);
        } else {
            lemma_rows_distinct(e, db, r, recipe_id, bindings, caller, t, n, k, l, i, j);
        }
    }
}

/// A checked row adds its cards to those seen, and each was new.
proof fn lemma_row_seen(
    e: Env,
    db: Db,
    seen: Seq<u32>,
    row: Seq<u32>,
    claims: bool,
    recipe_id: u16,
    caller: u32,
    t: u64,
)
    requires
        row_checked(e, db, seen, row, claims, recipe_id, caller, t) is Ok,
    ensures
        ({
            let out = row_checked(e, db, seen, row, claims, recipe_id, caller, t)->Ok_0;
            &&& forall|x: u32| #[trigger] out.contains(x) <==> seen.contains(x) || (x != 0
                && row.contains(x))
            &&& forall|j: int| 0 <= j < row.len() && row[j] != 0 ==> !seen.contains(#[trigger] row[j])
            &&& forall|j: int, l: int|
                0 <= j < l < row.len() && row[j] != 0 ==> #[trigger] row[j] != #[trigger] row[l]
        }),
    decreases row.len(),
{
    if row.len() > 0 {
        let init = row.drop_last();
        lemma_row_seen(e, db, seen, init, claims, recipe_id, caller, t);
        let before = row_checked(e, db, seen, init, claims, recipe_id, caller, t)->Ok_0;
        let out = row_checked(e, db, seen, row, claims, recipe_id, caller, t)->Ok_0;
        let id = row.last();
        assert forall|x: u32| #[trigger] row.contains(x) <==> init.contains(x) || x == id by {
            if row.contains(x) {
                let j = choose|j: int| 0 <= j < row.len() && row[j] == x;
                assert(j < init.len() ==> init[j] == x);
            }
            if init.contains(x) {
                let j = choose|j: int| 0 <= j < init.len() && init[j] == x;
                assert(row[j] == x);
            }
            assert(row[row.len() - 1] == id);
        }
        assert forall|x: u32| #[trigger] out.contains(x) <==> seen.contains(x) || (x != 0
            && row.contains(x)) by {
            assert(before.contains(x) <==> seen.contains(x) || (x != 0 && init.contains(x)));
            if id != 0 {
                assert(out == before.push(id));
                if out.contains(x) {
                    let j = choose|j: int| 0 <= j < out.len() && out[j] == x;
                    assert(j < before.len() ==> before[j] == x);
                }
                if before.contains(x) {
                    let j = choose|j: int| 0 <= j < before.len() && before[j] == x;
                    assert(out[j] == x);
                }
                assert(out[out.len() - 1] == id);
            }
        }
        assert forall|j: int| 0 <= j < row.len() && row[j] != 0 implies !seen.contains(
            #[trigger] row[j],
        ) by {
            if j < init.len() {
                assert(init[j] == row[j]);
            } else {
                assert(before.contains(id) <==> seen.contains(id) || (id != 0 && init.contains(id)));
            }
        }
        assert forall|j: int, l: int|
            0 <= j < l < row.len() && row[j] != 0 implies #[trigger] row[j] != #[trigger] row[l] by {
            assert(init[j] == row[j]);
            if l < init.len() {
                assert(init[l] == row[l]);
            } else if row[l] == row[j] {
                assert(init.contains(id));
                assert(before.contains(id) <==> seen.contains(id) || (id != 0 && init.contains(id)));
            }
        }
    }
}

proof fn lemma_rows_seen(
    e: Env,
    db: Db,
    r: Recipe,
    recipe_id: u16,
    bindings: Seq<Vec<u32>>,
    caller: u32,
    t: u64,
    n: int,
    i: int,
    j: int,
)
    requires
        0 <= i < n <= bindings.len(),
        rows_checked(e, db, r, recipe_id, bindings, caller, t, n) is Ok,
        0 <= j < bindings[i]@.len(),
        bindings[i]@[j] != 0,
    ensures
        rows_checked(e, db, r, recipe_id, bindings, caller, t, n)->Ok_0.contains(bindings[i]@[j]),
    decreases n,
{
    let prev = rows_checked(e, db, r, recipe_id, bindings, caller, t, n - 1)->Ok_0;
    lemma_row_seen(
        e,
        db,
        prev,
        bindings[n - 1]@,
        row_claims(r, n - 1),
        recipe_id,
        caller,
        t,
    );
    let x = bindings[i]@[j];
    if i == n - 1 {
        assert(bindings[n - 1]@.contains(x));
    } else {
        lemma_rows_seen(e, db, r, recipe_id, bindings, caller, t, n - 1, i, j);
    }
}

proof fn lemma_rows_distinct(
    e: Env,
    db: Db,
    r: Recipe,
    recipe_id: u16,
    bindings: Seq<Vec<u32>>,
    caller: u32,
    t: u64,
    n: int,
    i: int,
    j: int,
    k: int,
    l: int,
)
    requires
        0 <= i <= k < n <= bindings.len(),
        i < k || j < l,
        rows_checked(e, db, r, recipe_id, bindings, caller, t, n) is Ok,
        0 <= j < bindings[i]@.len(),
        0 <= l < bindings[k]@.len(),
        bindings[i]@[j] != 0,
        bindings[k]@[l] != 0,
    ensures
        bindings[i]@[j] != bindings[k]@[l],
    decreases n,
{
    if k < n - 1 {
        lemma_rows_distinct(e, db, r, recipe_id, bindings, caller, t, n - 1, i, j, k, l);
    } else {
        let prev = rows_checked(e, db, r, recipe_id, bindings, caller, t, n - 1)->Ok_0;
        lemma_row_seen(
            e,
            db,
            prev,
            bindings[n - 1]@,
            row_claims(r, n - 1),
            recipe_id,
            caller,
            t,
        );
        if i < k {
            lemma_rows_seen(e, db, r, recipe_id, bindings, caller, t, n - 1, i, j);
            assert(!prev.contains(bindings[k]@[l]));
        }
    }
}

} // verus!
