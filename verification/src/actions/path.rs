//! Paths of recipe statements: an anchor card, followed by owner and parent
//! steps and slot references.
use vstd::prelude::*;

use crate::cards::cards;
use crate::cards::env::Env;
use crate::content::Seg;
use crate::content::Segment;
use crate::content::SlotIterator;
use crate::tables::Db;
use crate::tables::Tables;

verus! {

/// Why a path does not resolve to a card.
#[derive(Clone, Copy, Debug, PartialEq, Eq, Structural)]
pub enum PathError {
    /// The anchor is `root`, and the action has no root card.
    RootIsZero,
    /// The proposal has no binding row for the iterator.
    NoBinding { iterator_id: u32 },
    /// The binding row is too short.
    NoOffset { iterator_id: u32, offset: u32 },
    /// The path starts with neither `root` nor a slot reference.
    BadAnchor,
    CardMissing { card_id: u32 },
    NoOwner { card_id: u32 },
    NoParent { card_id: u32 },
    /// A segment is neither a step nor a slot reference.
    BadSegment,
    /// The path ends at no card.
    EndsAtZero,
    /// A slot reference whose branch exceeds a byte.
    BranchTooLarge { value: u32 },
    /// No iterator of the recipe covers a slot reference.
    NoIterator { branch: u8 },
}

/// `seg` is the word `word`.
pub open spec fn word_is(seg: Seg, word: Seq<char>) -> bool {
    seg matches Seg::Word(w) && w@ == word
}

/// Test a segment for a word.
pub fn is_word(seg: &Seg, word: &str) -> (r: bool)
    ensures
        r == word_is(*seg, word@),
{
    let wanted: String = word.to_owned();
    match seg {
        Seg::Word(w) => *w == wanted,
        _ => false,
    }
}

/// Test a text for a literal.
pub fn text_is(text: &String, word: &str) -> (r: bool)
    ensures
        r == (text@ == word@),
{
    let wanted: String = word.to_owned();
    *text == wanted
}

/// The card bound at a slot.
pub open spec fn bound_at(bindings: Seq<Vec<u32>>, iterator_id: u32, offset: u32) -> Result<
    u32,
    PathError,
> {
    if iterator_id >= bindings.len() {
        Err(PathError::NoBinding { iterator_id })
    } else if offset >= bindings[iterator_id as int]@.len() {
        Err(PathError::NoOffset { iterator_id, offset })
    } else {
        Ok(bindings[iterator_id as int]@[offset as int])
    }
}

/// Read the card bound at a slot.
pub fn read_binding(bindings: &Vec<Vec<u32>>, iterator_id: u32, offset: u32) -> (r: Result<
    u32,
    PathError,
>)
    ensures
        r == bound_at(bindings@, iterator_id, offset),
{
    if iterator_id as usize >= bindings.len() {
        return Err(PathError::NoBinding { iterator_id });
    }
    let row = &bindings[iterator_id as usize];
    if offset as usize >= row.len() {
        return Err(PathError::NoOffset { iterator_id, offset });
    }
    Ok(row[offset as usize])
}

/// The card that a path starts at.
pub open spec fn anchor(path: Seq<Seg>, bindings: Seq<Vec<u32>>, root: u32) -> Result<u32, PathError> {
    if path.len() == 0 {
        Err(PathError::BadAnchor)
    } else if word_is(path[0], "root"@) {
        if root == 0 {
            Err(PathError::RootIsZero)
        } else {
            Ok(root)
        }
    } else {
        match path[0] {
            Seg::Slot { iterator_id, offset } => bound_at(bindings, iterator_id, offset),
            _ => Err(PathError::BadAnchor),
        }
    }
}

/// The card reached from `card_id` by one segment.
pub open spec fn step(e: Env, db: Db, seg: Seg, bindings: Seq<Vec<u32>>, card_id: u32) -> Result<
    u32,
    PathError,
> {
    if word_is(seg, "owner"@) {
        match cards::current(e, db, card_id) {
            None => Err(PathError::CardMissing { card_id }),
            Some(c) => if c.owner_id == 0 {
                Err(PathError::NoOwner { card_id })
            } else {
                Ok(c.owner_id)
            },
        }
    } else if word_is(seg, "parent"@) {
        match cards::current(e, db, card_id) {
            None => Err(PathError::CardMissing { card_id }),
            Some(c) => if c.micro_location == 0 {
                Err(PathError::NoParent { card_id })
            } else {
                Ok(c.micro_location)
            },
        }
    } else {
        match seg {
            Seg::Slot { iterator_id, offset } => bound_at(bindings, iterator_id, offset),
            _ => Err(PathError::BadSegment),
        }
    }
}

/// The card reached by the first `n` segments of a path.
pub open spec fn walked(
    e: Env,
    db: Db,
    path: Seq<Seg>,
    bindings: Seq<Vec<u32>>,
    root: u32,
    n: int,
) -> Result<u32, PathError>
    decreases n,
{
    if n <= 1 {
        anchor(path, bindings, root)
    } else {
        match walked(e, db, path, bindings, root, n - 1) {
            Err(err) => Err(err),
            Ok(card_id) => step(e, db, path[n - 1], bindings, card_id),
        }
    }
}

/// The card that a path names.
pub open spec fn target(e: Env, db: Db, path: Seq<Seg>, bindings: Seq<Vec<u32>>, root: u32) -> Result<
    u32,
    PathError,
> {
    match walked(e, db, path, bindings, root, path.len() as int) {
        Err(err) => Err(err),
        Ok(id) => if id == 0 {
            Err(PathError::EndsAtZero)
        } else {
            Ok(id)
        },
    }
}

proof fn lemma_walk_stops(
    e: Env,
    db: Db,
    path: Seq<Seg>,
    bindings: Seq<Vec<u32>>,
    root: u32,
    n: int,
    m: int,
)
    requires
        1 <= n <= m,
        walked(e, db, path, bindings, root, n) is Err,
    ensures
        walked(e, db, path, bindings, root, m) == walked(e, db, path, bindings, root, n),
    decreases m - n,
{
    if n < m {
        lemma_walk_stops(e, db, path, bindings, root, n, m - 1);
    }
}

/// Resolve the segments `lo..hi` of `segs` to the card they name.
pub fn resolve_card_target(
    e: &Env,
    tb: &Tables,
    segs: &Vec<Seg>,
    lo: usize,
    hi: usize,
    bindings: &Vec<Vec<u32>>,
    root: u32,
) -> (r: Result<u32, PathError>)
    requires
        lo <= hi <= segs.len(),
    ensures
        r == target(*e, tb@, segs@.subrange(lo as int, hi as int), bindings@, root),
{
    let ghost path = segs@.subrange(lo as int, hi as int);
    if lo == hi {
        return Err(PathError::BadAnchor);
    }
    let mut card_id: u32 = if is_word(&segs[lo], "root") {
        if root == 0 {
            proof {
                lemma_walk_stops(*e, tb@, path, bindings@, root, 1, path.len() as int);
            }
            return Err(PathError::RootIsZero);
        }
        root
    } else {
        match &segs[lo] {
            Seg::Slot { iterator_id, offset } => {
                match read_binding(bindings, *iterator_id, *offset) {
                    Ok(id) => id,
                    Err(err) => {
                        proof {
                            lemma_walk_stops(*e, tb@, path, bindings@, root, 1, path.len() as int);
                        }
                        return Err(err);
                    },
                }
            },
            _ => {
                proof {
                    lemma_walk_stops(*e, tb@, path, bindings@, root, 1, path.len() as int);
                }
                return Err(PathError::BadAnchor);
            },
        }
    };
    let mut i: usize = lo + 1;
    while i < hi
        invariant
            lo < i <= hi <= segs.len(),
            path == segs@.subrange(lo as int, hi as int),
            walked(*e, tb@, path, bindings@, root, i - lo) == Ok::<u32, PathError>(card_id),
        decreases hi - i,
    {
        let seg = &segs[i];
        assert(path[i - lo] == *seg);
        let next: Result<u32, PathError> = if is_word(seg, "owner") {
            match cards::latest(e, tb, card_id) {
                None => Err(PathError::CardMissing { card_id }),
                Some(c) => {
                    if c.owner_id == 0 {
                        Err(PathError::NoOwner { card_id })
                    } else {
                        Ok(c.owner_id)
                    }
                },
            }
        } else if is_word(seg, "parent") {
            match cards::latest(e, tb, card_id) {
                None => Err(PathError::CardMissing { card_id }),
                Some(c) => {
                    if c.micro_location == 0 {
                        Err(PathError::NoParent { card_id })
                    } else {
                        Ok(c.micro_location)
                    }
                },
            }
        } else {
            match seg {
                Seg::Slot { iterator_id, offset } => read_binding(bindings, *iterator_id, *offset),
                _ => Err(PathError::BadSegment),
            }
        };
        assert(next == step(*e, tb@, path[i - lo], bindings@, card_id));
        match next {
            Ok(id) => {
                card_id = id;
            },
            Err(err) => {
                proof {
                    lemma_walk_stops(
                        *e,
                        tb@,
                        path,
                        bindings@,
                        root,
                        i - lo + 1,
                        path.len() as int,
                    );
                }
                return Err(err);
            },
        }
        i = i + 1;
    }
    if card_id == 0 {
        return Err(PathError::EndsAtZero);
    }
    Ok(card_id)
}

// ---- slot references in texts --------------------------------------
/// Two segments read the same.
pub open spec fn same_seg(a: Seg, b: Seg) -> bool {
    match a {
        Seg::Word(w) => word_is(b, w@),
        Seg::Index(n) => b == Seg::Index(n),
        Seg::Slot { iterator_id, offset } => b == (Seg::Slot { iterator_id, offset }),
    }
}

/// Two paths read the same.
pub open spec fn same_path(a: Seq<Seg>, b: Seq<Seg>) -> bool {
    a.len() == b.len() && forall|i: int| 0 <= i < a.len() ==> same_seg(#[trigger] a[i], b[i])
}

fn same_segs(a: &Vec<Seg>, b: &Vec<Seg>) -> (r: bool)
    ensures
        r == same_path(a@, b@),
{
    if a.len() != b.len() {
        return false;
    }
    let mut i: usize = 0;
    while i < a.len()
        invariant
            i <= a.len(),
            a.len() == b.len(),
            forall|j: int| 0 <= j < i ==> same_seg(#[trigger] a@[j], b@[j]),
        decreases a.len() - i,
    {
        let same: bool = match (&a[i], &b[i]) {
            (Seg::Word(x), Seg::Word(y)) => *x == *y,
            (Seg::Index(x), Seg::Index(y)) => *x == *y,
            (
                Seg::Slot { iterator_id: x, offset: m },
                Seg::Slot { iterator_id: y, offset: n },
            ) => *x == *y && *m == *n,
            _ => false,
        };
        assert(same == same_seg(a@[i as int], b@[i as int]));
        if !same {
            return false;
        }
        i = i + 1;
    }
    true
}

/// The first iterator over `branch` of the card at `parent`.
pub open spec fn iterator_over(its: Seq<SlotIterator>, parent: Seq<Seg>, branch: u8) -> Option<int>
    decreases its.len(),
{
    if its.len() == 0 {
        None
    } else {
        match iterator_over(its.drop_last(), parent, branch) {
            Some(i) => Some(i),
            None => if same_path(its.last().parent@, parent) && its.last().branch == branch {
                Some(its.len() - 1)
            } else {
                None
            },
        }
    }
}

fn find_iterator(its: &Vec<SlotIterator>, parent: &Vec<Seg>, branch: u8) -> (found: Option<usize>)
    ensures
        match found {
            Some(i) => iterator_over(its@, parent@, branch) == Some(i as int),
            None => iterator_over(its@, parent@, branch) is None,
        },
{
    let mut found: Option<usize> = None;
    let mut i: usize = 0;
    while i < its.len()
        invariant
            i <= its.len(),
            match found {
                Some(k) => iterator_over(its@.take(i as int), parent@, branch) == Some(k as int),
                None => iterator_over(its@.take(i as int), parent@, branch) is None,
            },
        decreases its.len() - i,
    {
        proof {
            let next = its@.take(i + 1);
            assert(next.drop_last() =~= its@.take(i as int));
            assert(next.last() == its@[i as int]);
        }
        if found.is_none() && same_segs(&its[i].parent, parent) && its[i].branch == branch {
            found = Some(i);
        }
        i = i + 1;
    }
    assert(its@.take(its.len() as int) =~= its@);
    found
}

/// A slot reference `slot.<branch>.<offset>` starts at `i`.
pub open spec fn slot_triplet(raw: Seq<Segment>, i: int) -> Option<(u32, u32)> {
    if i + 2 < raw.len() {
        match (raw[i], raw[i + 1], raw[i + 2]) {
            (Segment::Word(w), Segment::Index(b), Segment::Index(o)) => if w@ == "slot"@ {
                Some((b, o))
            } else {
                None
            },
            _ => None,
        }
    } else {
        None
    }
}

pub open spec fn plain_seg(s: Segment) -> Seg {
    match s {
        Segment::Word(w) => Seg::Word(w),
        Segment::Index(n) => Seg::Index(n),
    }
}

/// `out`, extended by the segments of `raw` from `i` on, with each slot reference
/// turned into the slot of the iterator that covers it.
pub open spec fn collapsed(raw: Seq<Segment>, its: Seq<SlotIterator>, i: int, out: Seq<Seg>) -> Result<
    Seq<Seg>,
    PathError,
>
    decreases raw.len() - i,
{
    if i >= raw.len() {
        Ok(out)
    } else {
        match slot_triplet(raw, i) {
            Some(t) => if t.0 > 255 {
                Err(PathError::BranchTooLarge { value: t.0 })
            } else {
                match iterator_over(its, out, t.0 as u8) {
                    None => Err(PathError::NoIterator { branch: t.0 as u8 }),
                    Some(k) => collapsed(
                        raw,
                        its,
                        i + 3,
                        out.push(Seg::Slot { iterator_id: k as u32, offset: t.1 }),
                    ),
                }
            },
            None => collapsed(raw, its, i + 1, out.push(plain_seg(raw[i]))),
        }
    }
}

fn find_triplet(raw: &Vec<Segment>, i: usize) -> (t: Option<(u32, u32)>)
    requires
        i < raw.len(),
    ensures
        t == slot_triplet(raw@, i as int),
{
    if raw.len() - i > 2 {
        match (&raw[i], &raw[i + 1], &raw[i + 2]) {
            (Segment::Word(w), Segment::Index(b), Segment::Index(o)) => {
                if text_is(w, "slot") {
                    Some((*b, *o))
                } else {
                    None
                }
            },
            _ => None,
        }
    } else {
        None
    }
}

/// Turn the first `n` segments of a parsed text into a path over the iterators of
/// a recipe.
pub fn collapse_slots_readonly(raw: &Vec<Segment>, n: usize, its: &Vec<SlotIterator>) -> (r: Result<
    Vec<Seg>,
    PathError,
>)
    requires
        n <= raw.len(),
    ensures
        match r {
            Ok(v) => collapsed(raw@.take(n as int), its@, 0, Seq::empty()) == Ok::<
                Seq<Seg>,
                PathError,
            >(v@),
            Err(err) => collapsed(raw@.take(n as int), its@, 0, Seq::empty()) == Err::<
                Seq<Seg>,
                PathError,
            >(err),
        },
{
    let ghost part = raw@.take(n as int);
    let mut out: Vec<Seg> = Vec::new();
    let mut i: usize = 0;
    while i < n
        invariant
            i <= n <= raw.len(),
            part == raw@.take(n as int),
            collapsed(part, its@, 0, Seq::empty()) == collapsed(part, its@, i as int, out@),
        decreases n - i,
    {
        let t: Option<(u32, u32)> = if n - i > 2 {
            find_triplet(raw, i)
        } else {
            None
        };
        assert(t == slot_triplet(part, i as int));
        match t {
            Some(t) => {
                if t.0 > 255 {
                    return Err(PathError::BranchTooLarge { value: t.0 });
                }
                match find_iterator(its, &out, t.0 as u8) {
                    None => {
                        return Err(PathError::NoIterator { branch: t.0 as u8 });
                    },
                    Some(k) => {
                        out.push(Seg::Slot { iterator_id: k as u32, offset: t.1 });
                    },
                }
                i = i + 3;
            },
            None => {
                let seg: Seg = match &raw[i] {
                    Segment::Word(w) => Seg::Word(w.clone()),
                    Segment::Index(x) => Seg::Index(*x),
                };
                assert(seg == plain_seg(part[i as int]));
                out.push(seg);
                i = i + 1;
            },
        }
    }
    Ok(out)
}

} // verus!
