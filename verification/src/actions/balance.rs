//! An action gives back, at its completion, what it took when it started.
use vstd::prelude::*;

use crate::actions::completion;
use crate::actions::plan;
use crate::actions::plan::HoldKinds;
use crate::actions::plan::Plan;
use crate::actions::propose;
use crate::actions::tape::Effect;
use crate::actions::tile_cards;
use crate::cards::cards;
use crate::cards::cards::Card;
use crate::cards::env;
use crate::cards::env::Env;
use crate::cards::env::HoldKind;
use crate::cards::keys;
use crate::cards::laws;
use crate::cards::micro::Micro;
use crate::content;
use crate::content::Recipe;
use crate::history;
use crate::packed;
use crate::pending_actions;
use crate::regions::cards as tiles;
use crate::regions::zones;
use crate::tables::Db;

verus! {

// ---- free keys -----------------------------------------------------
/// Taking an action's holds on a card takes free keys only.
pub open spec fn taking_takes_free_keys(e: Env, db: Db, id: u32, k: HoldKinds, t: u64) -> bool {
    let a = cards::held(e, db, id, t, HoldKind::Touch, true);
    let b = if k.slot_hold {
        cards::held(e, a, id, t, HoldKind::SlotHold, true)
    } else {
        a
    };
    let c = if k.slot_share {
        cards::held(e, b, id, t, HoldKind::SlotShare, true)
    } else {
        b
    };
    &&& keys::next_key_free(db, t)
    &&& k.slot_hold ==> keys::next_key_free(a, t)
    &&& k.slot_share ==> keys::next_key_free(b, t)
    &&& k.position_hold ==> keys::next_key_free(c, t)
}

/// Giving back an action's holds on a card takes free keys only.
pub open spec fn giving_takes_free_keys(e: Env, db: Db, id: u32, k: HoldKinds, t: u64) -> bool {
    let a = cards::held(e, db, id, t, HoldKind::Touch, false);
    let b = if k.slot_hold {
        cards::held(e, a, id, t, HoldKind::SlotHold, false)
    } else {
        a
    };
    let c = if k.position_hold {
        cards::held(e, b, id, t, HoldKind::PositionHold, false)
    } else {
        b
    };
    &&& keys::next_key_free(db, t)
    &&& k.slot_hold ==> keys::next_key_free(a, t)
    &&& k.position_hold ==> keys::next_key_free(b, t)
    &&& k.slot_share ==> keys::next_key_free(c, t)
}

/// Taking the listed holds takes free keys only.
pub open spec fn locks_take_free_keys(e: Env, db: Db, holds: Seq<(u32, HoldKinds)>, t: u64) -> bool
    decreases holds.len(),
{
    holds.len() > 0 ==> {
        let init = holds.drop_last();
        &&& locks_take_free_keys(e, db, init, t)
        &&& holds.last().0 != 0 ==> taking_takes_free_keys(
            e,
            propose::locked(e, db, init, t),
            holds.last().0,
            holds.last().1,
            t,
        )
    }
}

/// The card that an effect creates, where it creates one.
pub open spec fn created_card(e: Env, db: Db, x: Effect, t: u64) -> Option<Card> {
    match x {
        Effect::Create { def_key, owner_id } => match content::packed_by_key(
            e.catalog.definitions@,
            def_key@,
        ) {
            None => None,
            Some(def) => Some(
                cards::fresh_card(
                    e,
                    cards::next_id(db),
                    packed::macro_zone_key(owner_id, packed::INVENTORY_LAYER, 0, 0),
                    Micro::Loose {
                        local_q: 0,
                        local_r: 0,
                        x: 0,
                        y: 0,
                        kind: e.loose_kinds@[packed::INVENTORY_LAYER as int],
                    },
                    owner_id,
                    def,
                    0,
                    0,
                ),
            ),
        },
        Effect::CreateDeferred { def_key, host_card_id } => match content::packed_by_key(
            e.catalog.definitions@,
            def_key@,
        ) {
            None => None,
            Some(def) => Some(completion::deferred_card(e, db, def, host_card_id)),
        },
        Effect::ModifyTileStock { zone_id, row, col, slot, op, delta } => match history::latest(
            db.zones,
            zone_id,
        ) {
            None => None,
            Some(z) => if tile_cards::tile_card(e, db, z.macro_zone, col, row, t) is Some {
                None
            } else {
                match tile_cards::zone_tile(db, z.macro_zone, col, row) {
                    Err(_) => None,
                    Ok(tile) => Some(
                        tile_cards::promoted(
                            e,
                            db,
                            z.macro_zone,
                            col,
                            row,
                            zones::latest_on(db.zones, z.macro_zone)->0.owner_id,
                            tile,
                        ),
                    ),
                }
            },
        },
        _ => None,
    }
}

/// The database after an effect created its card, where it creates one.
pub open spec fn card_created(e: Env, db: Db, x: Effect, t: u64) -> Db {
    match created_card(e, db, x, t) {
        None => db,
        Some(c) => cards::after_write(e, cards::id_taken(db), c, t),
    }
}

/// The edit of an effect that changes the stock of a tile: the tile-card, and what
/// becomes of it.
pub open spec fn restocking(e: Env, db: Db, x: Effect, t: u64) -> Option<(u32, spec_fn(Card) -> Card)> {
    match x {
        Effect::ModifyTileStock { zone_id, row, col, slot, op, delta } => match history::latest(
            db.zones,
            zone_id,
        ) {
            None => None,
            Some(z) => match tile_cards::promotion(e, db, z.macro_zone, col, row, t).1 {
                Err(_) => None,
                Ok(tile) => Some(
                    (
                        tile.card_id,
                        tile_cards::restocked(
                            e,
                            slot as int,
                            completion::stock_after(
                                tiles::stock_value(e.bk, tile.flags_bk, slot as int),
                                op,
                                delta,
                            ),
                        ),
                    ),
                ),
            },
        },
        _ => None,
    }
}

/// An effect takes free keys only, and the card that it creates is new.
pub open spec fn effect_takes_free_keys(e: Env, db: Db, x: Effect, t: u64) -> bool {
    let taken = cards::id_taken(db);
    &&& created_card(e, db, x, t) matches Some(c) ==> history::prior_at(db.cards, c.card_id, t)
        is None && keys::write_takes_free_keys(e, taken, c, t, cards::cascade_depth(taken))
    &&& restocking(e, db, x, t) matches Some(s) ==> keys::edit_takes_free_keys(
        e,
        card_created(e, db, x, t),
        s.0,
        t,
        s.1,
    )
}

/// The effects take free keys only, and the cards that they create are new.
pub open spec fn effects_take_free_keys(e: Env, db: Db, xs: Seq<Effect>, t: u64) -> bool
    decreases xs.len(),
{
    xs.len() > 0 ==> {
        let init = xs.drop_last();
        &&& effects_take_free_keys(e, db, init, t)
        &&& effect_takes_free_keys(e, completion::effects_done(e, db, init, t).0, xs.last(), t)
    }
}

/// The row of a participant at the completion.
pub open spec fn completing(e: Env, p: Plan, id: u32) -> spec_fn(Card) -> Card {
    completion::completed(
        e,
        completion::consumed(p.pending, id),
        if p.styles.contains_key(id) {
            p.styles[id]
        } else {
            0
        },
    )
}

/// Finishing a participant takes free keys only.
pub open spec fn finish_takes_free_keys(e: Env, db: Db, p: Plan, id: u32, t: u64) -> bool {
    &&& keys::edit_takes_free_keys(e, db, id, t, completing(e, p, id))
    &&& plan::listed(p.holds, id) matches Some(k) ==> giving_takes_free_keys(
        e,
        cards::edited(e, db, id, t, completing(e, p, id)),
        id,
        k,
        t,
    )
}

/// Finishing the participants takes free keys only.
pub open spec fn finishes_take_free_keys(e: Env, db: Db, p: Plan, ids: Seq<u32>, t: u64) -> bool
    decreases ids.len(),
{
    ids.len() > 0 ==> {
        let init = ids.drop_last();
        &&& finishes_take_free_keys(e, db, p, init, t)
        &&& finish_takes_free_keys(
            e,
            completion::all_finished(e, db, p, init, t),
            p,
            ids.last(),
            t,
        )
    }
}

/// Every row that an action writes between its start and its completion takes a key
/// that no row uses, and every card that it creates is new.
pub open spec fn action_takes_free_keys(
    e: Env,
    db: Db,
    p: Plan,
    bindings: Seq<Vec<u32>>,
    root: u32,
    start_ms: u64,
) -> bool {
    let when = (start_ms + plan::length_ms(p)) as u64;
    let a = propose::locked(e, db, p.holds, start_ms);
    let b = completion::effects_done(e, a, p.pending, when).0;
    &&& locks_take_free_keys(e, db, p.holds, start_ms)
    &&& effects_take_free_keys(e, a, p.pending, when)
    &&& finishes_take_free_keys(e, b, p, completion::participants(bindings, root), when)
}

// ---- counts --------------------------------------------------------
/// The action takes a hold of this family.
pub open spec fn takes(k: HoldKinds, kind: HoldKind) -> bool {
    match kind {
        HoldKind::Touch => true,
        HoldKind::SlotHold => k.slot_hold,
        HoldKind::SlotShare => k.slot_share,
        HoldKind::PositionHold => k.position_hold,
        _ => false,
    }
}

/// From `a` to `b` every count at `t` stayed, and no card was lost.
pub open spec fn counts_kept(e: Env, a: Db, b: Db, kind: HoldKind, t: u64) -> bool {
    &&& history::distinct_versions(b.cards)
    &&& forall|id: u32|
        #[trigger] laws::count_at(e, b, id, kind, t) == laws::count_at(e, a, id, kind, t)
    &&& forall|id: u32|
        history::prior_at(a.cards, id, t) is Some ==> #[trigger] history::prior_at(b.cards, id, t)
            is Some
}

proof fn lemma_write_keeps_counts(
    e: Env,
    db: Db,
    card: Card,
    t: u64,
    depth: nat,
    kind: HoldKind,
)
    requires
        e.wf(),
        history::distinct_versions(db.cards),
        keys::write_takes_free_keys(e, db, card, t, depth),
        cards::hold_value(e, kind, card.flags_bk) == laws::count_at(e, db, card.card_id, kind, t),
    ensures
        counts_kept(e, db, cards::written(e, db, card, t, depth), kind, t),
    decreases depth, 0nat,
{
    let prev = history::prior_at(db.cards, card.card_id, t);
    let d = cards::row_written(e, db, card, t);
    laws::write_reads_back(e, db, card, t);
    laws::marking_leaves_counts(e, card, prev, kind);
    assert(counts_kept(e, db, d, kind, t)) by {
        laws::writes_keep_versions_distinct(e, db, card, t, 0);
        assert forall|id: u32|
            #[trigger] laws::count_at(e, d, id, kind, t) == laws::count_at(e, db, id, kind, t) by {
            if id != card.card_id {
                laws::write_is_isolated(e, db, card, t, id, t);
            }
        }
        assert forall|id: u32|
            history::prior_at(db.cards, id, t) is Some implies #[trigger] history::prior_at(
            d.cards,
            id,
            t,
        ) is Some by {
            if id != card.card_id {
                laws::write_is_isolated(e, db, card, t, id, t);
            }
        }
    }
    let moved = match prev {
        Some(p) => p.macro_zone != card.macro_zone,
        None => false,
    };
    let died = cards::is_dead(e, card) && match prev {
        Some(p) => !cards::is_dead(e, p),
        None => true,
    };
    if depth > 0 && (moved || died) {
        lemma_followers_keep_counts(
            e,
            d,
            cards::follower_ids(e, d.cards, d.cards, card.card_id, t),
            died,
            card.macro_zone,
            t,
            (depth - 1) as nat,
            kind,
        );
        lemma_kept_in_turn(e, db, d, cards::written(e, db, card, t, depth), kind, t);
    }
}

proof fn lemma_followers_keep_counts(
    e: Env,
    db: Db,
    ids: Seq<u32>,
    host_died: bool,
    macro_zone: u64,
    t: u64,
    depth: nat,
    kind: HoldKind,
)
    requires
        e.wf(),
        history::distinct_versions(db.cards),
        keys::followers_take_free_keys(e, db, ids, host_died, macro_zone, t, depth),
    ensures
        counts_kept(
            e,
            db,
            cards::followers_written(e, db, ids, host_died, macro_zone, t, depth),
            kind,
            t,
        ),
    decreases depth, ids.len() + 1,
{
    if ids.len() > 0 {
        let init = ids.drop_last();
        lemma_followers_keep_counts(e, db, init, host_died, macro_zone, t, depth, kind);
        let d = cards::followers_written(e, db, init, host_died, macro_zone, t, depth);
        if let Some(c) = history::prior_at(d.cards, ids.last(), t) {
            let n = cards::follower_edit(host_died, macro_zone, c);
            history::prior_at_is_greatest(d.cards, ids.last(), t);
            lemma_write_keeps_counts(e, d, n, t, depth, kind);
            lemma_kept_in_turn(e, db, d, cards::written(e, d, n, t, depth), kind, t);
        }
    }
}

proof fn lemma_kept_in_turn(e: Env, a: Db, b: Db, c: Db, kind: HoldKind, t: u64)
    requires
        counts_kept(e, a, b, kind, t),
        counts_kept(e, b, c, kind, t),
    ensures
        counts_kept(e, a, c, kind, t),
{
    assert forall|id: u32|
        #[trigger] laws::count_at(e, c, id, kind, t) == laws::count_at(e, a, id, kind, t) by {
        assert(laws::count_at(e, b, id, kind, t) == laws::count_at(e, a, id, kind, t));
    }
    assert forall|id: u32|
        history::prior_at(a.cards, id, t) is Some implies #[trigger] history::prior_at(
        c.cards,
        id,
        t,
    ) is Some by {
        assert(history::prior_at(b.cards, id, t) is Some);
    }
}

proof fn lemma_edit_keeps_counts(
    e: Env,
    db: Db,
    id: u32,
    t: u64,
    f: spec_fn(Card) -> Card,
    kind: HoldKind,
)
    requires
        e.wf(),
        history::distinct_versions(db.cards),
        keys::edit_takes_free_keys(e, db, id, t, f),
        forall|c: Card| (#[trigger] f(c)).card_id == c.card_id,
        forall|c: Card|
            cards::hold_value(e, kind, (#[trigger] f(c)).flags_bk) == cards::hold_value(
                e,
                kind,
                c.flags_bk,
            ),
    ensures
        counts_kept(e, db, cards::edited(e, db, id, t, f), kind, t),
{
    if let Some(c) = history::prior_at(db.cards, id, t) {
        history::prior_at_is_greatest(db.cards, id, t);
        assert(f(c).card_id == id);
        lemma_write_keeps_counts(e, db, f(c), t, cards::cascade_depth(db), kind);
    }
}

/// A step of a hold family on one card, where `on` says so.
proof fn lemma_stepped_where(
    e: Env,
    db: Db,
    id0: u32,
    t: u64,
    on: bool,
    stepping: HoldKind,
    up: bool,
    id: u32,
    kind: HoldKind,
    at: u64,
)
    requires
        e.wf(),
        history::distinct_versions(db.cards),
        history::prior_at(db.cards, id0, t) is Some,
        on ==> keys::next_key_free(db, t),
        t <= at,
    ensures
        ({
            let out = if on {
                cards::held(e, db, id0, t, stepping, up)
            } else {
                db
            };
            &&& history::distinct_versions(out.cards)
            &&& history::prior_at(out.cards, id0, t) is Some
            &&& history::prior_at(out.cards, id, at) is Some == history::prior_at(db.cards, id, at)
                is Some
            &&& laws::count_at(e, out, id, kind, at) == if on && id == id0 && kind == stepping {
                laws::stepped(
                    laws::count_at(e, db, id, kind, at),
                    e.bk.spec_count_field(kind).max,
                    up,
                )
            } else {
                laws::count_at(e, db, id, kind, at)
            }
        }),
{
    if on {
        laws::hold_changes_one_count(e, db, id0, t, stepping, up, id, kind, at);
        laws::hold_changes_one_count(e, db, id0, t, stepping, up, id0, kind, t);
    }
}

/// Where an action takes its holds on one card, the counts of those holds go up.
proof fn lemma_taking_counts(
    e: Env,
    db: Db,
    id0: u32,
    k: HoldKinds,
    t: u64,
    id: u32,
    kind: HoldKind,
    at: u64,
)
    requires
        e.wf(),
        history::distinct_versions(db.cards),
        history::prior_at(db.cards, id0, t) is Some,
        taking_takes_free_keys(e, db, id0, k, t),
        t <= at,
    ensures
        ({
            let out = propose::holds_taken(e, db, id0, k, t);
            &&& history::distinct_versions(out.cards)
            &&& history::prior_at(out.cards, id, at) is Some == history::prior_at(db.cards, id, at)
                is Some
            &&& laws::count_at(e, out, id, kind, at) == if id == id0 && takes(k, kind) {
                laws::stepped(
                    laws::count_at(e, db, id, kind, at),
                    e.bk.spec_count_field(kind).max,
                    true,
                )
            } else {
                laws::count_at(e, db, id, kind, at)
            }
        }),
{
    let a = cards::held(e, db, id0, t, HoldKind::Touch, true);
    let b = if k.slot_hold {
        cards::held(e, a, id0, t, HoldKind::SlotHold, true)
    } else {
        a
    };
    let c = if k.slot_share {
        cards::held(e, b, id0, t, HoldKind::SlotShare, true)
    } else {
        b
    };
    lemma_stepped_where(e, db, id0, t, true, HoldKind::Touch, true, id, kind, at);
    lemma_stepped_where(e, a, id0, t, k.slot_hold, HoldKind::SlotHold, true, id, kind, at);
    lemma_stepped_where(e, b, id0, t, k.slot_share, HoldKind::SlotShare, true, id, kind, at);
    lemma_stepped_where(e, c, id0, t, k.position_hold, HoldKind::PositionHold, true, id, kind, at);
}

/// Where an action gives back its holds on one card, the counts of those holds go
/// down.
proof fn lemma_giving_counts(
    e: Env,
    db: Db,
    id0: u32,
    k: HoldKinds,
    t: u64,
    id: u32,
    kind: HoldKind,
)
    requires
        e.wf(),
        history::distinct_versions(db.cards),
        history::prior_at(db.cards, id0, t) is Some,
        giving_takes_free_keys(e, db, id0, k, t),
    ensures
        ({
            let out = completion::holds_released(e, db, id0, k, t);
            &&& history::distinct_versions(out.cards)
            &&& history::prior_at(out.cards, id, t) is Some == history::prior_at(db.cards, id, t)
                is Some
            &&& laws::count_at(e, out, id, kind, t) == if id == id0 && takes(k, kind) {
                laws::stepped(
                    laws::count_at(e, db, id, kind, t),
                    e.bk.spec_count_field(kind).max,
                    false,
                )
            } else {
                laws::count_at(e, db, id, kind, t)
            }
        }),
{
    let a = cards::held(e, db, id0, t, HoldKind::Touch, false);
    let b = if k.slot_hold {
        cards::held(e, a, id0, t, HoldKind::SlotHold, false)
    } else {
        a
    };
    let c = if k.position_hold {
        cards::held(e, b, id0, t, HoldKind::PositionHold, false)
    } else {
        b
    };
    lemma_stepped_where(e, db, id0, t, true, HoldKind::Touch, false, id, kind, t);
    lemma_stepped_where(e, a, id0, t, k.slot_hold, HoldKind::SlotHold, false, id, kind, t);
    lemma_stepped_where(e, b, id0, t, k.position_hold, HoldKind::PositionHold, false, id, kind, t);
    lemma_stepped_where(e, c, id0, t, k.slot_share, HoldKind::SlotShare, false, id, kind, t);
}

/// The listed cards are there when their holds are taken; none is the empty slot.
pub open spec fn all_there(db: Db, holds: Seq<(u32, HoldKinds)>, t: u64) -> bool {
    forall|i: int|
        0 <= i < holds.len() ==> (#[trigger] holds[i]).0 != 0 && history::prior_at(
            db.cards,
            holds[i].0,
            t,
        ) is Some
}

/// The list gives the card a hold of this family.
pub open spec fn holds_on(holds: Seq<(u32, HoldKinds)>, id: u32, kind: HoldKind) -> bool {
    plan::listed(holds, id) matches Some(k) && takes(k, kind)
}

#[verifier::rlimit(40)]
proof fn lemma_locks_count(
    e: Env,
    db: Db,
    holds: Seq<(u32, HoldKinds)>,
    t: u64,
    id: u32,
    kind: HoldKind,
    at: u64,
)
    requires
        e.wf(),
        history::distinct_versions(db.cards),
        plan::ascending(holds),
        all_there(db, holds, t),
        locks_take_free_keys(e, db, holds, t),
        t <= at,
    ensures
        ({
            let out = propose::locked(e, db, holds, t);
            &&& history::distinct_versions(out.cards)
            &&& history::prior_at(out.cards, id, at) is Some == history::prior_at(db.cards, id, at)
                is Some
            &&& laws::count_at(e, out, id, kind, at) == if holds_on(holds, id, kind) {
                laws::stepped(
                    laws::count_at(e, db, id, kind, at),
                    e.bk.spec_count_field(kind).max,
                    true,
                )
            } else {
                laws::count_at(e, db, id, kind, at)
            }
        }),
    decreases holds.len(),
{
    if holds.len() > 0 {
        let init = holds.drop_last();
        let last = holds.last();
        lemma_list_end(db, holds, t, id);
        lemma_locks_count(e, db, init, t, id, kind, at);
        lemma_locks_count(e, db, init, t, last.0, kind, t);
        let before = propose::locked(e, db, init, t);
        assert(propose::locked(e, db, holds, t) == propose::holds_taken(
            e,
            before,
            last.0,
            last.1,
            t,
        ));
        lemma_taking_counts(e, before, last.0, last.1, t, id, kind, at);
    }
}

proof fn lemma_list_end(db: Db, holds: Seq<(u32, HoldKinds)>, t: u64, id: u32)
    requires
        holds.len() > 0,
        plan::ascending(holds),
        all_there(db, holds, t),
    ensures
        plan::ascending(holds.drop_last()),
        all_there(db, holds.drop_last(), t),
        holds.last().0 != 0,
        history::prior_at(db.cards, holds.last().0, t) is Some,
        holds.last().0 == id ==> plan::listed(holds.drop_last(), id) is None,
{
    let init = holds.drop_last();
    assert(holds[holds.len() - 1] == holds.last());
    assert forall|i: int| 0 <= i < init.len() implies (#[trigger] init[i]).0 != 0
        && history::prior_at(db.cards, init[i].0, t) is Some by {
        assert(init[i] == holds[i]);
    }
    assert forall|i: int, j: int| 0 <= i < j < init.len() implies (#[trigger] init[i]).0 < (
    #[trigger] init[j]).0 by {
        assert(init[i] == holds[i] && init[j] == holds[j]);
    }
    if holds.last().0 == id {
        assert forall|i: int| 0 <= i < init.len() implies (#[trigger] init[i]).0 != id by {
            assert(holds[i].0 < holds[holds.len() - 1].0);
        }
        plan::lemma_listed_below(init, id);
    }
}

// ---- effects -------------------------------------------------------
proof fn lemma_counts_of_cards(e: Env, a: Db, b: Db, c: Db, kind: HoldKind, t: u64)
    requires
        a.cards == b.cards,
        counts_kept(e, b, c, kind, t),
    ensures
        counts_kept(e, a, c, kind, t),
{
    assert forall|id: u32|
        #[trigger] laws::count_at(e, c, id, kind, t) == laws::count_at(e, a, id, kind, t) by {
        assert(laws::count_at(e, a, id, kind, t) == laws::count_at(e, b, id, kind, t));
    }
}

proof fn lemma_no_count(mask: u32, shift: u32)
    by (bit_vector)
    ensures
        (0u32 & mask) >> shift == 0,
{
}

/// Writing a tile stock leaves the hold counts alone.
proof fn lemma_stock_leaves_counts(e: Env, flags_bk: u32, slot: int, value: u8, kind: HoldKind)
    requires
        e.wf(),
    ensures
        cards::hold_value(e, kind, tiles::with_stock(e.bk, flags_bk, slot, value))
            == cards::hold_value(e, kind, flags_bk),
{
    reveal(Env::laid_out);
    if slot == 0 || slot == 1 {
        let g = e.bk.spec_count_field(kind);
        assert(env::apart(g, tiles::stock_field(e.bk, 0)));
        env::write_is_confined(flags_bk, tiles::stock_field(e.bk, slot), value as u32, g.mask);
    }
}

/// A created card has no holds.
proof fn lemma_created_cards_are_free(e: Env, db: Db, x: Effect, t: u64, kind: HoldKind)
    requires
        e.wf(),
        created_card(e, db, x, t) is Some,
    ensures
        cards::hold_value(e, kind, created_card(e, db, x, t)->0.flags_bk) == 0,
        created_card(e, db, x, t)->0.card_id == cards::next_id(db),
{
    let f = e.bk.spec_count_field(kind);
    lemma_no_count(f.mask, f.shift);
    match x {
        Effect::Create { def_key, owner_id } => {
            let def = content::packed_by_key(e.catalog.definitions@, def_key@)->0;
            lemma_fresh_cards_are_free(
                e,
                cards::next_id(db),
                packed::macro_zone_key(owner_id, packed::INVENTORY_LAYER, 0, 0),
                Micro::Loose {
                    local_q: 0,
                    local_r: 0,
                    x: 0,
                    y: 0,
                    kind: e.loose_kinds@[packed::INVENTORY_LAYER as int],
                },
                owner_id,
                def,
                0,
                kind,
            );
        },
        Effect::CreateDeferred { def_key, host_card_id } => {
            let def = content::packed_by_key(e.catalog.definitions@, def_key@)->0;
            match cards::current(e, db, host_card_id) {
                Some(h) => {
                    lemma_fresh_cards_are_free(
                        e,
                        cards::next_id(db),
                        h.macro_zone,
                        Micro::Stacked {
                            root: host_card_id,
                            branch: packed::STACK_STATE_DEFERRED,
                            index: 0,
                        },
                        h.owner_id,
                        def,
                        0,
                        kind,
                    );
                },
                None => {
                    lemma_fresh_cards_are_free(
                        e,
                        cards::next_id(db),
                        packed::macro_zone_key(0, packed::WORLD_LAYER, 0, 0),
                        Micro::Stacked { root: 0, branch: packed::STACK_STATE_DEFERRED, index: 0 },
                        0,
                        def,
                        0,
                        kind,
                    );
                },
            }
        },
        Effect::ModifyTileStock { zone_id, row, col, slot, op, delta } => {
            let z = history::latest(db.zones, zone_id)->0;
            let tile = tile_cards::zone_tile(db, z.macro_zone, col, row)->Ok_0;
            let w = tiles::with_stock(e.bk, 0, 0, tile.1);
            lemma_stock_leaves_counts(e, 0, 0, tile.1, kind);
            lemma_stock_leaves_counts(e, w, 1, tile.2, kind);
            lemma_fresh_cards_are_free(
                e,
                cards::next_id(db),
                z.macro_zone,
                Micro::Loose {
                    local_q: col,
                    local_r: row,
                    x: 0,
                    y: 0,
                    kind: e.loose_kinds@[packed::surface(z.macro_zone) as int],
                },
                zones::latest_on(db.zones, z.macro_zone)->0.owner_id,
                tile.0,
                tiles::with_stock(e.bk, w, 1, tile.2),
                kind,
            );
        },
        _ => {},
    }
}

proof fn lemma_fresh_cards_are_free(
    e: Env,
    card_id: u32,
    macro_zone: u64,
    m: Micro,
    owner_id: u32,
    def: u16,
    flags_bk: u32,
    kind: HoldKind,
)
    requires
        e.wf(),
    ensures
        ({
            let c = cards::fresh_card(e, card_id, macro_zone, m, owner_id, def, 0, flags_bk);
            &&& cards::hold_value(e, kind, c.flags_bk) == cards::hold_value(e, kind, flags_bk)
            &&& c.card_id == card_id
        }),
{
    let bare = Card {
        valid_at: 0,
        card_id,
        macro_zone,
        micro_location: 0,
        owner_id,
        packed_definition: def,
        flags_state: 0 | cards::definition_flags(e, def),
        flags_bk,
    };
    laws::placed_card_has_its_root(e, m, bare, kind);
}

proof fn lemma_creation_keeps_counts(e: Env, db: Db, x: Effect, t: u64, kind: HoldKind)
    requires
        e.wf(),
        history::distinct_versions(db.cards),
        effect_takes_free_keys(e, db, x, t),
    ensures
        counts_kept(e, db, card_created(e, db, x, t), kind, t),
{
    if let Some(c) = created_card(e, db, x, t) {
        let taken = cards::id_taken(db);
        lemma_created_cards_are_free(e, db, x, t, kind);
        lemma_write_keeps_counts(e, taken, c, t, cards::cascade_depth(taken), kind);
        lemma_counts_of_cards(e, db, taken, card_created(e, db, x, t), kind, t);
    }
}

proof fn lemma_effect_keeps_counts(e: Env, db: Db, x: Effect, t: u64, kind: HoldKind)
    requires
        e.wf(),
        history::distinct_versions(db.cards),
        effect_takes_free_keys(e, db, x, t),
        completion::effect_done(e, db, x, t).1 is Ok,
    ensures
        counts_kept(e, db, completion::effect_done(e, db, x, t).0, kind, t),
{
    reveal(completion::effect_done);
    lemma_creation_keeps_counts(e, db, x, t, kind);
    let mid = card_created(e, db, x, t);
    match x {
        Effect::ModifyTileStock { zone_id, row, col, slot, op, delta } => {
            let s = restocking(e, db, x, t)->0;
            let f = s.1;
            let tile = tile_cards::promotion(
                e,
                db,
                history::latest(db.zones, zone_id)->0.macro_zone,
                col,
                row,
                t,
            ).1->Ok_0;
            let next = completion::stock_after(
                tiles::stock_value(e.bk, tile.flags_bk, slot as int),
                op,
                delta,
            );
            assert(f == tile_cards::restocked(e, slot as int, next));
            assert forall|c: Card|
                cards::hold_value(e, kind, (#[trigger] f(c)).flags_bk) == cards::hold_value(
                    e,
                    kind,
                    c.flags_bk,
                ) by {
                lemma_stock_leaves_counts(e, c.flags_bk, slot as int, next, kind);
            }
            lemma_edit_keeps_counts(e, mid, s.0, t, f, kind);
            lemma_kept_in_turn(e, db, mid, cards::edited(e, mid, s.0, t, f), kind, t);
        },
        _ => {},
    }
}

proof fn lemma_effects_keep_counts(e: Env, db: Db, xs: Seq<Effect>, t: u64, kind: HoldKind)
    requires
        e.wf(),
        history::distinct_versions(db.cards),
        effects_take_free_keys(e, db, xs, t),
        completion::effects_done(e, db, xs, t).1 is Ok,
    ensures
        counts_kept(e, db, completion::effects_done(e, db, xs, t).0, kind, t),
    decreases xs.len(),
{
    if xs.len() > 0 {
        let before = completion::effects_done(e, db, xs.drop_last(), t);
        lemma_effects_keep_counts(e, db, xs.drop_last(), t, kind);
        lemma_effect_keeps_counts(e, before.0, xs.last(), t, kind);
        lemma_kept_in_turn(
            e,
            db,
            before.0,
            completion::effects_done(e, db, xs, t).0,
            kind,
            t,
        );
    }
}

// ---- participants --------------------------------------------------
/// The ids ascend, each once.
pub open spec fn rising(ids: Seq<u32>) -> bool {
    forall|i: int, j: int| 0 <= i < j < ids.len() ==> #[trigger] ids[i] < #[trigger] ids[j]
}

proof fn lemma_joined_ids(ids: Seq<u32>, id: u32)
    requires
        rising(ids),
    ensures
        rising(completion::id_joined(ids, id)),
        forall|y: u32| #[trigger]
            completion::id_joined(ids, id).contains(y) <==> y == id || ids.contains(y),
    decreases ids.len(),
{
    let out = completion::id_joined(ids, id);
    if ids.len() == 0 || ids.last() < id {
        assert forall|i: int, j: int| 0 <= i < j < out.len() implies #[trigger] out[i]
            < #[trigger] out[j] by {
            assert(ids[i] <= ids[ids.len() - 1]);
            assert(out[i] == ids[i]);
            if j < ids.len() {
                assert(out[j] == ids[j]);
            }
        }
        assert forall|y: u32| #[trigger] out.contains(y) <==> y == id || ids.contains(y) by {
            if y == id {
                assert(out[ids.len() as int] == y);
            } else if ids.contains(y) {
                let k = choose|k: int| 0 <= k < ids.len() && ids[k] == y;
                assert(out[k] == y);
            } else if out.contains(y) {
                let k = choose|k: int| 0 <= k < out.len() && out[k] == y;
                assert(ids[k] == y);
            }
        }
    } else if ids.last() == id {
        assert(ids[ids.len() - 1] == id);
    } else {
        let init = ids.drop_last();
        assert(rising(init)) by {
            assert forall|i: int, j: int| 0 <= i < j < init.len() implies #[trigger] init[i]
                < #[trigger] init[j] by {
                assert(ids[i] < ids[j]);
            }
        }
        lemma_joined_ids(init, id);
        let mid = completion::id_joined(init, id);
        assert forall|i: int| 0 <= i < mid.len() implies #[trigger] mid[i] < ids.last() by {
            assert(mid.contains(mid[i]));
            if mid[i] != id {
                let k = choose|k: int| 0 <= k < init.len() && init[k] == mid[i];
                assert(ids[k] < ids[ids.len() - 1]);
            }
        }
        assert forall|i: int, j: int| 0 <= i < j < out.len() implies #[trigger] out[i]
            < #[trigger] out[j] by {
            assert(out[i] == mid[i]);
            if j < mid.len() {
                assert(out[j] == mid[j]);
            }
        }
        assert forall|y: u32| #[trigger] out.contains(y) <==> y == id || ids.contains(y) by {
            if out.contains(y) {
                let k = choose|k: int| 0 <= k < out.len() && out[k] == y;
                if k < mid.len() {
                    assert(mid[k] == y);
                    assert(mid.contains(y));
                    if y != id {
                        let m = choose|m: int| 0 <= m < init.len() && init[m] == y;
                        assert(ids[m] == y);
                    }
                } else {
                    assert(ids[ids.len() - 1] == y);
                }
            }
            if y == id || ids.contains(y) {
                if y == ids.last() {
                    assert(out[mid.len() as int] == y);
                } else {
                    if y != id {
                        let m = choose|m: int| 0 <= m < ids.len() && ids[m] == y;
                        assert(init[m] == y);
                    }
                    assert(mid.contains(y));
                    let k = choose|k: int| 0 <= k < mid.len() && mid[k] == y;
                    assert(out[k] == y);
                }
            }
        }
    }
}

proof fn lemma_row_ids(ids: Seq<u32>, row: Seq<u32>, y: u32)
    requires
        rising(ids),
        y != 0,
    ensures
        rising(completion::row_ids(ids, row)),
        completion::row_ids(ids, row).contains(y) <==> ids.contains(y) || row.contains(y),
    decreases row.len(),
{
    if row.len() > 0 {
        let init = row.drop_last();
        lemma_row_ids(ids, init, y);
        assert(row[row.len() - 1] == row.last());
        if init.contains(y) {
            let k = choose|k: int| 0 <= k < init.len() && init[k] == y;
            assert(row[k] == y);
        }
        if row.contains(y) && row.last() != y {
            let k = choose|k: int| 0 <= k < row.len() && row[k] == y;
            assert(init[k] == y);
        }
        if row.last() != 0 {
            lemma_joined_ids(completion::row_ids(ids, init), row.last());
        }
    }
}

proof fn lemma_rows_ids(ids: Seq<u32>, rows: Seq<Vec<u32>>, y: u32)
    requires
        rising(ids),
        y != 0,
    ensures
        rising(completion::rows_ids(ids, rows)),
        completion::rows_ids(ids, rows).contains(y) <==> ids.contains(y) || exists|i: int|
            0 <= i < rows.len() && #[trigger] rows[i]@.contains(y),
    decreases rows.len(),
{
    if rows.len() > 0 {
        let init = rows.drop_last();
        lemma_rows_ids(ids, init, y);
        lemma_row_ids(completion::rows_ids(ids, init), rows.last()@, y);
        assert(rows[rows.len() - 1] == rows.last());
        if exists|i: int| 0 <= i < init.len() && #[trigger] init[i]@.contains(y) {
            let i = choose|i: int| 0 <= i < init.len() && #[trigger] init[i]@.contains(y);
            assert(rows[i]@.contains(y));
        }
        if exists|i: int| 0 <= i < rows.len() && #[trigger] rows[i]@.contains(y) {
            let i = choose|i: int| 0 <= i < rows.len() && #[trigger] rows[i]@.contains(y);
            if i < init.len() {
                assert(init[i]@.contains(y));
            }
        }
    }
}

/// The participants of an action ascend, each once: its root and the bound cards.
/// The empty slot is no participant.
pub proof fn participants_are_root_and_bound(bindings: Seq<Vec<u32>>, root: u32, id: u32)
    requires
        id != 0,
    ensures
        rising(completion::participants(bindings, root)),
        completion::participants(bindings, root).contains(id) <==> id == root || exists|i: int|
            0 <= i < bindings.len() && #[trigger] bindings[i]@.contains(id),
{
    let start = if root != 0 {
        seq![root]
    } else {
        Seq::empty()
    };
    lemma_rows_ids(start, bindings, id);
    if root != 0 {
        assert(start[0] == root);
    }
}

// ---- finishing -----------------------------------------------------
proof fn lemma_finish_counts(e: Env, db: Db, p: Plan, id0: u32, t: u64, id: u32, kind: HoldKind)
    requires
        e.wf(),
        history::distinct_versions(db.cards),
        finish_takes_free_keys(e, db, p, id0, t),
        plan::listed(p.holds, id0) is Some ==> history::prior_at(db.cards, id0, t) is Some,
    ensures
        ({
            let out = completion::finished(e, db, p, id0, t);
            &&& history::distinct_versions(out.cards)
            &&& history::prior_at(db.cards, id, t) is Some ==> history::prior_at(out.cards, id, t)
                is Some
            &&& laws::count_at(e, out, id, kind, t) == if id == id0 && holds_on(p.holds, id, kind) {
                laws::stepped(
                    laws::count_at(e, db, id, kind, t),
                    e.bk.spec_count_field(kind).max,
                    false,
                )
            } else {
                laws::count_at(e, db, id, kind, t)
            }
        }),
{
    let f = completing(e, p, id0);
    let d = cards::edited(e, db, id0, t, f);
    lemma_edit_keeps_counts(e, db, id0, t, f, kind);
    assert(laws::count_at(e, d, id, kind, t) == laws::count_at(e, db, id, kind, t));
    if let Some(k) = plan::listed(p.holds, id0) {
        assert(history::prior_at(d.cards, id0, t) is Some);
        lemma_giving_counts(e, d, id0, k, t, id, kind);
    }
}

#[verifier::rlimit(40)]
proof fn lemma_finishes_count(
    e: Env,
    db: Db,
    p: Plan,
    ids: Seq<u32>,
    t: u64,
    id: u32,
    kind: HoldKind,
)
    requires
        e.wf(),
        history::distinct_versions(db.cards),
        rising(ids),
        finishes_take_free_keys(e, db, p, ids, t),
        forall|x: u32|
            plan::listed(p.holds, x) is Some ==> #[trigger] history::prior_at(db.cards, x, t)
                is Some,
    ensures
        ({
            let out = completion::all_finished(e, db, p, ids, t);
            &&& history::distinct_versions(out.cards)
            &&& history::prior_at(db.cards, id, t) is Some ==> history::prior_at(out.cards, id, t)
                is Some
            &&& laws::count_at(e, out, id, kind, t) == if ids.contains(id) && holds_on(
                p.holds,
                id,
                kind,
            ) {
                laws::stepped(
                    laws::count_at(e, db, id, kind, t),
                    e.bk.spec_count_field(kind).max,
                    false,
                )
            } else {
                laws::count_at(e, db, id, kind, t)
            }
        }),
    decreases ids.len(),
{
    if ids.len() > 0 {
        let init = ids.drop_last();
        let last = ids.last();
        lemma_rising_end(ids, id);
        lemma_finishes_count(e, db, p, init, t, id, kind);
        lemma_finishes_count(e, db, p, init, t, last, kind);
        let before = completion::all_finished(e, db, p, init, t);
        if plan::listed(p.holds, last) is Some {
            assert(history::prior_at(db.cards, last, t) is Some);
        }
        lemma_finish_counts(e, before, p, last, t, id, kind);
        assert(completion::all_finished(e, db, p, ids, t) == completion::finished(
            e,
            before,
            p,
            last,
            t,
        ));
    }
}

proof fn lemma_rising_end(ids: Seq<u32>, id: u32)
    requires
        rising(ids),
        ids.len() > 0,
    ensures
        rising(ids.drop_last()),
        ids.contains(id) <==> ids.drop_last().contains(id) || id == ids.last(),
        !ids.drop_last().contains(ids.last()),
{
    let init = ids.drop_last();
    assert forall|i: int, j: int| 0 <= i < j < init.len() implies #[trigger] init[i]
        < #[trigger] init[j] by {
        assert(ids[i] < ids[j]);
    }
    assert(ids[ids.len() - 1] == ids.last());
    if init.contains(id) {
        let k = choose|k: int| 0 <= k < init.len() && init[k] == id;
        assert(ids[k] == id);
    }
    if ids.contains(id) && id != ids.last() {
        let k = choose|k: int| 0 <= k < ids.len() && ids[k] == id;
        assert(init[k] == id);
    }
    if init.contains(ids.last()) {
        let k = choose|k: int| 0 <= k < init.len() && init[k] == ids.last();
        assert(ids[k] < ids[ids.len() - 1]);
    }
}

// ---- the law -------------------------------------------------------
/// Every card that the holds list is a participant, and none is the empty slot.
proof fn lemma_listed_cards_take_part(r: Recipe, bindings: Seq<Vec<u32>>, root: u32, id: u32)
    ensures
        plan::ascending(plan::holds_of(r, bindings, root)),
        plan::listed(plan::holds_of(r, bindings, root), id) is Some ==> id != 0
            && completion::participants(bindings, root).contains(id),
{
    plan::holds_are_the_union(r, bindings, root, id);
    if id != 0 {
        participants_are_root_and_bound(bindings, root, id);
        let n = r.iterators@.len() as int;
        if plan::bound_by(r.iterators@, bindings, n, id, plan::any_iterator()) {
            let i = choose|i: int|
                0 <= i < n && i < bindings.len() && #[trigger] bindings[i]@.contains(id)
                    && plan::any_iterator()(r.iterators@[i]);
            assert(bindings[i]@.contains(id));
        }
    }
}

proof fn lemma_listed_is_in_the_list(holds: Seq<(u32, HoldKinds)>, id: u32)
    requires
        plan::listed(holds, id) is Some,
    ensures
        exists|i: int| 0 <= i < holds.len() && (#[trigger] holds[i]).0 == id,
    decreases holds.len(),
{
    if holds.last().0 == id {
        assert(holds[holds.len() - 1].0 == id);
    } else {
        lemma_listed_is_in_the_list(holds.drop_last(), id);
        let i = choose|i: int|
            0 <= i < holds.drop_last().len() && (#[trigger] holds.drop_last()[i]).0 == id;
        assert(holds[i].0 == id);
    }
}

/// An action gives back what it took: at its completion every hold count of every
/// card is what it would be without the action, and the action is no longer in
/// flight. The cards that it holds are there when it starts, none of the counts that
/// it raises is at its maximum, and no row that it writes takes a key in use. Where a
/// card has no row of its own after the start, its counts at the completion are those
/// at the start.
pub proof fn actions_give_back_what_they_took(
    e: Env,
    db: Db,
    r: Recipe,
    p: Plan,
    bindings: Seq<Vec<u32>>,
    root: u32,
    start_ms: u64,
    dedup_key: u64,
    id: u32,
    kind: HoldKind,
)
    requires
        e.wf(),
        history::distinct_versions(db.cards),
        p.holds == plan::holds_of(r, bindings, root),
        start_ms + plan::length_ms(p) <= u64::MAX,
        forall|i: int|
            0 <= i < p.holds.len() ==> history::prior_at(
                db.cards,
                (#[trigger] p.holds[i]).0,
                start_ms,
            ) is Some,
        action_takes_free_keys(e, db, p, bindings, root, start_ms),
        completion::committed(
            e,
            propose::locked(e, db, p.holds, start_ms),
            p,
            bindings,
            root,
            start_ms,
            dedup_key,
        ).1 is Ok,
        holds_on(p.holds, id, kind) ==> laws::count_at(
            e,
            db,
            id,
            kind,
            (start_ms + plan::length_ms(p)) as u64,
        ) < e.bk.spec_count_field(kind).max,
    ensures
        ({
            let when = (start_ms + plan::length_ms(p)) as u64;
            let out = completion::committed(
                e,
                propose::locked(e, db, p.holds, start_ms),
                p,
                bindings,
                root,
                start_ms,
                dedup_key,
            ).0;
            &&& laws::count_at(e, out, id, kind, when) == laws::count_at(e, db, id, kind, when)
            &&& history::prior_at(db.cards, id, when) == history::prior_at(db.cards, id, start_ms)
                ==> laws::count_at(e, out, id, kind, when) == laws::count_at(
                e,
                db,
                id,
                kind,
                start_ms,
            )
            &&& !pending_actions::in_flight(out.pending_actions, dedup_key)
        }),
{
    let when = (start_ms + plan::length_ms(p)) as u64;
    let a = propose::locked(e, db, p.holds, start_ms);
    let b = completion::effects_done(e, a, p.pending, when).0;
    let ids = completion::participants(bindings, root);
    let c = completion::all_finished(e, b, p, ids, when);
    lemma_listed_cards_take_part(r, bindings, root, id);
    lemma_holds_are_there(db, r, p, bindings, root, start_ms);
    lemma_locks_count(e, db, p.holds, start_ms, id, kind, when);
    lemma_effects_keep_counts(e, a, p.pending, when, kind);
    assert(laws::count_at(e, b, id, kind, when) == laws::count_at(e, a, id, kind, when));
    assert forall|x: u32| plan::listed(p.holds, x) is Some implies #[trigger] history::prior_at(
        b.cards,
        x,
        when,
    ) is Some by {
        lemma_listed_is_in_the_list(p.holds, x);
        let i = choose|i: int| 0 <= i < p.holds.len() && (#[trigger] p.holds[i]).0 == x;
        let row = history::prior_at(db.cards, x, start_ms)->0;
        history::prior_at_is_greatest(db.cards, x, start_ms);
        history::prior_at_is_greatest(db.cards, x, when);
        assert(history::covers(row, x, when));
        lemma_locks_count(e, db, p.holds, start_ms, x, kind, when);
        assert(history::prior_at(a.cards, x, when) is Some);
    }
    participants_are_root_and_bound(bindings, root, 1);
    lemma_finishes_count(e, b, p, ids, when, id, kind);
    let left = pending_actions::released(c.pending_actions, dedup_key);
    history::filter_members(c.pending_actions, pending_actions::other_key(dedup_key));
    assert forall|i: int| 0 <= i < left.len() implies (#[trigger] left[i]).dedup_key
        != dedup_key by {
        assert(pending_actions::other_key(dedup_key)(left[i]));
    }
}

/// Every entry of a list is listed.
proof fn lemma_in_the_list_is_listed(holds: Seq<(u32, HoldKinds)>, i: int)
    requires
        0 <= i < holds.len(),
    ensures
        plan::listed(holds, holds[i].0) is Some,
    decreases holds.len(),
{
    if holds.last().0 != holds[i].0 {
        assert(holds.drop_last()[i] == holds[i]);
        lemma_in_the_list_is_listed(holds.drop_last(), i);
    }
}

// ---- before the completion -----------------------------------------
/// From `a` to `b` nothing in force at `at` changed.
pub open spec fn reads_kept(a: Db, b: Db, at: u64) -> bool {
    forall|id: u32|
        #[trigger] history::prior_at(b.cards, id, at) == history::prior_at(a.cards, id, at)
}

proof fn lemma_reads_kept_in_turn(a: Db, b: Db, c: Db, at: u64)
    requires
        reads_kept(a, b, at),
        reads_kept(b, c, at),
    ensures
        reads_kept(a, c, at),
{
    assert forall|id: u32|
        #[trigger] history::prior_at(c.cards, id, at) == history::prior_at(a.cards, id, at) by {
        assert(history::prior_at(b.cards, id, at) == history::prior_at(a.cards, id, at));
    }
}

proof fn lemma_write_reaches_no_earlier(e: Env, db: Db, card: Card, t: u64, at: u64)
    requires
        t < packed::TIME_RADIX,
        at < t,
    ensures
        reads_kept(db, cards::after_write(e, db, card, t), at),
{
    assert forall|id: u32|
        #[trigger] history::prior_at(cards::after_write(e, db, card, t).cards, id, at)
            == history::prior_at(db.cards, id, at) by {
        laws::writes_do_not_reach_back(e, db, card, t, cards::cascade_depth(db), id, at);
    }
}

proof fn lemma_edit_reaches_no_earlier(
    e: Env,
    db: Db,
    id: u32,
    t: u64,
    f: spec_fn(Card) -> Card,
    at: u64,
)
    requires
        t < packed::TIME_RADIX,
        at < t,
    ensures
        reads_kept(db, cards::edited(e, db, id, t, f), at),
{
    if let Some(c) = history::prior_at(db.cards, id, t) {
        lemma_write_reaches_no_earlier(e, db, f(c), t, at);
    }
}

proof fn lemma_hold_reaches_no_earlier(
    e: Env,
    db: Db,
    id0: u32,
    t: u64,
    on: bool,
    kind: HoldKind,
    at: u64,
)
    requires
        t < packed::TIME_RADIX,
        at < t,
    ensures
        ({
            let out = if on {
                cards::held(e, db, id0, t, kind, false)
            } else {
                db
            };
            reads_kept(db, out, at)
        }),
{
    if on {
        let out = cards::held(e, db, id0, t, kind, false);
        assert forall|id: u32|
            #[trigger] history::prior_at(out.cards, id, at) == history::prior_at(
                db.cards,
                id,
                at,
            ) by {
            laws::holds_do_not_reach_back(e, db, id0, t, kind, false, id, at);
        }
    }
}

proof fn lemma_giving_reaches_no_earlier(
    e: Env,
    db: Db,
    id0: u32,
    k: HoldKinds,
    t: u64,
    at: u64,
)
    requires
        t < packed::TIME_RADIX,
        at < t,
    ensures
        reads_kept(db, completion::holds_released(e, db, id0, k, t), at),
{
    let a = cards::held(e, db, id0, t, HoldKind::Touch, false);
    let b = if k.slot_hold {
        cards::held(e, a, id0, t, HoldKind::SlotHold, false)
    } else {
        a
    };
    let c = if k.position_hold {
        cards::held(e, b, id0, t, HoldKind::PositionHold, false)
    } else {
        b
    };
    lemma_hold_reaches_no_earlier(e, db, id0, t, true, HoldKind::Touch, at);
    lemma_hold_reaches_no_earlier(e, a, id0, t, k.slot_hold, HoldKind::SlotHold, at);
    lemma_hold_reaches_no_earlier(e, b, id0, t, k.position_hold, HoldKind::PositionHold, at);
    lemma_hold_reaches_no_earlier(e, c, id0, t, k.slot_share, HoldKind::SlotShare, at);
    lemma_reads_kept_in_turn(db, a, b, at);
    lemma_reads_kept_in_turn(db, b, c, at);
    lemma_reads_kept_in_turn(db, c, completion::holds_released(e, db, id0, k, t), at);
}

proof fn lemma_effect_reaches_no_earlier(e: Env, db: Db, x: Effect, t: u64, at: u64)
    requires
        t < packed::TIME_RADIX,
        at < t,
        completion::effect_done(e, db, x, t).1 is Ok,
    ensures
        reads_kept(db, completion::effect_done(e, db, x, t).0, at),
{
    reveal(completion::effect_done);
    let mid = card_created(e, db, x, t);
    if let Some(c) = created_card(e, db, x, t) {
        let taken = cards::id_taken(db);
        lemma_write_reaches_no_earlier(e, taken, c, t, at);
        assert(reads_kept(db, taken, at));
        lemma_reads_kept_in_turn(db, taken, mid, at);
    }
    if x is ModifyTileStock {
        let s = restocking(e, db, x, t)->0;
        lemma_edit_reaches_no_earlier(e, mid, s.0, t, s.1, at);
        lemma_reads_kept_in_turn(db, mid, cards::edited(e, mid, s.0, t, s.1), at);
    }
}

proof fn lemma_effects_reach_no_earlier(e: Env, db: Db, xs: Seq<Effect>, t: u64, at: u64)
    requires
        t < packed::TIME_RADIX,
        at < t,
        completion::effects_done(e, db, xs, t).1 is Ok,
    ensures
        reads_kept(db, completion::effects_done(e, db, xs, t).0, at),
    decreases xs.len(),
{
    if xs.len() > 0 {
        let before = completion::effects_done(e, db, xs.drop_last(), t);
        lemma_effects_reach_no_earlier(e, db, xs.drop_last(), t, at);
        lemma_effect_reaches_no_earlier(e, before.0, xs.last(), t, at);
        lemma_reads_kept_in_turn(
            db,
            before.0,
            completion::effects_done(e, db, xs, t).0,
            at,
        );
    }
}

proof fn lemma_finishes_reach_no_earlier(
    e: Env,
    db: Db,
    p: Plan,
    ids: Seq<u32>,
    t: u64,
    at: u64,
)
    requires
        t < packed::TIME_RADIX,
        at < t,
    ensures
        reads_kept(db, completion::all_finished(e, db, p, ids, t), at),
    decreases ids.len(),
{
    if ids.len() > 0 {
        let id = ids.last();
        lemma_finishes_reach_no_earlier(e, db, p, ids.drop_last(), t, at);
        let before = completion::all_finished(e, db, p, ids.drop_last(), t);
        let f = completing(e, p, id);
        let d = cards::edited(e, before, id, t, f);
        let out = completion::finished(e, before, p, id, t);
        lemma_edit_reaches_no_earlier(e, before, id, t, f, at);
        if let Some(k) = plan::listed(p.holds, id) {
            lemma_giving_reaches_no_earlier(e, d, id, k, t, at);
            lemma_reads_kept_in_turn(before, d, out, at);
        }
        lemma_reads_kept_in_turn(db, before, out, at);
    }
}

/// Completing an action changes nothing that is in force before the completion.
pub proof fn completion_does_not_reach_back(
    e: Env,
    db: Db,
    p: Plan,
    bindings: Seq<Vec<u32>>,
    root: u32,
    start_ms: u64,
    dedup_key: u64,
    id: u32,
    at: u64,
)
    requires
        at < start_ms + plan::length_ms(p) < packed::TIME_RADIX,
        completion::committed(e, db, p, bindings, root, start_ms, dedup_key).1 is Ok,
    ensures
        history::prior_at(
            completion::committed(e, db, p, bindings, root, start_ms, dedup_key).0.cards,
            id,
            at,
        ) == history::prior_at(db.cards, id, at),
{
    let when = (start_ms + plan::length_ms(p)) as u64;
    let b = completion::effects_done(e, db, p.pending, when).0;
    let ids = completion::participants(bindings, root);
    lemma_effects_reach_no_earlier(e, db, p.pending, when, at);
    lemma_finishes_reach_no_earlier(e, b, p, ids, when, at);
    lemma_reads_kept_in_turn(db, b, completion::all_finished(e, b, p, ids, when), at);
    assert(history::prior_at(completion::all_finished(e, b, p, ids, when).cards, id, at)
        == history::prior_at(db.cards, id, at));
}

/// While an action runs, from its start until its completion, every card that it
/// holds counts one reference more of each hold that it takes, and no other count
/// changes.
pub proof fn holds_last_while_an_action_runs(
    e: Env,
    db: Db,
    r: Recipe,
    p: Plan,
    bindings: Seq<Vec<u32>>,
    root: u32,
    start_ms: u64,
    dedup_key: u64,
    id: u32,
    kind: HoldKind,
    at: u64,
)
    requires
        e.wf(),
        history::distinct_versions(db.cards),
        p.holds == plan::holds_of(r, bindings, root),
        start_ms <= at < start_ms + plan::length_ms(p) < packed::TIME_RADIX,
        forall|i: int|
            0 <= i < p.holds.len() ==> history::prior_at(
                db.cards,
                (#[trigger] p.holds[i]).0,
                start_ms,
            ) is Some,
        locks_take_free_keys(e, db, p.holds, start_ms),
        completion::committed(
            e,
            propose::locked(e, db, p.holds, start_ms),
            p,
            bindings,
            root,
            start_ms,
            dedup_key,
        ).1 is Ok,
    ensures
        ({
            let out = completion::committed(
                e,
                propose::locked(e, db, p.holds, start_ms),
                p,
                bindings,
                root,
                start_ms,
                dedup_key,
            ).0;
            laws::count_at(e, out, id, kind, at) == if holds_on(p.holds, id, kind) {
                laws::stepped(
                    laws::count_at(e, db, id, kind, at),
                    e.bk.spec_count_field(kind).max,
                    true,
                )
            } else {
                laws::count_at(e, db, id, kind, at)
            }
        }),
{
    let a = propose::locked(e, db, p.holds, start_ms);
    lemma_holds_are_there(db, r, p, bindings, root, start_ms);
    lemma_listed_cards_take_part(r, bindings, root, id);
    lemma_locks_count(e, db, p.holds, start_ms, id, kind, at);
    completion_does_not_reach_back(e, a, p, bindings, root, start_ms, dedup_key, id, at);
}

proof fn lemma_holds_are_there(
    db: Db,
    r: Recipe,
    p: Plan,
    bindings: Seq<Vec<u32>>,
    root: u32,
    t: u64,
)
    requires
        p.holds == plan::holds_of(r, bindings, root),
        forall|i: int|
            0 <= i < p.holds.len() ==> history::prior_at(db.cards, (#[trigger] p.holds[i]).0, t)
                is Some,
    ensures
        all_there(db, p.holds, t),
{
    assert forall|i: int| 0 <= i < p.holds.len() implies (#[trigger] p.holds[i]).0 != 0
        && history::prior_at(db.cards, p.holds[i].0, t) is Some by {
        lemma_in_the_list_is_listed(p.holds, i);
        lemma_listed_cards_take_part(r, bindings, root, p.holds[i].0);
    }
}

} // verus!
