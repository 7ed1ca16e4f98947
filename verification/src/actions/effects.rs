//! What the effects of an action come to: the rows that a reader finds at its
//! completion.
use vstd::prelude::*;

use crate::actions::completion;
use crate::actions::on_create;
use crate::actions::plan;
use crate::actions::plan::Plan;
use crate::actions::propose;
use crate::actions::recipe_eval;
use crate::actions::tape::Effect;
use crate::actions::tile_cards;
use crate::cards::cards;
use crate::cards::cards::Card;
use crate::cards::env;
use crate::cards::env::Env;
use crate::cards::env::HoldKind;
use crate::cards::gate_api;
use crate::cards::keys;
use crate::cards::laws;
use crate::cards::micro;
use crate::cards::micro::Micro;
use crate::cards::outcomes;
use crate::cards::utilities;
use crate::content;
use crate::history;
use crate::packed;
use crate::players::outcomes as players_outcomes;
use crate::players::players;
use crate::players::players::ConnectionId;
use crate::players::players::Player;
use crate::players::souls;
use crate::regions::zones;
use crate::tables::Db;

verus! {

// ---- effects -------------------------------------------------------
/// A card that an action creates is found at the completion in the inventory of the
/// card named as its owner, of the definition that the key names.
pub proof fn created_cards_lie_in_the_inventory(
    e: Env,
    db: Db,
    def_key: String,
    owner_id: u32,
    t: u64,
    def: u16,
)
    requires
        e.wf(),
        t < packed::TIME_RADIX,
        e.loose_kinds@[1] <= e.bk.stack_state_max,
        history::distinct_versions(db.cards),
        content::packed_by_key(e.catalog.definitions@, def_key@) == Some(def),
        players_outcomes::spawn_takes_free_keys(
            e,
            db,
            t,
            packed::macro_zone_key(owner_id, 1, 0, 0),
            1,
            owner_id,
            def,
            0,
        ),
    ensures
        ({
            let out = completion::effect_done(e, db, Effect::Create { def_key, owner_id }, t);
            &&& out.1 is Ok
            &&& history::prior_at(out.0.cards, cards::next_id(db), t) matches Some(c) && c.owner_id
                == owner_id && c.packed_definition == def && players_outcomes::zone_is(
                c.macro_zone,
                owner_id,
                1,
                0,
                0,
            ) && players_outcomes::on_cell(e, c, 0, 0)
        }),
{
    reveal(completion::effect_done);
    players_outcomes::lemma_zone_is(owner_id, 1, 0, 0);
    players_outcomes::lemma_spawned(
        e,
        db,
        t,
        packed::macro_zone_key(owner_id, 1, 0, 0),
        1,
        owner_id,
        def,
        0,
    );
}

/// A card that an action creates on a host's stack is found at the completion as a
/// member of the host, to be placed later, in the host's zone and with the host's owner.
pub proof fn cards_created_on_a_host_wait_there(
    e: Env,
    db: Db,
    def_key: String,
    host: u32,
    t: u64,
    def: u16,
    h: Card,
)
    requires
        e.wf(),
        t < packed::TIME_RADIX,
        history::distinct_versions(db.cards),
        packed::STACK_STATE_DEFERRED <= e.bk.stack_state_max,
        content::packed_by_key(e.catalog.definitions@, def_key@) == Some(def),
        history::prior_at(db.cards, host, e.now_ms) == Some(h),
        history::prior_at(db.cards, cards::next_id(db), t) is None,
        cards::definition_flags(e, def) & e.state.dead == 0,
    ensures
        ({
            let out = completion::effect_done(
                e,
                db,
                Effect::CreateDeferred { def_key, host_card_id: host },
                t,
            );
            &&& out.1 is Ok
            &&& history::prior_at(out.0.cards, cards::next_id(db), t) matches Some(c) && c.owner_id
                == h.owner_id && c.packed_definition == def && c.macro_zone == h.macro_zone
                && cards::placement(e, c) == (Micro::Stacked {
                root: host,
                branch: packed::STACK_STATE_DEFERRED,
                index: 0,
            })
        }),
{
    reveal(completion::effect_done);
    let m = Micro::Stacked { root: host, branch: packed::STACK_STATE_DEFERRED, index: 0 };
    let id = cards::next_id(db);
    let taken = cards::id_taken(db);
    let card = cards::fresh_card(e, id, h.macro_zone, m, h.owner_id, def, 0, 0);
    outcomes::lemma_nothing_shared(micro::stack_mask(e.bk));
    outcomes::lemma_nothing_shared(e.bk.position_dirty | e.bk.data_dirty);
    utilities::lemma_no_flags(cards::definition_flags(e, def));
    outcomes::created_cards_are_as_given(e, id, h.macro_zone, m, h.owner_id, def, 0, 0, 0);
    outcomes::rows_are_stored_as_given(e, taken, card, t, 0);
    laws::write_reads_back(e, taken, card, t);
    assert(history::prior_at(taken.cards, id, t) is None);
    assert(cards::after_write(e, taken, card, t) == cards::row_written(e, taken, card, t));
}

/// A blueprint that an action unlocks is discovered by the soul named: the bit of the
/// blueprint that has the key, and no other.
pub proof fn unlocked_blueprints_are_discovered(
    e: Env,
    db: Db,
    blueprint_key: String,
    soul: u32,
    t: u64,
    blueprint: u16,
    other: u16,
)
    requires
        content::blueprint_by_key(e.catalog.blueprints@, blueprint_key@) == Some(blueprint),
        1 <= blueprint <= 64,
        1 <= other <= 64,
        souls::private_index(db.soul_privates, soul) is Some,
    ensures
        ({
            let out = completion::effect_done(
                e,
                db,
                Effect::UnlockBlueprint { blueprint_key, target_card_id: soul },
                t,
            );
            let k = souls::private_index(db.soul_privates, soul)->0;
            &&& out.1 is Ok
            &&& db.soul_privates[k].card_id == soul
            &&& out.0.soul_privates[k].card_id == soul
            &&& out.0.soul_privates[k].blueprints_0 & (1u64 << ((other - 1) as u64)) != 0 <==> other
                == blueprint || db.soul_privates[k].blueprints_0 & (1u64 << ((other - 1) as u64))
                != 0
        }),
{
    reveal(completion::effect_done);
    souls::private_index_found(db.soul_privates, soul);
    outcomes::unlocks_set_one_bit(
        db,
        soul,
        blueprint,
        other,
        souls::private_index(db.soul_privates, soul)->0,
    );
}

/// A faction that an action sets is the player's from the completion on.
pub proof fn set_factions_are_the_players(
    e: Env,
    db: Db,
    player_id: u32,
    faction: u8,
    t: u64,
    p: Player,
)
    requires
        t < packed::TIME_RADIX,
        faction < 4,
        history::distinct_versions(db.players),
        history::key_free(db.players, packed::valid_at_key(t, db.next_sequence)),
        history::prior_at(db.players, player_id, t) == Some(p),
    ensures
        ({
            let out = completion::effect_done(
                e,
                db,
                Effect::SetPlayerFaction { player_id, faction },
                t,
            );
            &&& out.1 is Ok
            &&& history::prior_at(out.0.players, player_id, t) matches Some(n) && n.flags % 4
                == faction && n.flags / 4 == p.flags / 4 && n.name == p.name
        }),
{
    reveal(completion::effect_done);
    players_outcomes::factions_are_set(db, player_id, t, faction, p, player_id, t);
}

// ---- participants --------------------------------------------------
proof fn lemma_last_touch(
    word: u32,
    kill: u32,
    dead: u32,
    need: u32,
    want: u32,
    style: u32,
    bits: u32,
    out: u32,
)
    by (bit_vector)
    requires
        out == (((word | kill) & !need & !want) & !style) | (bits & style),
        kill == 0 || kill == dead,
        dead & (need | want) == 0,
        dead & style == 0,
        (need | want) & style == 0,
    ensures
        kill == 0 ==> out & dead == word & dead,
        kill == dead ==> out & dead == dead,
        out & (need | want) == 0,
        out & style == bits & style,
        word | 0u32 == word,
{
}

/// A participant is left, at the completion, dead where an effect destroys it and
/// otherwise as alive as it was, with no position asserted, in the style that the
/// action gives it, and in its place.
pub proof fn participants_are_left_as_the_effects_say(e: Env, dies: bool, style: u8, c: Card)
    requires
        e.state.dead & (e.state.pos_need | e.state.pos_want) == 0,
        e.state.dead & e.state.progress_style_mask == 0,
        (e.state.pos_need | e.state.pos_want) & e.state.progress_style_mask == 0,
    ensures
        ({
            let n = completion::completed(e, dies, style)(c);
            let mask = e.state.progress_style_mask;
            let pos = e.state.pos_need | e.state.pos_want;
            &&& dies ==> n.flags_state & e.state.dead == e.state.dead
            &&& !dies ==> n.flags_state & e.state.dead == c.flags_state & e.state.dead
            &&& n.flags_state & pos == 0
            &&& n.flags_state & mask == ((style as u32) << e.state.progress_style_shift) & mask
            &&& outcomes::same_card(n, c)
            &&& n.macro_zone == c.macro_zone
            &&& n.micro_location == c.micro_location
            &&& n.flags_bk == c.flags_bk
        }),
{
    let kill = if dies {
        e.state.dead
    } else {
        0
    };
    lemma_last_touch(
        c.flags_state,
        kill,
        e.state.dead,
        e.state.pos_need,
        e.state.pos_want,
        e.state.progress_style_mask,
        (style as u32) << e.state.progress_style_shift,
        (((c.flags_state | kill) & !e.state.pos_need & !e.state.pos_want)
            & !e.state.progress_style_mask) | (((style as u32) << e.state.progress_style_shift)
            & e.state.progress_style_mask),
    );
}

// ---- stitching -----------------------------------------------------
/// The root of a proposal is found loose on the proposed cell, on the surface and in
/// the zone that were proposed, with its position asserted.
pub proof fn roots_land_on_the_proposed_cell(
    e: Env,
    db: Db,
    root: u32,
    surface: u8,
    macro_zone: u64,
    micro_location: u32,
    t: u64,
    c: Card,
)
    requires
        e.wf(),
        t < packed::TIME_RADIX,
        e.loose_kinds@[surface as int] <= e.bk.stack_state_max,
        history::distinct_versions(db.cards),
        history::prior_at(db.cards, root, t) == Some(c),
        keys::edit_takes_free_keys(
            e,
            db,
            root,
            t,
            propose::put_at(
                e,
                packed::on_surface(macro_zone, surface),
                gate_api::loose_at(e, surface, micro_location),
            ),
        ),
    ensures
        ({
            let d = cards::edited(
                e,
                db,
                root,
                t,
                propose::put_at(
                    e,
                    packed::on_surface(macro_zone, surface),
                    gate_api::loose_at(e, surface, micro_location),
                ),
            );
            history::prior_at(d.cards, root, t) matches Some(n) && outcomes::same_card(n, c)
                && outcomes::lies_on(n.macro_zone, macro_zone, surface) && (cards::placement(
                e,
                n,
            ) matches Micro::Loose { local_q, local_r, .. } && (local_q as int, local_r as int)
                == outcomes::cell_of(micro_location)) && n.flags_state & e.state.pos_need
                == e.state.pos_need
        }),
{
    let m = gate_api::loose_at(e, surface, micro_location);
    let location = packed::on_surface(macro_zone, surface);
    outcomes::lemma_lies_on(macro_zone, surface);
    history::prior_at_is_greatest(db.cards, root, t);
    outcomes::lemma_repositioned(e, location, m, c, HoldKind::Touch);
    let n = gate_api::repositioned(e, location, m, c);
    outcomes::lemma_nothing_shared(e.bk.position_dirty | e.bk.data_dirty);
    outcomes::rows_are_stored_as_given(e, db, n, t, 0);
    assert(cards::placement(e, cards::stamped(e, db, n, t)) == m);
    outcomes::writes_are_found(e, db, n, t);
}

/// The last card of a binding row becomes a member of the root's stack, in the row's
/// branch, at the index of its place in the row, which stops at 15. It lies where the
/// root lies, with its position asserted.
pub proof fn bound_cards_become_members_of_the_root(
    e: Env,
    db: Db,
    root: u32,
    branch: u8,
    row: Seq<u32>,
    location: u64,
    t: u64,
    c: Card,
)
    requires
        e.wf(),
        t < packed::TIME_RADIX,
        branch <= e.bk.stack_state_max,
        branch != packed::STACK_STATE_DEFERRED,
        15 <= e.bk.stack_index_max,
        0 < row.len() <= 256,
        row.last() != 0,
        row.last() != root,
        ({
            let before = propose::row_stitched(
                e,
                db,
                root,
                branch,
                row,
                location,
                t,
                row.len() - 1,
            );
            &&& history::distinct_versions(before.cards)
            &&& history::prior_at(before.cards, row.last(), t) == Some(c)
            &&& keys::write_takes_free_keys(
                e,
                before,
                gate_api::repositioned(
                    e,
                    location,
                    propose::member_at(root, branch, row.len() - 1),
                    c,
                ),
                t,
                cards::cascade_depth(before),
            )
        }),
    ensures
        ({
            let d = propose::row_stitched(
                e,
                db,
                root,
                branch,
                row,
                location,
                t,
                row.len() as int,
            );
            let offset = row.len() - 1;
            history::prior_at(d.cards, row.last(), t) matches Some(n) && outcomes::same_card(n, c)
                && n.macro_zone == location && (cards::placement(e, n) matches Micro::Stacked {
                root: a,
                branch: b,
                index: i,
            } && a == root && b == branch && i == if offset < 15 {
                offset
            } else {
                15
            }) && n.flags_state & e.state.pos_need == e.state.pos_need
        }),
{
    let before = propose::row_stitched(e, db, root, branch, row, location, t, row.len() - 1);
    let m = propose::member_at(root, branch, row.len() - 1);
    history::prior_at_is_greatest(before.cards, row.last(), t);
    outcomes::lemma_repositioned(e, location, m, c, HoldKind::Touch);
    let n = gate_api::repositioned(e, location, m, c);
    outcomes::lemma_nothing_shared(e.bk.position_dirty | e.bk.data_dirty);
    outcomes::rows_are_stored_as_given(e, before, n, t, 0);
    assert(cards::placement(e, cards::stamped(e, before, n, t)) == m);
    outcomes::writes_are_found(e, before, n, t);
}

/// The tile of a proposal is the one on the proposed cell, as a reader sees it, and the
/// cell is named by its column and row in the zone that lies there.
pub proof fn proposals_see_the_tile_on_their_cell(
    e: Env,
    db: Db,
    surface: u8,
    macro_zone: u64,
    micro_location: u32,
    t: u64,
)
    ensures
        propose::synthetic(e, db, surface, macro_zone, micro_location, t) matches Some((tile, h))
            ==> {
            let q = (micro_location / 0x2000_0000) as u8;
            let r = (micro_location / 0x400_0000 % 8) as u8;
            let location = packed::on_surface(macro_zone, surface);
            &&& surface >= 32
            &&& outcomes::lies_on(location, macro_zone, surface)
            &&& h.col == q
            &&& h.row == r
            &&& h.macro_zone == macro_zone
            &&& tile_cards::tile_view(e, db, location, q, r, t) == Some(
                (tile.0, tile.1.0, tile.1.1),
            )
            &&& zones::latest_on(db.zones, location) matches Some(z) && z.zone_id
                == h.zone_id && z.owner_id == h.owner_id
        },
{
    outcomes::lemma_lies_on(macro_zone, surface);
}

// ---- completion ----------------------------------------------------
/// Rewriting later versions keeps the versions distinct.
proof fn lemma_later_edits_keep_distinct(rows: Seq<Card>, id: u32, t: u64, f: spec_fn(Card) -> Card)
    requires
        history::distinct_versions(rows),
        forall|r: Card| (#[trigger] f(r)).card_id == r.card_id && f(r).valid_at == r.valid_at,
    ensures
        history::distinct_versions(history::on_future(rows, id, t, f)),
{
    let out = history::on_future(rows, id, t, f);
    assert forall|i: int, j: int|
        #![trigger out[i], out[j]]
        0 <= i < j < out.len() implies out[i].valid_at != out[j].valid_at && !(out[i].card_id
        == out[j].card_id && history::time(out[i]) == history::time(out[j])) by {
        assert(rows[i].valid_at != rows[j].valid_at);
    }
}

/// Taking or giving back a reference changes no state, owner or place of the card.
proof fn lemma_holds_leave_the_rest(
    e: Env,
    db: Db,
    id: u32,
    t: u64,
    kind: HoldKind,
    up: bool,
    c: Card,
)
    requires
        e.wf(),
        t < packed::TIME_RADIX,
        history::distinct_versions(db.cards),
        history::prior_at(db.cards, id, t) == Some(c),
    ensures
        ({
            let d = cards::held(e, db, id, t, kind, up);
            &&& history::distinct_versions(d.cards)
            &&& history::prior_at(d.cards, id, t) matches Some(n) && n.flags_state == c.flags_state
                && outcomes::same_card(n, c) && n.macro_zone == c.macro_zone && n.micro_location
                == c.micro_location
        }),
{
    let n = cards::hold_step(e, kind, up, c);
    history::prior_at_is_greatest(db.cards, id, t);
    let d = cards::edited(e, db, id, t, cards::hold_stepper(e, kind, up));
    assert(d == cards::after_write(e, db, n, t));
    assert(d == cards::row_written(e, db, n, t));
    laws::write_reads_back(e, db, n, t);
    laws::writes_keep_versions_distinct(e, db, n, t, 0);
    lemma_later_edits_keep_distinct(d.cards, id, t, cards::hold_stepper(e, kind, up));
    history::later_edits_are_unseen(d.cards, id, t, cards::hold_stepper(e, kind, up), id, t);
}

proof fn lemma_releases_leave_the_rest(e: Env, db: Db, id: u32, k: plan::HoldKinds, t: u64, c: Card)
    requires
        e.wf(),
        t < packed::TIME_RADIX,
        history::distinct_versions(db.cards),
        history::prior_at(db.cards, id, t) == Some(c),
    ensures
        history::prior_at(completion::holds_released(e, db, id, k, t).cards, id, t) matches Some(n)
            && n.flags_state == c.flags_state && outcomes::same_card(n, c) && n.macro_zone
            == c.macro_zone && n.micro_location == c.micro_location,
{
    lemma_holds_leave_the_rest(e, db, id, t, HoldKind::Touch, false, c);
    let a = cards::held(e, db, id, t, HoldKind::Touch, false);
    let ca = history::prior_at(a.cards, id, t)->0;
    let b = if k.slot_hold {
        cards::held(e, a, id, t, HoldKind::SlotHold, false)
    } else {
        a
    };
    lemma_holds_leave_the_rest(e, a, id, t, HoldKind::SlotHold, false, ca);
    let cb = history::prior_at(b.cards, id, t)->0;
    let d = if k.position_hold {
        cards::held(e, b, id, t, HoldKind::PositionHold, false)
    } else {
        b
    };
    lemma_holds_leave_the_rest(e, b, id, t, HoldKind::PositionHold, false, cb);
    let cd = history::prior_at(d.cards, id, t)->0;
    lemma_holds_leave_the_rest(e, d, id, t, HoldKind::SlotShare, false, cd);
}

/// When an action completes, `1000` milliseconds after its start for each second that
/// it lasts, its last participant is found dead where an effect destroys it and as
/// alive as before where none does, with no position asserted, in the style that the
/// action gives it or else in none.
pub proof fn completed_participants_are_found(
    e: Env,
    db: Db,
    p: Plan,
    bindings: Seq<Vec<u32>>,
    root: u32,
    start_ms: u64,
    key: u64,
    t: u64,
    before: Db,
    id: u32,
    c: Card,
)
    requires
        e.wf(),
        t == start_ms + 1000 * p.duration,
        t < packed::TIME_RADIX,
        e.state.dead & (e.state.pos_need | e.state.pos_want) == 0,
        e.state.dead & e.state.progress_style_mask == 0,
        (e.state.pos_need | e.state.pos_want) & e.state.progress_style_mask == 0,
        completion::committed(e, db, p, bindings, root, start_ms, key).1 is Ok,
        completion::participants(bindings, root).len() > 0,
        id == completion::participants(bindings, root).last(),
        before == completion::all_finished(
            e,
            completion::effects_done(e, db, p.pending, t).0,
            p,
            completion::participants(bindings, root).drop_last(),
            t,
        ),
        history::distinct_versions(before.cards),
        history::prior_at(before.cards, id, t) == Some(c),
        !(cards::is_member(e, c) && cards::branch_of(e, c) == packed::STACK_STATE_DEFERRED),
        forall|dies: bool, style: u8|
            keys::write_takes_free_keys(
                e,
                before,
                (#[trigger] completion::completed(e, dies, style))(c),
                t,
                cards::cascade_depth(before),
            ),
    ensures
        ({
            let out = completion::committed(e, db, p, bindings, root, start_ms, key).0;
            let mask = e.state.progress_style_mask;
            let dies = exists|i: int|
                0 <= i < p.pending.len() && (#[trigger] p.pending[i]) == (Effect::Destroy {
                    card_id: id,
                });
            let style = if p.styles.contains_key(id) {
                p.styles[id]
            } else {
                0
            };
            history::prior_at(out.cards, id, t) matches Some(n) && (dies ==> n.flags_state
                & e.state.dead == e.state.dead) && (!dies ==> n.flags_state & e.state.dead
                == c.flags_state & e.state.dead) && n.flags_state & (e.state.pos_need
                | e.state.pos_want) == 0 && n.flags_state & mask == ((style as u32)
                << e.state.progress_style_shift) & mask && outcomes::same_card(n, c) && n.macro_zone
                == c.macro_zone && n.micro_location == c.micro_location
        }),
{
    lemma_consumed(p.pending, id);
    lemma_last_participant(e, db, p, bindings, root, start_ms, key);
    lemma_finished_is_found(e, before, p, id, t, c);
}

proof fn lemma_last_participant(
    e: Env,
    db: Db,
    p: Plan,
    bindings: Seq<Vec<u32>>,
    root: u32,
    start_ms: u64,
    key: u64,
)
    requires
        start_ms + 1000 * p.duration <= u64::MAX,
        completion::committed(e, db, p, bindings, root, start_ms, key).1 is Ok,
        completion::participants(bindings, root).len() > 0,
    ensures
        ({
            let t = (start_ms + 1000 * p.duration) as u64;
            let ids = completion::participants(bindings, root);
            let before = completion::all_finished(
                e,
                completion::effects_done(e, db, p.pending, t).0,
                p,
                ids.drop_last(),
                t,
            );
            completion::committed(e, db, p, bindings, root, start_ms, key).0.cards
                == completion::finished(e, before, p, ids.last(), t).cards
        }),
{
}

proof fn lemma_finished_is_found(e: Env, before: Db, p: Plan, id: u32, t: u64, c: Card)
    requires
        e.wf(),
        t < packed::TIME_RADIX,
        e.state.dead & (e.state.pos_need | e.state.pos_want) == 0,
        e.state.dead & e.state.progress_style_mask == 0,
        (e.state.pos_need | e.state.pos_want) & e.state.progress_style_mask == 0,
        history::distinct_versions(before.cards),
        history::prior_at(before.cards, id, t) == Some(c),
        !(cards::is_member(e, c) && cards::branch_of(e, c) == packed::STACK_STATE_DEFERRED),
        forall|dies: bool, style: u8|
            keys::write_takes_free_keys(
                e,
                before,
                (#[trigger] completion::completed(e, dies, style))(c),
                t,
                cards::cascade_depth(before),
            ),
    ensures
        ({
            let out = completion::finished(e, before, p, id, t);
            let mask = e.state.progress_style_mask;
            let dies = completion::consumed(p.pending, id);
            let style = if p.styles.contains_key(id) {
                p.styles[id]
            } else {
                0
            };
            history::prior_at(out.cards, id, t) matches Some(n) && (dies ==> n.flags_state
                & e.state.dead == e.state.dead) && (!dies ==> n.flags_state & e.state.dead
                == c.flags_state & e.state.dead) && n.flags_state & (e.state.pos_need
                | e.state.pos_want) == 0 && n.flags_state & mask == ((style as u32)
                << e.state.progress_style_shift) & mask && outcomes::same_card(n, c) && n.macro_zone
                == c.macro_zone && n.micro_location == c.micro_location
        }),
{
    let dies = completion::consumed(p.pending, id);
    let style = if p.styles.contains_key(id) {
        p.styles[id]
    } else {
        0
    };
    participants_are_left_as_the_effects_say(e, dies, style, c);
    let f = completion::completed(e, dies, style);
    history::prior_at_is_greatest(before.cards, id, t);
    let n = f(c);
    outcomes::lemma_nothing_shared(e.bk.position_dirty | e.bk.data_dirty);
    outcomes::rows_are_stored_as_given(e, before, n, t, 0);
    outcomes::lemma_stamp_keeps_membership(e, before, n, t);
    assert(cards::is_member(e, n) == cards::is_member(e, c));
    assert(cards::branch_of(e, n) == cards::branch_of(e, c));
    outcomes::writes_are_found(e, before, n, t);
    let d = cards::edited(e, before, id, t, f);
    let row = cards::stamped(e, before, n, t);
    assert(history::prior_at(d.cards, id, t) == Some(row));
    if let Some(k) = plan::listed(p.holds, id) {
        lemma_releases_leave_the_rest(e, d, id, k, t, row);
    }
}

proof fn lemma_consumed(xs: Seq<Effect>, id: u32)
    ensures
        completion::consumed(xs, id) <==> exists|i: int|
            0 <= i < xs.len() && (#[trigger] xs[i]) == (Effect::Destroy { card_id: id }),
{
    if completion::consumed(xs, id) {
        let i = choose|i: int|
            0 <= i < xs.len() && (#[trigger] xs[i] matches Effect::Destroy { card_id } && card_id
                == id);
        assert(xs[i] == (Effect::Destroy { card_id: id }));
    }
}

// ---- recipes that start on a creation ------------------------------
/// A card on whose creation a recipe starts is held from then on: its slot unless the
/// recipe gives it back, and its position where the recipe is bound to a hex. The
/// recipe that starts is one that fits best, and it ends after the seconds that it
/// lasts.
pub proof fn recipes_start_on_creation(
    e: Env,
    db: Db,
    card_id: u32,
    time_ms: u64,
    cs: Seq<on_create::Candidate>,
    is_hex: bool,
    c: Card,
    k: int,
    secs: u32,
)
    requires
        history::prior_at(db.cards, card_id, time_ms) == Some(c),
        content::definition(e.catalog.definitions@, c.packed_definition) is Some,
        on_create::best(cs, is_hex) == Some(k),
        cs[k].duration == Some(on_create::Duration::Fixed { secs }),
        history::time(c) + 1000 * secs <= u64::MAX,
    ensures
        ({
            let out = on_create::triggered(e, db, card_id, time_ms, cs, is_hex, true);
            out.1 matches Ok(Some(s)) && s.root == card_id && s.index == cs[k].index
                && s.completion_ms == history::time(c) + 1000 * secs && s.hex == if cs[k].hex is Some {
                card_id
            } else {
                0
            }
        }),
        on_create::triggered(e, db, card_id, time_ms, Seq::empty(), is_hex, true) == (
            db,
            Ok::<Option<on_create::Started>, on_create::TriggerError>(None),
        ),
{
}

/// The row of a card on which a recipe starts counts one more slot hold where the
/// recipe takes the slot, and one more position hold where it is bound to a hex; its
/// flags are those that the recipe sets and does not clear.
pub proof fn started_rows_are_held(e: Env, c: on_create::Candidate, card: Card, sw: u32, pw: u32)
    requires
        env::well_shaped(e.bk.spec_count_field(HoldKind::SlotHold), sw),
        env::well_shaped(e.bk.spec_count_field(HoldKind::PositionHold), pw),
        env::apart(
            e.bk.spec_count_field(HoldKind::SlotHold),
            e.bk.spec_count_field(HoldKind::PositionHold),
        ),
        env::apart(
            e.bk.spec_count_field(HoldKind::PositionHold),
            e.bk.spec_count_field(HoldKind::SlotHold),
        ),
        cards::hold_value(e, HoldKind::SlotHold, card.flags_bk) < e.bk.spec_count_field(
            HoldKind::SlotHold,
        ).max,
        cards::hold_value(e, HoldKind::PositionHold, card.flags_bk) < e.bk.spec_count_field(
            HoldKind::PositionHold,
        ).max,
        c.start_root.slot_hold is None,
        c.start_hex.slot_hold is None,
    ensures
        ({
            let n = on_create::started_row(e, c)(card);
            &&& cards::hold_value(e, HoldKind::SlotHold, n.flags_bk) == cards::hold_value(
                e,
                HoldKind::SlotHold,
                card.flags_bk,
            ) + 1
            &&& cards::hold_value(e, HoldKind::PositionHold, n.flags_bk) == cards::hold_value(
                e,
                HoldKind::PositionHold,
                card.flags_bk,
            ) + if c.hex is Some {
                1int
            } else {
                0int
            }
            &&& n.card_id == card.card_id && n.owner_id == card.owner_id && n.macro_zone
                == card.macro_zone
            &&& c.hex is None ==> n.flags_state == (card.flags_state | c.start_root.set)
                & !c.start_root.clear
        }),
{
    let fs = e.bk.spec_count_field(HoldKind::SlotHold);
    let fp = e.bk.spec_count_field(HoldKind::PositionHold);
    let vs = env::field_value(card.flags_bk, fs);
    let vp = env::field_value(card.flags_bk, fp);
    env::field_read_over_write(card.flags_bk, fs, sw, (vs + 1) as u32);
    let a = env::incremented(card.flags_bk, fs);
    env::write_is_confined(card.flags_bk, fs, (vs + 1) as u32, fp.mask);
    env::field_read_over_write(a, fp, pw, (vp + 1) as u32);
    env::write_is_confined(a, fp, (vp + 1) as u32, fs.mask);
}

/// A proposal on a tile binds the card of the tile on the proposed cell, in the slot
/// that was left open, and no other slot changes.
pub proof fn tile_proposals_bind_the_tile_on_their_cell(
    e: Env,
    db: Db,
    after: Db,
    res: Result<(), propose::ProposeError>,
    r: content::Recipe,
    recipe_id: u16,
    surface: u8,
    macro_zone: u64,
    micro_location: u32,
    root: u32,
    bindings: Seq<Vec<u32>>,
    i: int,
    player: u32,
    t: u64,
)
    requires
        propose::tile_proposed(
            e,
            db,
            after,
            res,
            r,
            recipe_id,
            surface,
            macro_zone,
            micro_location,
            root,
            bindings,
            i,
            player,
            t,
        ),
        0 <= i < bindings.len(),
        bindings[i]@.len() > 0,
        res is Ok,
    ensures
        ({
            let q = (micro_location / 0x2000_0000) as u8;
            let row = (micro_location / 0x400_0000 % 8) as u8;
            let location = packed::on_surface(macro_zone, surface);
            let p = tile_cards::promotion(e, db, location, q, row, t);
            &&& outcomes::lies_on(location, macro_zone, surface)
            &&& p.1 matches Ok(card) && exists|b: Vec<Vec<u32>>| #[trigger]
                b@.len() == bindings.len() && b@[i]@[0] == card.card_id && (forall|k: int|
                    0 <= k < bindings.len() && k != i ==> (#[trigger] b@[k])@ == bindings[k]@) && (
                after, res) == propose::bound_proposed(
                    e,
                    p.0,
                    r,
                    recipe_id,
                    surface,
                    macro_zone,
                    micro_location,
                    root,
                    b@,
                    propose::synthetic(e, db, surface, macro_zone, micro_location, t),
                    player,
                    t,
                )
        }),
{
    reveal(propose::tile_proposed);
    outcomes::lemma_lies_on(macro_zone, surface);
    let q = (micro_location / 0x2000_0000) as u8;
    let row = (micro_location / 0x400_0000 % 8) as u8;
    let location = packed::on_surface(macro_zone, surface);
    let p = tile_cards::promotion(e, db, location, q, row, t);
    let card = p.1->Ok_0;
    let tile = propose::synthetic(e, db, surface, macro_zone, micro_location, t);
    let b = choose|b: Vec<Vec<u32>>|
        {
            &&& #[trigger] propose::substituted(b@, bindings, i, card.card_id)
            &&& (after, res) == propose::bound_proposed(
                e,
                p.0,
                r,
                recipe_id,
                surface,
                macro_zone,
                micro_location,
                root,
                b@,
                tile,
                player,
                t,
            )
        };
    assert(b@.len() == bindings.len());
    assert(b@[i]@ == bindings[i]@.update(0, card.card_id));
}

// ---- the stack of a soul -------------------------------------------
/// Every card in the stack of a soul is in force, alive, claimed by no action, and a
/// member of a stack in the direction asked for; the soul owns it.
pub proof fn soul_stacks_hold_free_members(e: Env, db: Db, soul: u32, direction: u8, c: Card)
    requires
        recipe_eval::stack_of(e, db, soul, direction).contains(c),
    ensures
        c.flags_state & e.state.dead == 0,
        cards::hold_value(e, HoldKind::SlotHold, c.flags_bk) == 0,
        cards::is_member(e, c),
        cards::branch_of(e, c) == direction,
        cards::current(e, db, c.card_id) == Some(c),
        exists|i: int|
            0 <= i < db.cards.len() && (#[trigger] db.cards[i]).card_id == c.card_id
                && db.cards[i].owner_id == soul,
{
    let ids = recipe_eval::owned_ids(db.cards, soul);
    let all = recipe_eval::resting(e, db, ids, direction);
    let first = all.filter(recipe_eval::on(soul));
    let left = all.filter(recipe_eval::not_on(soul));
    history::filter_members(all, recipe_eval::on(soul));
    history::filter_members(all, recipe_eval::not_on(soul));
    lemma_below(first, left, (recipe_eval::SOUL_STACK_MAX_DEPTH - 1) as nat, c);
    let deep = recipe_eval::below(first, left, (recipe_eval::SOUL_STACK_MAX_DEPTH - 1) as nat);
    let k = choose|k: int| 0 <= k < (first + deep).len() && (first + deep)[k] == c;
    if k < first.len() {
        assert(first[k] == c);
        assert(first.contains(c));
    } else {
        assert(deep[k - first.len()] == c);
        assert(deep.contains(c));
    }
    assert(all.contains(c));
    lemma_resting(e, db, ids, direction, c);
    lemma_owned_ids(db.cards, soul, c.card_id);
}

proof fn lemma_resting(e: Env, db: Db, ids: Seq<u32>, direction: u8, c: Card)
    requires
        recipe_eval::resting(e, db, ids, direction).contains(c),
    ensures
        recipe_eval::rests_on(e, c, direction),
        cards::current(e, db, c.card_id) == Some(c),
        ids.contains(c.card_id),
    decreases ids.len(),
{
    let init = ids.drop_last();
    let before = recipe_eval::resting(e, db, init, direction);
    let out = recipe_eval::resting(e, db, ids, direction);
    let k = choose|k: int| 0 <= k < out.len() && out[k] == c;
    assert(ids[ids.len() - 1] == ids.last());
    history::prior_at_is_greatest(db.cards, ids.last(), e.now_ms);
    if k < before.len() {
        assert(before[k] == c);
        lemma_resting(e, db, init, direction, c);
        let j = choose|j: int| 0 <= j < init.len() && init[j] == c.card_id;
        assert(ids[j] == c.card_id);
    }
}

proof fn lemma_owned_ids(rows: Seq<Card>, soul: u32, id: u32)
    ensures
        recipe_eval::owned_ids(rows, soul).contains(id) ==> exists|i: int|
            0 <= i < rows.len() && (#[trigger] rows[i]).card_id == id && rows[i].owner_id == soul,
    decreases rows.len(),
{
    if rows.len() > 0 && recipe_eval::owned_ids(rows, soul).contains(id) {
        let init = rows.drop_last();
        let before = recipe_eval::owned_ids(init, soul);
        let out = recipe_eval::owned_ids(rows, soul);
        lemma_owned_ids(init, soul, id);
        let k = choose|k: int| 0 <= k < out.len() && out[k] == id;
        assert(rows[rows.len() - 1] == rows.last());
        if k < before.len() {
            assert(before[k] == id);
            let j = choose|j: int|
                0 <= j < init.len() && (#[trigger] init[j]).card_id == id && init[j].owner_id
                    == soul;
            assert(rows[j] == init[j]);
        }
    }
}

proof fn lemma_level(parents: Seq<Card>, left: Seq<Card>, c: Card)
    ensures
        recipe_eval::level(parents, left).0.contains(c) ==> left.contains(c),
        recipe_eval::level(parents, left).1.contains(c) ==> left.contains(c),
    decreases parents.len(),
{
    if parents.len() > 0 {
        let before = recipe_eval::level(parents.drop_last(), left);
        lemma_level(parents.drop_last(), left, c);
        let id = parents.last().card_id;
        history::filter_members(before.1, recipe_eval::on(id));
        history::filter_members(before.1, recipe_eval::not_on(id));
        let a = before.1.filter(recipe_eval::on(id));
        if (before.0 + a).contains(c) {
            let k = choose|k: int| 0 <= k < (before.0 + a).len() && (before.0 + a)[k] == c;
            if k < before.0.len() {
                assert(before.0[k] == c);
            } else {
                assert(a[k - before.0.len()] == c);
                assert(a.contains(c));
            }
        }
    }
}

proof fn lemma_below(parents: Seq<Card>, left: Seq<Card>, depth: nat, c: Card)
    ensures
        recipe_eval::below(parents, left, depth).contains(c) ==> left.contains(c),
    decreases depth,
{
    if depth > 0 && parents.len() > 0 {
        let l = recipe_eval::level(parents, left);
        lemma_level(parents, left, c);
        lemma_below(l.0, l.1, (depth - 1) as nat, c);
        let rest = recipe_eval::below(l.0, l.1, (depth - 1) as nat);
        if (l.0 + rest).contains(c) {
            let k = choose|k: int| 0 <= k < (l.0 + rest).len() && (l.0 + rest)[k] == c;
            if k < l.0.len() {
                assert(l.0[k] == c);
            } else {
                assert(rest[k - l.0.len()] == c);
            }
        }
    }
}

// ---- proposals -----------------------------------------------------
/// Effects take place one after the other, and the first that fails is the last.
pub proof fn effects_take_place_in_order(e: Env, db: Db, xs: Seq<Effect>, x: Effect, t: u64)
    ensures
        completion::effects_done(e, db, Seq::empty(), t) == (
            db,
            Ok::<(), completion::CommitError>(()),
        ),
        completion::effects_done(e, db, xs, t).1 is Ok ==> completion::effects_done(
            e,
            db,
            xs.push(x),
            t,
        ) == completion::effect_done(e, completion::effects_done(e, db, xs, t).0, x, t),
        completion::effects_done(e, db, xs, t).1 is Err ==> completion::effects_done(
            e,
            db,
            xs.push(x),
            t,
        ) == completion::effects_done(e, db, xs, t),
{
    assert(xs.push(x).drop_last() =~= xs);
}

/// A proposal that is admitted comes from a connection that is logged in, names a recipe
/// of the catalog, binds one row for each of its iterators, and counts from the client's
/// time or the server's, whichever is earlier.
pub proof fn admitted_proposals_are_in_order(
    e: Env,
    db: Db,
    caller: ConnectionId,
    client_time_ms: u64,
    recipe_id: u16,
    bindings: Seq<Vec<u32>>,
)
    ensures
        propose::admitted(e, db, caller, client_time_ms, recipe_id, bindings) matches Ok((p, r, t))
            ==> players::session_player(db.player_sessions, caller) == Some(p)
            && content::recipe_by_id(e.catalog.recipes@, recipe_id) == Some(r) && bindings.len()
            == r.iterators@.len() && t <= e.now_ms && t <= client_time_ms && (t == e.now_ms || t
            == client_time_ms),
{
}

/// The row of a proposal that is taken for its tile is the first that belongs to a
/// top-level iterator over branch 0 and leaves its first slot empty.
pub proof fn open_tiles_are_the_first_left_open(
    its: Seq<content::SlotIterator>,
    bindings: Seq<Vec<u32>>,
    i: int,
    j: int,
)
    requires
        0 <= i,
        i <= j < its.len(),
        j < bindings.len(),
        its[j].parent@.len() == 0,
        its[j].branch == 0,
        bindings[j]@.len() > 0,
        bindings[j]@[0] == 0,
    ensures
        propose::open_tile_row(its, bindings, i) matches Some(k) && i <= k <= j
            && its[k].parent@.len() == 0 && its[k].branch == 0 && k < bindings.len()
            && bindings[k]@.len() > 0 && bindings[k]@[0] == 0,
    decreases its.len() - i,
{
    if i < j && !(i < bindings.len() && propose::leaves_tile_open(its[i], bindings[i]@)) {
        open_tiles_are_the_first_left_open(its, bindings, i + 1, j);
    }
}

// ---- how far a stack reaches ---------------------------------------
/// A card that rests on a soul that owns it is in the soul's stack, and so is a card of
/// the soul that rests on such a card.
pub proof fn soul_stacks_reach_outward(e: Env, db: Db, soul: u32, direction: u8, p: Card, c: Card)
    requires
        soul != 0,
        p.micro_location == soul,
        owned_and_resting(e, db, soul, direction, p),
        c.micro_location == p.card_id,
        owned_and_resting(e, db, soul, direction, c),
    ensures
        recipe_eval::stack_of(e, db, soul, direction).contains(p),
        recipe_eval::stack_of(e, db, soul, direction).contains(c),
{
    let ids = recipe_eval::owned_ids(db.cards, soul);
    let all = recipe_eval::resting(e, db, ids, direction);
    let first = all.filter(recipe_eval::on(soul));
    let left = all.filter(recipe_eval::not_on(soul));
    lemma_owned_rest(e, db, soul, direction, p);
    lemma_owned_rest(e, db, soul, direction, c);
    history::filter_members(all, recipe_eval::on(soul));
    history::filter_members(all, recipe_eval::not_on(soul));
    let i = choose|i: int| 0 <= i < all.len() && all[i] == p;
    assert(recipe_eval::on(soul)(all[i]));
    assert(first.contains(p));
    let depth = (recipe_eval::SOUL_STACK_MAX_DEPTH - 1) as nat;
    let deep = recipe_eval::below(first, left, depth);
    let k = choose|k: int| 0 <= k < first.len() && first[k] == p;
    assert((first + deep)[k] == p);
    let j = choose|j: int| 0 <= j < all.len() && all[j] == c;
    if c.micro_location == soul {
        assert(recipe_eval::on(soul)(all[j]));
        let m = choose|m: int| 0 <= m < first.len() && first[m] == c;
        assert((first + deep)[m] == c);
    } else {
        assert(recipe_eval::not_on(soul)(all[j]));
        assert(left.contains(c));
        lemma_on_level(first, left, k, c);
        let l = recipe_eval::level(first, left);
        let m = choose|m: int| 0 <= m < l.0.len() && l.0[m] == c;
        assert(deep[m] == c);
        assert((first + deep)[first.len() + m] == c);
    }
}

/// The soul owns a row of the card, and the card as it is in force is alive, claimed by
/// no action, and a member of a stack in the direction.
pub open spec fn owned_and_resting(e: Env, db: Db, soul: u32, direction: u8, c: Card) -> bool {
    &&& exists|i: int|
        0 <= i < db.cards.len() && (#[trigger] db.cards[i]).card_id == c.card_id
            && db.cards[i].owner_id == soul
    &&& cards::current(e, db, c.card_id) == Some(c)
    &&& c.flags_state & e.state.dead == 0
    &&& cards::hold_value(e, HoldKind::SlotHold, c.flags_bk) == 0
    &&& cards::is_member(e, c)
    &&& cards::branch_of(e, c) == direction
    &&& c.micro_location != 0
}

proof fn lemma_owned_rest(e: Env, db: Db, soul: u32, direction: u8, c: Card)
    requires
        owned_and_resting(e, db, soul, direction, c),
    ensures
        recipe_eval::resting(
            e,
            db,
            recipe_eval::owned_ids(db.cards, soul),
            direction,
        ).contains(c),
{
    let i = choose|i: int|
        0 <= i < db.cards.len() && (#[trigger] db.cards[i]).card_id == c.card_id
            && db.cards[i].owner_id == soul;
    lemma_owned(db.cards, soul, i);
    lemma_rests(e, db, recipe_eval::owned_ids(db.cards, soul), direction, c);
}

proof fn lemma_owned(rows: Seq<Card>, soul: u32, i: int)
    requires
        0 <= i < rows.len(),
        rows[i].owner_id == soul,
    ensures
        recipe_eval::owned_ids(rows, soul).contains(rows[i].card_id),
    decreases rows.len(),
{
    let init = rows.drop_last();
    let before = recipe_eval::owned_ids(init, soul);
    let out = recipe_eval::owned_ids(rows, soul);
    if i < init.len() {
        assert(init[i] == rows[i]);
        lemma_owned(init, soul, i);
        let k = choose|k: int| 0 <= k < before.len() && before[k] == rows[i].card_id;
        assert(out[k] == rows[i].card_id);
    } else if !before.contains(rows[i].card_id) {
        assert(out[before.len() as int] == rows[i].card_id);
    }
}

proof fn lemma_rests(e: Env, db: Db, ids: Seq<u32>, direction: u8, c: Card)
    requires
        ids.contains(c.card_id),
        cards::current(e, db, c.card_id) == Some(c),
        recipe_eval::rests_on(e, c, direction),
    ensures
        recipe_eval::resting(e, db, ids, direction).contains(c),
    decreases ids.len(),
{
    let init = ids.drop_last();
    let before = recipe_eval::resting(e, db, init, direction);
    let out = recipe_eval::resting(e, db, ids, direction);
    let k = choose|k: int| 0 <= k < ids.len() && ids[k] == c.card_id;
    if k < init.len() {
        assert(init[k] == c.card_id);
        lemma_rests(e, db, init, direction, c);
        let j = choose|j: int| 0 <= j < before.len() && before[j] == c;
        assert(out[j] == c);
    } else {
        assert(out[before.len() as int] == c);
    }
}

proof fn lemma_on_level(parents: Seq<Card>, left: Seq<Card>, k: int, c: Card)
    requires
        0 <= k < parents.len(),
        parents[k].card_id == c.micro_location,
        left.contains(c),
    ensures
        recipe_eval::level(parents, left).0.contains(c),
    decreases parents.len(),
{
    let init = parents.drop_last();
    let before = recipe_eval::level(init, left);
    let id = parents.last().card_id;
    let here = before.1.filter(recipe_eval::on(id));
    if k < init.len() {
        assert(init[k] == parents[k]);
        lemma_on_level(init, left, k, c);
    } else {
        lemma_left_or_taken(init, left, c);
        if !before.0.contains(c) {
            history::filter_members(before.1, recipe_eval::on(id));
            let i = choose|i: int| 0 <= i < before.1.len() && before.1[i] == c;
            assert(recipe_eval::on(id)(before.1[i]));
            let j = choose|j: int| 0 <= j < here.len() && here[j] == c;
            assert((before.0 + here)[before.0.len() + j] == c);
        }
    }
    if before.0.contains(c) {
        let j = choose|j: int| 0 <= j < before.0.len() && before.0[j] == c;
        assert((before.0 + here)[j] == c);
    }
}

proof fn lemma_left_or_taken(parents: Seq<Card>, left: Seq<Card>, c: Card)
    requires
        left.contains(c),
    ensures
        recipe_eval::level(parents, left).0.contains(c) || recipe_eval::level(
            parents,
            left,
        ).1.contains(c),
    decreases parents.len(),
{
    if parents.len() > 0 {
        let before = recipe_eval::level(parents.drop_last(), left);
        let id = parents.last().card_id;
        let here = before.1.filter(recipe_eval::on(id));
        let there = before.1.filter(recipe_eval::not_on(id));
        lemma_left_or_taken(parents.drop_last(), left, c);
        if before.0.contains(c) {
            let j = choose|j: int| 0 <= j < before.0.len() && before.0[j] == c;
            assert((before.0 + here)[j] == c);
        } else {
            history::filter_members(before.1, recipe_eval::on(id));
            history::filter_members(before.1, recipe_eval::not_on(id));
            let i = choose|i: int| 0 <= i < before.1.len() && before.1[i] == c;
            if c.micro_location == id {
                assert(recipe_eval::on(id)(before.1[i]));
                let j = choose|j: int| 0 <= j < here.len() && here[j] == c;
                assert((before.0 + here)[before.0.len() + j] == c);
            } else {
                assert(recipe_eval::not_on(id)(before.1[i]));
                assert(there.contains(c));
            }
        }
    }
}

/// Requirements are held against the registered definitions of the cards of a stack, and
/// against nothing else.
pub proof fn candidates_are_the_definitions_of_the_stack(e: Env, cs: Seq<Card>, packed: u16)
    ensures
        on_create::definitions_of(e, cs).contains(packed) <==> content::definition(
            e.catalog.definitions@,
            packed,
        ) is Some && exists|i: int|
            0 <= i < cs.len() && (#[trigger] cs[i]).packed_definition == packed,
    decreases cs.len(),
{
    let out = on_create::definitions_of(e, cs);
    if cs.len() > 0 {
        let init = cs.drop_last();
        let before = on_create::definitions_of(e, init);
        candidates_are_the_definitions_of_the_stack(e, init, packed);
        assert(forall|i: int| 0 <= i < init.len() ==> init[i] == cs[i]);
        assert(cs[cs.len() - 1] == cs.last());
        if out.contains(packed) {
            let k = choose|k: int| 0 <= k < out.len() && out[k] == packed;
            if k < before.len() {
                assert(before[k] == packed);
                let i = choose|i: int|
                    0 <= i < init.len() && (#[trigger] init[i]).packed_definition == packed;
                assert(cs[i].packed_definition == packed);
            }
        }
        if before.contains(packed) {
            let k = choose|k: int| 0 <= k < before.len() && before[k] == packed;
            assert(out[k] == packed);
        }
        if content::definition(e.catalog.definitions@, packed) is Some && exists|i: int|
            0 <= i < cs.len() && (#[trigger] cs[i]).packed_definition == packed {
            let i = choose|i: int|
                0 <= i < cs.len() && (#[trigger] cs[i]).packed_definition == packed;
            if i < init.len() {
                assert(init[i].packed_definition == packed);
            } else {
                assert(out[before.len() as int] == packed);
            }
        }
    }
}

/// A card that belongs to a soul is held against that soul's stacks; a card that belongs
/// to none against nothing.
pub proof fn free_cards_have_no_candidates(e: Env, db: Db, card_id: u32, direction: u8)
    ensures
        match cards::soul_at(e, db, card_id, e.now_ms) {
            Some(s) => on_create::soul_or_none(e, db, card_id) == s,
            None => recipe_eval::stack_of(
                e,
                db,
                on_create::soul_or_none(e, db, card_id),
                direction,
            ).len() == 0,
        },
{
}

} // verus!
