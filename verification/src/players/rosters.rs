//! Rosters: which starter packs a player may use, and how many souls the player
//! owns and may own.
use vstd::prelude::*;

use crate::cards::cards;
use crate::cards::cards::Card;
use crate::cards::env::Env;
use crate::cards::gc;
use crate::cards::gc::Presence;
use crate::cards::keys;
use crate::cards::laws;
use crate::history;
use crate::packed;
use crate::players::character_creation;
use crate::tables::Db;

verus! {

/// What a player may create.
#[derive(Clone, Copy, Debug, PartialEq, Eq, Structural)]
pub struct Roster {
    pub player_id: u32,
    /// Bit `id - 1`: the pack is unlocked.
    pub starter_packs: u64,
    /// Owned live souls in the high nibble, their maximum in the low one.
    pub soul_info: u8,
}

/// The roster of a new player: the first pack is unlocked, and no soul is owned.
pub open spec fn fresh_roster(player_id: u32) -> Roster {
    Roster { player_id, starter_packs: 1, soul_info: character_creation::DEFAULT_SOULS_PER_PLAYER }
}

/// Index of a player's roster.
pub open spec fn roster_index(rows: Seq<Roster>, player_id: u32) -> Option<int>
    decreases rows.len(),
{
    if rows.len() == 0 {
        None
    } else if rows.last().player_id == player_id {
        Some(rows.len() - 1)
    } else {
        roster_index(rows.drop_last(), player_id)
    }
}

/// The roster of a player.
pub open spec fn roster_of(rows: Seq<Roster>, player_id: u32) -> Option<Roster> {
    match roster_index(rows, player_id) {
        Some(i) => Some(rows[i]),
        None => None,
    }
}

fn position(rows: &Vec<Roster>, player_id: u32) -> (found: Option<usize>)
    ensures
        match found {
            Some(i) => roster_index(rows@, player_id) == Some(i as int) && i < rows.len(),
            None => roster_index(rows@, player_id) is None,
        },
{
    let mut i: usize = rows.len();
    assert(rows@.take(i as int) =~= rows@);
    while i > 0
        invariant
            i <= rows.len(),
            roster_index(rows@, player_id) == roster_index(rows@.take(i as int), player_id),
        decreases i,
    {
        let ghost head = rows@.take(i as int);
        assert(head.drop_last() =~= rows@.take(i - 1));
        assert(head.last() == rows@[i - 1]);
        i = i - 1;
        if rows[i].player_id == player_id {
            return Some(i);
        }
    }
    None
}

/// Find the roster of a player.
pub fn find(rows: &Vec<Roster>, player_id: u32) -> (found: Option<Roster>)
    ensures
        found == roster_of(rows@, player_id),
{
    match position(rows, player_id) {
        Some(i) => Some(rows[i]),
        None => None,
    }
}

// ---- the soul count ------------------------------------------------
/// The souls counted in a roster.
pub open spec fn soul_count(r: Roster) -> u8 {
    r.soul_info / 16
}

/// The souls that a roster allows.
pub open spec fn soul_max(r: Roster) -> u8 {
    r.soul_info % 16
}

/// A roster with one soul more or less, within the nibble.
pub open spec fn soul_stepped(r: Roster, up: bool) -> Roster {
    Roster {
        soul_info: if up {
            if soul_count(r) < 15 {
                (r.soul_info + 16) as u8
            } else {
                r.soul_info
            }
        } else {
            if soul_count(r) > 0 {
                (r.soul_info - 16) as u8
            } else {
                r.soul_info
            }
        },
        ..r
    }
}

/// The rosters with one soul more or less for a player; nothing for a player without
/// a roster.
pub open spec fn rosters_stepped(rows: Seq<Roster>, player_id: u32, up: bool) -> Seq<Roster> {
    match roster_index(rows, player_id) {
        None => rows,
        Some(i) => rows.update(i, soul_stepped(rows[i], up)),
    }
}

fn step(rows: &mut Vec<Roster>, player_id: u32, up: bool)
    ensures
        final(rows)@ == rosters_stepped(old(rows)@, player_id, up),
{
    match position(rows, player_id) {
        None => {},
        Some(i) => {
            let mut r: Roster = rows[i];
            if up {
                if r.soul_info / 16 < 15 {
                    r.soul_info = r.soul_info + 16;
                }
            } else {
                if r.soul_info / 16 > 0 {
                    r.soul_info = r.soul_info - 16;
                }
            }
            rows.set(i, r);
        },
    }
}

/// The player in whose roster a card row counts: it is a live soul that the player
/// owns directly.
pub open spec fn keeper(e: Env, card: Card) -> Option<u32> {
    if cards::player_owned(e, card) && !cards::is_dead(e, card) {
        Some(card.owner_id)
    } else {
        None
    }
}

/// The player in whose roster a row counts, where there is a row.
pub open spec fn kept_by(e: Env, card: Option<Card>) -> Option<u32> {
    match card {
        Some(c) => keeper(e, c),
        None => None,
    }
}

/// The rosters after a soul went from one player to another.
pub open spec fn followed(rows: Seq<Roster>, was: Option<u32>, is_now: Option<u32>) -> Seq<Roster> {
    if was == is_now {
        rows
    } else {
        let down = match was {
            Some(p) => rosters_stepped(rows, p, false),
            None => rows,
        };
        match is_now {
            Some(n) => rosters_stepped(down, n, true),
            None => down,
        }
    }
}

fn find_keeper(e: &Env, card: &Card) -> (p: Option<u32>)
    ensures
        p == keeper(*e, *card),
{
    if card.flags_state & e.state.is_owned_by_player != 0 && card.flags_state & e.state.dead == 0 {
        Some(card.owner_id)
    } else {
        None
    }
}

/// Keep the rosters in step with one card write.
pub fn on_card_write(e: &Env, rows: &mut Vec<Roster>, prev: &Option<Card>, card: &Card)
    ensures
        final(rows)@ == followed(old(rows)@, kept_by(*e, *prev), keeper(*e, *card)),
{
    let was: Option<u32> = match prev {
        Some(c) => find_keeper(e, c),
        None => None,
    };
    match (was, find_keeper(e, card)) {
        (Some(p), Some(n)) => {
            if p != n {
                step(rows, p, false);
                step(rows, n, true);
            }
        },
        (Some(p), None) => {
            step(rows, p, false);
        },
        (None, Some(n)) => {
            step(rows, n, true);
        },
        (None, None) => {},
    }
}

// ---- the count is exact --------------------------------------------
/// The live souls of a player.
pub open spec fn souls_owned(e: Env, db: Db, player_id: u32) -> nat {
    cards::player_souls(e, db.cards, db.cards, player_id).len()
}

/// The roster of a player counts the player's live souls.
pub open spec fn exact(e: Env, db: Db, player_id: u32) -> bool {
    roster_of(db.rosters, player_id) matches Some(r) ==> soul_count(r) == souls_owned(
        e,
        db,
        player_id,
    )
}

/// No version of a card lies after `t`.
pub open spec fn in_order(db: Db, card_id: u32, t: u64) -> bool {
    history::latest(db.cards, card_id) == history::prior_at(db.cards, card_id, t)
}

/// The player in whose roster a card counts now.
pub open spec fn keeper_now(e: Env, rows: Seq<Card>, card_id: u32) -> Option<u32> {
    kept_by(e, history::latest(rows, card_id))
}

/// One for a card that the player keeps, none otherwise.
pub open spec fn share(keeper: Option<u32>, player_id: u32) -> int {
    if keeper == Some(player_id) {
        1
    } else {
        0
    }
}

/// The listed souls are the cards shown whose keeper is the player, each once.
proof fn lemma_listed(e: Env, rows: Seq<Card>, prefix: Seq<Card>, player_id: u32)
    ensures
        ({
            let list = cards::player_souls(e, rows, prefix, player_id);
            &&& list.no_duplicates()
            &&& forall|id: u32| #[trigger]
                list.contains(id) ==> keeper_now(e, rows, id) == Some(player_id)
            &&& forall|i: int|
                0 <= i < prefix.len() && keeper_now(e, rows, (#[trigger] prefix[i]).card_id) == Some(
                    player_id,
                ) ==> list.contains(prefix[i].card_id)
        }),
    decreases prefix.len(),
{
    if prefix.len() > 0 {
        let init = prefix.drop_last();
        lemma_listed(e, rows, init, player_id);
        let before = cards::player_souls(e, rows, init, player_id);
        let list = cards::player_souls(e, rows, prefix, player_id);
        let id = prefix.last().card_id;
        let adds = !before.contains(id) && cards::is_players_soul(e, rows, id, player_id);
        assert(cards::is_players_soul(e, rows, id, player_id) == (keeper_now(e, rows, id) == Some(
            player_id,
        )));
        assert forall|x: u32| #[trigger] list.contains(x) <==> before.contains(x) || (adds && x
            == id) by {
            if adds {
                if before.contains(x) {
                    let j = choose|j: int| 0 <= j < before.len() && before[j] == x;
                    assert(list[j] == x);
                }
                if x == id {
                    assert(list[before.len() as int] == id);
                }
                if list.contains(x) {
                    let j = choose|j: int| 0 <= j < list.len() && list[j] == x;
                    if j < before.len() {
                        assert(before[j] == x);
                    }
                }
            }
        }
        assert forall|i: int|
            0 <= i < prefix.len() && keeper_now(e, rows, (#[trigger] prefix[i]).card_id) == Some(
                player_id,
            ) implies list.contains(prefix[i].card_id) by {
            if i < init.len() {
                assert(init[i] == prefix[i]);
            }
        }
    }
}

/// A card is listed exactly where its keeper is the player.
proof fn lemma_listed_all(e: Env, rows: Seq<Card>, player_id: u32)
    ensures
        cards::player_souls(e, rows, rows, player_id).no_duplicates(),
        forall|id: u32| #[trigger]
            cards::player_souls(e, rows, rows, player_id).contains(id) <==> keeper_now(e, rows, id)
                == Some(player_id),
{
    lemma_listed(e, rows, rows, player_id);
    let list = cards::player_souls(e, rows, rows, player_id);
    assert forall|id: u32| keeper_now(e, rows, id) == Some(player_id) implies #[trigger] list.contains(
        id,
    ) by {
        history::prior_at_is_greatest(rows, id, u64::MAX);
        let c = history::latest(rows, id)->0;
        let k = choose|k: int| 0 <= k < rows.len() && rows[k] == c;
        assert(rows[k].card_id == id);
    }
}

/// Where one card changes its keeper, the numbers of souls change by that card.
proof fn lemma_one_moves(e: Env, a: Seq<Card>, b: Seq<Card>, x: u32, player_id: u32)
    requires
        forall|id: u32| id != x ==> #[trigger] keeper_now(e, a, id) == keeper_now(e, b, id),
    ensures
        cards::player_souls(e, b, b, player_id).len() == cards::player_souls(e, a, a, player_id).len()
            - share(keeper_now(e, a, x), player_id) + share(keeper_now(e, b, x), player_id),
{
    let la = cards::player_souls(e, a, a, player_id);
    let lb = cards::player_souls(e, b, b, player_id);
    lemma_listed_all(e, a, player_id);
    lemma_listed_all(e, b, player_id);
    la.unique_seq_to_set();
    lb.unique_seq_to_set();
    let sa = la.to_set();
    let sb = lb.to_set();
    assert(sa.remove(x) =~= sb.remove(x)) by {
        assert forall|id: u32| id != x implies sa.contains(id) == sb.contains(id) by {
            assert(la.contains(id) == (keeper_now(e, a, id) == Some(player_id)));
            assert(lb.contains(id) == (keeper_now(e, b, id) == Some(player_id)));
        }
    }
    vstd::seq_lib::seq_to_set_is_finite(la);
    vstd::seq_lib::seq_to_set_is_finite(lb);
    assert(sa.contains(x) == la.contains(x));
    assert(sb.contains(x) == lb.contains(x));
    assert(sa.remove(x).len() == sa.len() - share(keeper_now(e, a, x), player_id)) by {
        if !sa.contains(x) {
            assert(sa.remove(x) =~= sa);
        }
    }
    assert(sb.remove(x).len() == sb.len() - share(keeper_now(e, b, x), player_id)) by {
        if !sb.contains(x) {
            assert(sb.remove(x) =~= sb);
        }
    }
}

/// Stepping leaves every roster in its place.
proof fn lemma_index_kept(rows: Seq<Roster>, i: int, r: Roster, player_id: u32)
    requires
        0 <= i < rows.len(),
        r.player_id == rows[i].player_id,
    ensures
        roster_index(rows.update(i, r), player_id) == roster_index(rows, player_id),
    decreases rows.len(),
{
    let out = rows.update(i, r);
    if i == rows.len() - 1 {
        assert(out.drop_last() =~= rows.drop_last());
    } else {
        assert(out.drop_last() =~= rows.drop_last().update(i, r));
        lemma_index_kept(rows.drop_last(), i, r, player_id);
    }
}

/// The roster found is one of the rows, and the player's.
pub proof fn lemma_index(rows: Seq<Roster>, player_id: u32)
    ensures
        roster_index(rows, player_id) matches Some(i) ==> 0 <= i < rows.len() && rows[i].player_id
            == player_id,
    decreases rows.len(),
{
    if rows.len() > 0 {
        lemma_index(rows.drop_last(), player_id);
    }
}

/// A step changes the roster of its player, and no other.
proof fn lemma_stepped(rows: Seq<Roster>, stepping: u32, up: bool, player_id: u32)
    ensures
        roster_of(rosters_stepped(rows, stepping, up), player_id) == match roster_of(
            rows,
            player_id,
        ) {
            Some(r) => Some(
                if player_id == stepping {
                    soul_stepped(r, up)
                } else {
                    r
                },
            ),
            None => None,
        },
{
    lemma_index(rows, stepping);
    lemma_index(rows, player_id);
    if let Some(i) = roster_index(rows, stepping) {
        lemma_index_kept(rows, i, soul_stepped(rows[i], up), player_id);
    }
}

/// What a card leaves or joins is what the rosters step by, while the nibble has
/// room. The unlocked packs and the maximum stay.
proof fn lemma_followed(rows: Seq<Roster>, was: Option<u32>, is_now: Option<u32>, player_id: u32)
    ensures
        roster_of(followed(rows, was, is_now), player_id) is Some <==> roster_of(
            rows,
            player_id,
        ) is Some,
        roster_of(rows, player_id) matches Some(r) ==> {
            let after = roster_of(followed(rows, was, is_now), player_id)->0;
            let n = soul_count(r) - share(was, player_id) + share(is_now, player_id);
            &&& after.player_id == r.player_id
            &&& after.starter_packs == r.starter_packs
            &&& soul_max(after) == soul_max(r)
            &&& 0 <= n <= 15 ==> soul_count(after) == n
        },
{
    if was != is_now {
        let down = match was {
            Some(p) => rosters_stepped(rows, p, false),
            None => rows,
        };
        if let Some(p) = was {
            lemma_stepped(rows, p, false, player_id);
        }
        if let Some(n) = is_now {
            lemma_stepped(down, n, true, player_id);
        }
    }
}

/// What one row write does to the keepers and the rosters.
proof fn lemma_row(e: Env, db: Db, card: Card, t: u64)
    requires
        t < packed::TIME_RADIX,
        history::distinct_versions(db.cards),
        history::key_free(db.cards, packed::valid_at_key(t, db.next_sequence)),
    ensures
        ({
            let d = cards::row_written(e, db, card, t);
            let prev = history::prior_at(db.cards, card.card_id, t);
            &&& history::distinct_versions(d.cards)
            &&& d.rosters == followed(db.rosters, kept_by(e, prev), keeper(e, card))
            &&& forall|id: u32|
                id != card.card_id ==> #[trigger] keeper_now(e, d.cards, id) == keeper_now(
                    e,
                    db.cards,
                    id,
                )
            &&& in_order(db, card.card_id, t) ==> keeper_now(e, d.cards, card.card_id) == keeper(
                e,
                card,
            )
            &&& (prev matches Some(p) && p.flags_state == card.flags_state && p.owner_id
                == card.owner_id) ==> keeper_now(e, d.cards, card.card_id) == keeper_now(
                e,
                db.cards,
                card.card_id,
            )
        }),
{
    let d = cards::row_written(e, db, card, t);
    let id = card.card_id;
    let prev = history::prior_at(db.cards, id, t);
    let row = cards::stamped(e, db, card, t);
    let rows = history::stored(db.cards, row, t);
    packed::valid_at_round_trip(t, db.next_sequence);
    laws::writes_keep_versions_distinct(e, db, card, t, 0);
    laws::write_reads_back(e, db, card, t);
    history::store_keeps_distinct(db.cards, row, t);
    history::stored_members(db.cards, row, t);
    assert forall|x: u32| x != id implies #[trigger] keeper_now(e, d.cards, x) == keeper_now(
        e,
        db.cards,
        x,
    ) by {
        laws::write_is_isolated(e, db, card, t, x, u64::MAX);
    }
    let last = history::latest(db.cards, id);
    history::prior_at_is_greatest(db.cards, id, t);
    history::prior_at_is_greatest(db.cards, id, u64::MAX);
    if in_order(db, id, t) {
        assert forall|i: int|
            0 <= i < rows.len() && (#[trigger] rows[i]).card_id == id implies history::time(rows[i])
            <= t by {
            assert(rows.contains(rows[i]));
            if rows[i] != row {
                let k = choose|k: int| 0 <= k < db.cards.len() && db.cards[k] == rows[i];
                assert(history::covers(db.cards[k], id, u64::MAX));
            }
        }
        history::next_version_is_least(rows, id, t);
        assert(d.cards == rows);
        assert(rows.contains(row));
        history::prior_at_unique(rows, id, u64::MAX, row);
    } else {
        if let Some(p) = prev {
            if p.flags_state == card.flags_state && p.owner_id == card.owner_id {
                laws::lemma_no_difference(p.flags_state);
                assert(d.cards == rows);
                let c = last->0;
                assert(db.cards.contains(c));
                let k = choose|k: int| 0 <= k < db.cards.len() && db.cards[k] == c;
                if history::time(c) <= t {
                    assert forall|i: int|
                        0 <= i < db.cards.len() && history::covers(
                            #[trigger] db.cards[i],
                            id,
                            t,
                        ) implies history::time(db.cards[i]) <= history::time(c) by {
                        assert(history::covers(db.cards[i], id, u64::MAX));
                    }
                    history::prior_at_unique(db.cards, id, t, c);
                }
                assert(rows.contains(c));
                assert forall|i: int|
                    0 <= i < rows.len() && history::covers(
                        #[trigger] rows[i],
                        id,
                        u64::MAX,
                    ) implies history::time(rows[i]) <= history::time(c) by {
                    assert(rows.contains(rows[i]));
                    if rows[i] != row {
                        let j = choose|j: int| 0 <= j < db.cards.len() && db.cards[j] == rows[i];
                        assert(history::covers(db.cards[j], id, u64::MAX));
                    }
                }
                history::prior_at_unique(rows, id, u64::MAX, c);
            }
        }
    }
}

/// Followers keep their owners and their flags, so no keeper changes and no roster
/// steps.
proof fn lemma_followers(
    e: Env,
    db: Db,
    ids: Seq<u32>,
    host_died: bool,
    macro_zone: u64,
    t: u64,
    depth: nat,
)
    requires
        t < packed::TIME_RADIX,
        history::distinct_versions(db.cards),
        keys::followers_take_free_keys(e, db, ids, host_died, macro_zone, t, depth),
    ensures
        ({
            let d = cards::followers_written(e, db, ids, host_died, macro_zone, t, depth);
            &&& history::distinct_versions(d.cards)
            &&& d.rosters == db.rosters
            &&& forall|id: u32| #[trigger]
                keeper_now(e, d.cards, id) == keeper_now(e, db.cards, id)
        }),
    decreases depth, ids.len() + 1,
{
    if ids.len() > 0 {
        let init = ids.drop_last();
        lemma_followers(e, db, init, host_died, macro_zone, t, depth);
        let d = cards::followers_written(e, db, init, host_died, macro_zone, t, depth);
        if let Some(c) = history::prior_at(d.cards, ids.last(), t) {
            history::prior_at_is_greatest(d.cards, ids.last(), t);
            let card = cards::follower_edit(host_died, macro_zone, c);
            lemma_written(e, d, card, t, depth);
        }
    }
}

/// What a write, with every follower it moves, does to the keepers and the
/// rosters.
proof fn lemma_written(e: Env, db: Db, card: Card, t: u64, depth: nat)
    requires
        t < packed::TIME_RADIX,
        history::distinct_versions(db.cards),
        keys::write_takes_free_keys(e, db, card, t, depth),
    ensures
        ({
            let d = cards::written(e, db, card, t, depth);
            let prev = history::prior_at(db.cards, card.card_id, t);
            &&& history::distinct_versions(d.cards)
            &&& d.rosters == followed(db.rosters, kept_by(e, prev), keeper(e, card))
            &&& forall|id: u32|
                id != card.card_id ==> #[trigger] keeper_now(e, d.cards, id) == keeper_now(
                    e,
                    db.cards,
                    id,
                )
            &&& in_order(db, card.card_id, t) ==> keeper_now(e, d.cards, card.card_id) == keeper(
                e,
                card,
            )
            &&& (prev matches Some(p) && p.flags_state == card.flags_state && p.owner_id
                == card.owner_id) ==> keeper_now(e, d.cards, card.card_id) == keeper_now(
                e,
                db.cards,
                card.card_id,
            )
        }),
    decreases depth, 0nat,
{
    lemma_row(e, db, card, t);
    let prev = history::prior_at(db.cards, card.card_id, t);
    let d = cards::row_written(e, db, card, t);
    let moved = match prev {
        Some(p) => p.macro_zone != card.macro_zone,
        None => false,
    };
    let died = cards::is_dead(e, card) && match prev {
        Some(p) => !cards::is_dead(e, p),
        None => true,
    };
    if depth > 0 && (moved || died) {
        lemma_followers(
            e,
            d,
            cards::follower_ids(e, d.cards, d.cards, card.card_id, t),
            died,
            card.macro_zone,
            t,
            (depth - 1) as nat,
        );
    }
}

/// A card write that comes in order of time, under free keys, keeps the roster of
/// every player exact, as long as the count fits its nibble: the souls that the
/// player owns change by what the card leaves or joins. The unlocked packs and the
/// maximum stay.
pub proof fn writes_keep_counts_exact(e: Env, db: Db, card: Card, t: u64, depth: nat, player_id: u32)
    requires
        t < packed::TIME_RADIX,
        history::distinct_versions(db.cards),
        keys::write_takes_free_keys(e, db, card, t, depth),
        in_order(db, card.card_id, t),
        exact(e, db, player_id),
    ensures
        ({
            let d = cards::written(e, db, card, t, depth);
            &&& history::distinct_versions(d.cards)
            &&& souls_owned(e, d, player_id) <= 15 ==> exact(e, d, player_id)
            &&& souls_owned(e, d, player_id) == souls_owned(e, db, player_id) - share(
                keeper_now(e, db.cards, card.card_id),
                player_id,
            ) + share(keeper(e, card), player_id)
            &&& roster_of(d.rosters, player_id) is Some <==> roster_of(
                db.rosters,
                player_id,
            ) is Some
            &&& roster_of(db.rosters, player_id) matches Some(r) ==> {
                let after = roster_of(d.rosters, player_id)->0;
                &&& after.starter_packs == r.starter_packs
                &&& soul_max(after) == soul_max(r)
            }
        }),
{
    let d = cards::written(e, db, card, t, depth);
    lemma_written(e, db, card, t, depth);
    lemma_one_moves(e, db.cards, d.cards, card.card_id, player_id);
    lemma_followed(
        db.rosters,
        keeper_now(e, db.cards, card.card_id),
        keeper(e, card),
        player_id,
    );
}

/// A sweep of the cards table leaves every card with its keeper: what goes is
/// superseded or dead.
proof fn lemma_sweep(e: Env, db: Db, now_ms: u64, presence: Presence, id: u32)
    requires
        history::distinct_versions(db.cards),
    ensures
        keeper_now(e, gc::cards_swept(e, db, now_ms, presence).cards, id) == keeper_now(
            e,
            db.cards,
            id,
        ),
{
    let rows = db.cards;
    let keep = gc::survives(e, db, now_ms, presence);
    let out = rows.filter(keep);
    history::filter_members(rows, keep);
    history::prior_at_is_greatest(rows, id, u64::MAX);
    history::prior_at_is_greatest(out, id, u64::MAX);
    if let Some(r) = history::latest(out, id) {
        let i = choose|i: int| 0 <= i < out.len() && out[i] == r;
        assert(keep(out[i]));
        let k = choose|k: int| 0 <= k < rows.len() && rows[k] == r;
        assert(history::covers(rows[k], id, u64::MAX));
    }
    if let Some(c) = history::latest(rows, id) {
        history::sweep_keeps_latest(rows, id);
        history::prior_at_is_greatest(history::swept(rows), id, u64::MAX);
        history::sweep_keeps_exactly_newest(rows, c);
        let j = choose|j: int| 0 <= j < rows.len() && rows[j] == c;
        if let Some(r) = history::latest(out, id) {
            let k = choose|k: int| 0 <= k < rows.len() && rows[k] == r;
            assert(rows[k].valid_at == rows[j].valid_at);
            if k < j || j < k {
                assert(rows[k].valid_at != rows[j].valid_at);
            }
        } else {
            if keep(rows[j]) {
                let i = choose|i: int| 0 <= i < out.len() && out[i] == c;
                assert(history::covers(out[i], id, u64::MAX));
            }
        }
    }
}

/// Sweeping the cards table changes no player's number of live souls, so the rosters
/// stay exact.
pub proof fn sweeps_keep_counts_exact(
    e: Env,
    db: Db,
    now_ms: u64,
    presence: Presence,
    player_id: u32,
)
    requires
        history::distinct_versions(db.cards),
        exact(e, db, player_id),
    ensures
        ({
            let d = gc::cards_swept(e, db, now_ms, presence);
            &&& souls_owned(e, d, player_id) == souls_owned(e, db, player_id)
            &&& exact(e, d, player_id)
        }),
{
    let d = gc::cards_swept(e, db, now_ms, presence);
    assert forall|id: u32| #[trigger] keeper_now(e, db.cards, id) == keeper_now(e, d.cards, id) by {
        lemma_sweep(e, db, now_ms, presence, id);
    }
    lemma_one_moves(e, db.cards, d.cards, 0, player_id);
}

} // verus!
