//! Garbage collection of the history tables.
//!
//! Prior versions are always reaped, the latest live row never. A dead latest
//! row is retained for a while, depending on its owner. In-flight actions that
//! were never released go once their grace has run out.
use vstd::prelude::*;

use crate::cards::cards;
use crate::cards::cards::Card;
use crate::cards::env::Env;
use crate::cards::env::HoldKind;
use crate::history;
use crate::packed;
use crate::pending_actions;
use crate::players::players;
use crate::players::players::PlayerSession;
use crate::tables::Db;
use crate::tables::Tables;

verus! {

/// Retention of dead cards that the world owns.
pub const WORLD_DEAD_RETENTION_MS: u64 = 300_000;

/// Retention of dead cards after their owner logged in.
pub const POST_LOGIN_GRACE_MS: u64 = 300_000;

/// Hard cap on the retention of any dead card: thirty days.
pub const MAX_DEAD_RETENTION_MS: u64 = 2_592_000_000;

/// Time since a row came into force, `0` for a future row.
pub open spec fn age(c: Card, now_ms: u64) -> u64 {
    if now_ms > history::time(c) {
        (now_ms - history::time(c)) as u64
    } else {
        0
    }
}

/// The player that owns a card in the end, the world where the chain is broken.
pub open spec fn owner_or_world(e: Env, db: Db, card_id: u32) -> u32 {
    match cards::player_of(e, db, card_id) {
        Some(p) => p,
        None => cards::WORLD_PLAYER_ID,
    }
}

/// What is known of the owners' presence.
pub enum Presence {
    /// Nothing: owned dead rows ride the hard cap.
    Unknown,
    /// The sessions and login times of the players tables.
    Recorded,
}

/// A player has a session.
pub open spec fn online(sessions: Seq<PlayerSession>, player_id: u32) -> bool {
    exists|i: int| 0 <= i < sessions.len() && (#[trigger] sessions[i]).player_id == player_id
}

/// Milliseconds since the last login of a player, by the latest player row.
pub open spec fn since_login(db: Db, player_id: u32, now_ms: u64) -> Option<u64> {
    match history::latest(db.players, player_id) {
        None => None,
        Some(p) => Some(
            if now_ms > p.last_login_secs * 1_000 {
                (now_ms - p.last_login_secs * 1_000) as u64
            } else {
                0
            },
        ),
    }
}

/// A dead row may be reaped: past the hard cap always; not while an action holds
/// its slot; a world-owned one after a short retention; an owned one only where
/// its owner is online and has been for the login grace.
pub open spec fn reapable(e: Env, db: Db, c: Card, now_ms: u64, presence: Presence) -> bool {
    let owner = owner_or_world(e, db, c.card_id);
    if age(c, now_ms) > MAX_DEAD_RETENTION_MS {
        true
    } else if cards::hold_value(e, HoldKind::SlotHold, c.flags_bk) > 0 {
        false
    } else if owner == cards::WORLD_PLAYER_ID {
        age(c, now_ms) > WORLD_DEAD_RETENTION_MS
    } else {
        match presence {
            Presence::Unknown => false,
            Presence::Recorded => online(db.player_sessions, owner) && (since_login(
                db,
                owner,
                now_ms,
            ) matches Some(ms) && ms >= POST_LOGIN_GRACE_MS),
        }
    }
}

fn is_online(tb: &Tables, player_id: u32) -> (r: bool)
    ensures
        r == online(tb@.player_sessions, player_id),
{
    let mut i: usize = 0;
    while i < tb.player_sessions.len()
        invariant
            i <= tb.player_sessions.len(),
            forall|j: int| 0 <= j < i ==> (#[trigger] tb@.player_sessions[j]).player_id
                != player_id,
        decreases tb.player_sessions.len() - i,
    {
        if tb.player_sessions[i].player_id == player_id {
            assert(tb@.player_sessions[i as int].player_id == player_id);
            return true;
        }
        i = i + 1;
    }
    false
}

/// Apply the retention policy to a dead card.
pub fn dead_row_reapable(e: &Env, tb: &Tables, card: &Card, now_ms: u64, presence: &Presence) -> (r:
    bool)
    requires
        e.wf(),
    ensures
        r == reapable(*e, tb@, *card, now_ms, *presence),
{
    let dead_at: u64 = packed::valid_at_time(card.valid_at);
    let age_ms: u64 = if now_ms > dead_at {
        now_ms - dead_at
    } else {
        0
    };
    if age_ms > MAX_DEAD_RETENTION_MS {
        return true;
    }
    if cards::hold_count(e, HoldKind::SlotHold, card.flags_bk) > 0 {
        return false;
    }
    let owner: u32 = match cards::owning_player(e, tb, card.card_id) {
        Some(p) => p,
        None => cards::WORLD_PLAYER_ID,
    };
    if owner == cards::WORLD_PLAYER_ID {
        return age_ms > WORLD_DEAD_RETENTION_MS;
    }
    match presence {
        Presence::Unknown => false,
        Presence::Recorded => {
            if !is_online(tb, owner) {
                return false;
            }
            match players::latest(tb, owner) {
                None => false,
                Some(p) => {
                    let last: u64 = p.last_login_secs as u64 * 1_000;
                    let since: u64 = if now_ms > last {
                        now_ms - last
                    } else {
                        0
                    };
                    since >= POST_LOGIN_GRACE_MS
                },
            }
        },
    }
}

pub open spec fn survives(e: Env, db: Db, now_ms: u64, presence: Presence) -> spec_fn(Card) -> bool {
    |c: Card|
        history::is_newest(db.cards, c) && (!cards::is_dead(e, c) || !reapable(
            e,
            db,
            c,
            now_ms,
            presence,
        ))
}

/// `db` after a sweep of the cards table: the newest row of each card stays,
/// unless it is dead and reapable.
pub open spec fn cards_swept(e: Env, db: Db, now_ms: u64, presence: Presence) -> Db {
    Db { cards: db.cards.filter(survives(e, db, now_ms, presence)), ..db }
}

/// Sweep the cards table.
pub fn sweep_cards(e: &Env, tb: &mut Tables, now_ms: u64, presence: &Presence)
    requires
        e.wf(),
    ensures
        final(tb)@ == cards_swept(*e, old(tb)@, now_ms, *presence),
{
    let m = history::max_keys(&tb.cards);
    let ghost start = tb@;
    let ghost keep = survives(*e, start, now_ms, *presence);
    let mut kept: Vec<Card> = Vec::new();
    let mut i: usize = 0;
    proof {
        reveal(Seq::filter);
        assert(start.cards.take(0).filter(keep) =~= Seq::empty());
    }
    while i < tb.cards.len()
        invariant
            i <= tb.cards.len(),
            e.wf(),
            tb@ == start,
            keep == survives(*e, start, now_ms, *presence),
            kept@ == start.cards.take(i as int).filter(keep),
            forall|id: u32|
                #![trigger m@.contains_key(id)]
                #![trigger history::max_key(start.cards, id)]
                (m@.contains_key(id) <==> history::max_key(start.cards, id) is Some) && (
                m@.contains_key(id) ==> history::max_key(start.cards, id) == Some(m@[id])),
        decreases tb.cards.len() - i,
    {
        let row = tb.cards[i];
        proof {
            history::filter_take_step(start.cards, i as int, keep);
            assert(m@.contains_key(row.card_id) <==> history::max_key(
                start.cards,
                row.card_id,
            ) is Some);
        }
        let newest: bool = match m.get(&row.card_id) {
            Some(k) => *k == row.valid_at,
            None => false,
        };
        if newest && (row.flags_state & e.state.dead == 0 || !dead_row_reapable(
            e,
            tb,
            &row,
            now_ms,
            presence,
        )) {
            kept.push(row);
        }
        i = i + 1;
    }
    assert(start.cards.take(start.cards.len() as int) =~= start.cards);
    tb.cards = kept;
}

/// Periodic sweep of a card database: cards by the retention rules, souls down
/// to their newest rows.
pub fn gc_sweep(e: &Env, tb: &mut Tables)
    requires
        e.wf(),
    ensures
        ({
            let d = cards_swept(*e, old(tb)@, e.now_ms, Presence::Unknown);
            final(tb)@ == (Db {
                souls: history::swept(d.souls),
                pending_actions: d.pending_actions.filter(pending_actions::not_stale(e.now_ms)),
                ..d
            })
        }),
{
    sweep_cards(e, tb, e.now_ms, &Presence::Unknown);
    history::sweep(&mut tb.souls);
    pending_actions::sweep_stale(&mut tb.pending_actions, e.now_ms);
}

/// Periodic sweep of a database that also holds the players: dead cards wait for
/// their owners, players and souls go down to their newest rows, and actions past
/// their grace are no longer in flight.
pub fn gc_sweep_with_players(e: &Env, tb: &mut Tables)
    requires
        e.wf(),
    ensures
        ({
            let d = cards_swept(*e, old(tb)@, e.now_ms, Presence::Recorded);
            final(tb)@ == (Db {
                players: history::swept(d.players),
                souls: history::swept(d.souls),
                pending_actions: d.pending_actions.filter(pending_actions::not_stale(e.now_ms)),
                ..d
            })
        }),
{
    sweep_cards(e, tb, e.now_ms, &Presence::Recorded);
    history::sweep(&mut tb.players);
    history::sweep(&mut tb.souls);
    pending_actions::sweep_stale(&mut tb.pending_actions, e.now_ms);
}

/// A sweep never takes a live newest row, always takes a prior version, and
/// always takes a dead row past the hard cap.
pub proof fn sweep_retention(e: Env, db: Db, now_ms: u64, presence: Presence, c: Card)
    requires
        db.cards.contains(c),
    ensures
        history::is_newest(db.cards, c) && !cards::is_dead(e, c) ==> cards_swept(
            e,
            db,
            now_ms,
            presence,
        ).cards.contains(c),
        !history::is_newest(db.cards, c) ==> !cards_swept(
            e,
            db,
            now_ms,
            presence,
        ).cards.contains(c),
        cards::is_dead(e, c) && age(c, now_ms) > MAX_DEAD_RETENTION_MS ==> !cards_swept(
            e,
            db,
            now_ms,
            presence,
        ).cards.contains(c),
{
    let keep = survives(e, db, now_ms, presence);
    history::filter_members(db.cards, keep);
    let out = cards_swept(e, db, now_ms, presence).cards;
    if out.contains(c) {
        let i = choose|i: int| 0 <= i < out.len() && out[i] == c;
        assert(keep(out[i]));
    }
    let j = choose|j: int| 0 <= j < db.cards.len() && db.cards[j] == c;
    assert(keep(db.cards[j]) ==> out.contains(c));
}

/// A dead newest row is kept up to thirty days; for that long, it is kept while an action
/// claims it; where nobody owns it, five minutes; where a player owns it, until the player
/// has been online for five minutes, and where presence is not known, throughout.
pub proof fn dead_cards_wait_for_their_player(
    e: Env,
    db: Db,
    now_ms: u64,
    presence: Presence,
    c: Card,
)
    requires
        db.cards.contains(c),
        history::is_newest(db.cards, c),
        cards::is_dead(e, c),
    ensures
        cards_swept(e, db, now_ms, presence).cards.contains(c) <==> now_ms - history::time(c)
            <= 2_592_000_000 && (cards::hold_value(e, HoldKind::SlotHold, c.flags_bk) > 0 || (
        match cards::player_of(e, db, c.card_id) {
            Some(p) if p != 0 => presence is Unknown || !(exists|i: int|
                0 <= i < db.player_sessions.len() && (#[trigger] db.player_sessions[i]).player_id
                    == p) || (match history::latest(db.players, p) {
                Some(row) => now_ms - 1_000 * row.last_login_secs < 300_000,
                None => true,
            }),
            _ => now_ms - history::time(c) <= 300_000,
        })),
{
    let keep = survives(e, db, now_ms, presence);
    history::filter_members(db.cards, keep);
    let out = cards_swept(e, db, now_ms, presence).cards;
    if out.contains(c) {
        let i = choose|i: int| 0 <= i < out.len() && out[i] == c;
        assert(keep(out[i]));
    }
    let j = choose|j: int| 0 <= j < db.cards.len() && db.cards[j] == c;
    assert(keep(db.cards[j]) ==> out.contains(c));
}

} // verus!
