//! Player accounts, sessions and profiles.
use vstd::prelude::*;

use crate::cards::cards;
use crate::cards::cards::Card;
use crate::cards::env::Env;
use crate::cards::micro::Micro;
use crate::content;
use crate::history;
use crate::history::Version;
use crate::packed;
use crate::players::character_creation;
use crate::players::lifecycle_pending;
use crate::players::rosters;
use crate::players::rosters::Roster;
use crate::players::souls;
use crate::players::souls::SoulPrivate;
use crate::regions::regions;
use crate::tables;
use crate::tables::Db;
use crate::tables::Tables;

verus! {

/// Longest player name, in bytes.
pub const MAX_PLAYER_NAME_LEN: usize = 64;

/// First id handed to a real player; smaller ones are reserved.
pub const FIRST_PLAYER_ID: u32 = 1024;

/// Bits of `Player::flags` that hold the faction.
pub const PLAYER_FLAG_FACTION_MASK: u32 = 0b11;

/// A version of a player's public record.
pub struct Player {
    pub valid_at: u64,
    /// Data-shard partition of the row.
    pub data_shard: u16,
    pub player_id: u32,
    /// Display name; matching is case-sensitive.
    pub name: String,
    /// Unix seconds of the last login.
    pub last_login_secs: u32,
    /// Bits 0 and 1 are the faction.
    pub flags: u32,
}

/// The 256-bit identity of a connection.
#[derive(Clone, Copy, Debug, PartialEq, Eq, Structural)]
pub struct ConnectionId {
    pub hi: u128,
    pub lo: u128,
}

/// Maps a connection to the player behind it.
#[derive(Clone, Copy, Debug, PartialEq, Eq, Structural)]
pub struct PlayerSession {
    pub identity: ConnectionId,
    pub player_id: u32,
}

/// A player's private state: one row per player, updated in place.
#[derive(Clone, Copy, Debug, PartialEq, Eq, Structural)]
pub struct PlayerProfile {
    pub player_id: u32,
    /// Data-shard partition of the row.
    pub data_shard: u16,
    /// Number of the player's active magnetic actions.
    pub lifecycle_count: u32,
    /// Earliest end among them; `0` where there are none.
    pub earliest_lifecycle_expires_ms: u64,
}

/// The one-row allocator table of player ids.
#[derive(Clone, Copy, Debug, PartialEq, Eq, Structural)]
pub struct PlayerIdCounter {
    pub id: u8,
    pub next: u32,
}

/// Why a player operation was rejected.
#[derive(Clone, Copy, Debug, PartialEq, Eq, Structural)]
pub enum PlayerError {
    NameEmpty,
    NameBlank,
    NameControl,
    NameTooLong { len: usize },
    /// The name belongs to a system player.
    NameReserved,
    /// The connection has not logged in.
    NoSession,
    PlayerNotFound { player_id: u32 },
    /// The player already has this many souls.
    SoulExists { owned: u32 },
    /// A starter definition is missing from the catalog.
    NoSoulDefinition,
    NoHumanDefinition,
    NoDustDefinition,
}

impl Version for Player {
    open spec fn spec_entity(self) -> u32 {
        self.player_id
    }

    open spec fn spec_key(self) -> u64 {
        self.valid_at
    }

    fn entity(&self) -> (id: u32) {
        self.player_id
    }

    fn key(&self) -> (k: u64) {
        self.valid_at
    }
}

fn copy_player(p: &Player) -> (out: Player)
    ensures
        out == *p,
{
    Player {
        valid_at: p.valid_at,
        data_shard: p.data_shard,
        player_id: p.player_id,
        name: p.name.clone(),
        last_login_secs: p.last_login_secs,
        flags: p.flags,
    }
}

// ---- faction -------------------------------------------------------
/// A player's faction, `0..=3`.
pub fn player_faction(player: &Player) -> (f: u8)
    ensures
        f == player.flags % 4,
{
    (player.flags % 4) as u8
}

/// `p` with its faction replaced by the low two bits of `faction`.
pub open spec fn with_faction(p: Player, faction: u8) -> Player {
    Player { flags: (p.flags - p.flags % 4 + faction % 4) as u32, ..p }
}

/// A stored faction reads back, and the other flags stay.
pub proof fn faction_round_trip(p: Player, faction: u8)
    ensures
        with_faction(p, faction).flags % 4 == faction % 4,
        with_faction(p, faction).flags / 4 == p.flags / 4,
{
    let f = p.flags - p.flags % 4 + faction % 4;
    assert(0 <= f <= u32::MAX);
}

// ---- rows ----------------------------------------------------------
/// A player's row with the greatest time.
pub fn latest(tb: &Tables, player_id: u32) -> (found: Option<Player>)
    ensures
        found == history::latest(tb@.players, player_id),
{
    match history::find_prior_index(&tb.players, player_id, u64::MAX) {
        Some(i) => Some(copy_player(&tb.players[i])),
        None => None,
    }
}

/// The row named `name` with the greatest time, the last one on a tie.
pub open spec fn latest_named(rows: Seq<Player>, name: Seq<char>) -> Option<Player>
    decreases rows.len(),
{
    if rows.len() == 0 {
        None
    } else {
        let before = latest_named(rows.drop_last(), name);
        let row = rows.last();
        if row.name@ == name && (before matches Some(b) ==> history::time(b) <= history::time(
            row,
        )) {
            Some(row)
        } else {
            before
        }
    }
}

/// Find a player by name.
pub fn latest_by_name(tb: &Tables, name: &String) -> (found: Option<Player>)
    ensures
        found == latest_named(tb@.players, name@),
{
    let rows = &tb.players;
    let mut found: Option<usize> = None;
    let mut i: usize = 0;
    while i < rows.len()
        invariant
            i <= rows.len(),
            rows@ == tb@.players,
            match found {
                Some(k) => k < i && latest_named(rows@.take(i as int), name@) == Some(
                    rows@[k as int],
                ),
                None => latest_named(rows@.take(i as int), name@) is None,
            },
        decreases rows.len() - i,
    {
        proof {
            let next = rows@.take(i + 1);
            assert(next.drop_last() =~= rows@.take(i as int));
            assert(next.last() == rows@[i as int]);
        }
        if rows[i].name == *name {
            match found {
                Some(k) => {
                    if packed::valid_at_time(rows[k].valid_at) <= packed::valid_at_time(
                        rows[i].valid_at,
                    ) {
                        found = Some(i);
                    }
                },
                None => {
                    found = Some(i);
                },
            }
        }
        i = i + 1;
    }
    assert(rows@.take(rows.len() as int) =~= rows@);
    match found {
        Some(k) => Some(copy_player(&rows[k])),
        None => None,
    }
}

/// `db` after storing `player` as the version at `time_ms`.
pub open spec fn player_written(db: Db, player: Player, time_ms: u64) -> Db {
    let row = Player { valid_at: packed::valid_at_key(time_ms, db.next_sequence), ..player };
    Db {
        players: history::stored(db.players, row, time_ms),
        next_sequence: tables::sequence_after(db.next_sequence),
        ..db
    }
}

/// Store a player row at `time_ms`; the last write at a time wins.
pub fn write_at(tb: &mut Tables, player: Player, time_ms: u64)
    ensures
        final(tb)@ == player_written(old(tb)@, player, time_ms),
{
    let seq: u16 = tb.take_sequence();
    let mut row = player;
    row.valid_at = packed::pack_valid_at(time_ms, seq);
    history::store(&mut tb.players, row, time_ms);
}

/// The first record of a player.
pub open spec fn fresh_player(player_id: u32, name: String) -> Player {
    Player {
        valid_at: 0,
        data_shard: cards::DATA_SHARD,
        player_id,
        name,
        last_login_secs: 0,
        flags: 0,
    }
}

/// Create a player with a first row at `time_ms`.
pub fn create_at(tb: &mut Tables, player_id: u32, name: String, time_ms: u64)
    ensures
        final(tb)@ == player_written(old(tb)@, fresh_player(player_id, name), time_ms),
{
    write_at(
        tb,
        Player {
            valid_at: 0,
            data_shard: cards::DATA_SHARD,
            player_id,
            name,
            last_login_secs: 0,
            flags: 0,
        },
        time_ms,
    );
}

/// Create a player with a first row now.
pub fn create(e: &Env, tb: &mut Tables, player_id: u32, name: String)
    ensures
        final(tb)@ == player_written(old(tb)@, fresh_player(player_id, name), e.now_ms),
{
    create_at(tb, player_id, name, e.now_ms);
}

/// The row that a write at `time_ms` stores.
pub open spec fn stamped(db: Db, player: Player, time_ms: u64) -> Player {
    Player { valid_at: packed::valid_at_key(time_ms, db.next_sequence), ..player }
}

/// Edit the row in force at `time_ms` and store the result then. Gives the
/// stored row, or `None`, with nothing written, where no row is in force.
pub fn update_with_at<F: FnOnce(Player) -> Player>(
    tb: &mut Tables,
    player_id: u32,
    time_ms: u64,
    f: F,
) -> (row: Option<Player>)
    requires
        forall|p: Player| #[trigger] f.requires((p,)),
    ensures
        match history::prior_at(old(tb)@.players, player_id, time_ms) {
            None => row is None && final(tb)@ == old(tb)@,
            Some(p) => exists|edited: Player|
                #![trigger player_written(old(tb)@, edited, time_ms)]
                f.ensures((p,), edited) && final(tb)@ == player_written(old(tb)@, edited, time_ms)
                    && row == Some(stamped(old(tb)@, edited, time_ms)),
        },
{
    match history::find_prior_index(&tb.players, player_id, time_ms) {
        None => None,
        Some(i) => {
            let p: Player = copy_player(&tb.players[i]);
            let edited: Player = f(p);
            let mut row: Player = copy_player(&edited);
            row.valid_at = packed::pack_valid_at(time_ms, tb.next_sequence);
            write_at(tb, edited, time_ms);
            Some(row)
        },
    }
}

/// Edit the row in force now and store the result now.
pub fn update_with<F: FnOnce(Player) -> Player>(e: &Env, tb: &mut Tables, player_id: u32, f: F) -> (row:
    Option<Player>)
    requires
        forall|p: Player| #[trigger] f.requires((p,)),
    ensures
        match history::prior_at(old(tb)@.players, player_id, e.now_ms) {
            None => row is None && final(tb)@ == old(tb)@,
            Some(p) => exists|edited: Player|
                #![trigger player_written(old(tb)@, edited, e.now_ms)]
                f.ensures((p,), edited) && final(tb)@ == player_written(old(tb)@, edited, e.now_ms)
                    && row == Some(stamped(old(tb)@, edited, e.now_ms)),
        },
{
    update_with_at(tb, player_id, e.now_ms, f)
}

/// The outcome of setting a player's faction at `time_ms`.
pub open spec fn faction_set(db: Db, player_id: u32, time_ms: u64, faction: u8) -> (
    Db,
    Result<(), PlayerError>,
) {
    match history::prior_at(db.players, player_id, time_ms) {
        None => (db, Err(PlayerError::PlayerNotFound { player_id })),
        Some(p) => (player_written(db, with_faction(p, faction), time_ms), Ok(())),
    }
}

/// Re-pack a player's faction and store the result at `time_ms`.
pub fn set_faction(tb: &mut Tables, player_id: u32, time_ms: u64, faction: u8) -> (r: Result<
    (),
    PlayerError,
>)
    ensures
        (final(tb)@, r) == faction_set(old(tb)@, player_id, time_ms, faction),
{
    match history::find_prior_index(&tb.players, player_id, time_ms) {
        None => Err(PlayerError::PlayerNotFound { player_id }),
        Some(i) => {
            let mut p: Player = copy_player(&tb.players[i]);
            p.flags = p.flags - p.flags % 4 + (faction % 4) as u32;
            write_at(tb, p, time_ms);
            Ok(())
        },
    }
}

// ---- names ---------------------------------------------------------
/// A Unicode white-space character.
pub open spec fn is_space(c: char) -> bool {
    let n = c as u32;
    ||| 0x9 <= n <= 0xD
    ||| n == 0x20
    ||| n == 0x85
    ||| n == 0xA0
    ||| n == 0x1680
    ||| 0x2000 <= n <= 0x200A
    ||| n == 0x2028
    ||| n == 0x2029
    ||| n == 0x202F
    ||| n == 0x205F
    ||| n == 0x3000
}

/// A Unicode control character.
pub open spec fn is_control(c: char) -> bool {
    let n = c as u32;
    n <= 0x1F || 0x7F <= n <= 0x9F
}

fn space(c: char) -> (r: bool)
    ensures
        r == is_space(c),
{
    let n: u32 = c as u32;
    (0x9 <= n && n <= 0xD) || n == 0x20 || n == 0x85 || n == 0xA0 || n == 0x1680 || (0x2000 <= n
        && n <= 0x200A) || n == 0x2028 || n == 0x2029 || n == 0x202F || n == 0x205F || n == 0x3000
}

fn control(c: char) -> (r: bool)
    ensures
        r == is_control(c),
{
    let n: u32 = c as u32;
    n <= 0x1F || (0x7F <= n && n <= 0x9F)
}

/// Length of a text in UTF-8 bytes.
pub open spec fn byte_len(name: Seq<char>) -> usize {
    vstd::utf8::encode_utf8(name).len() as usize
}

/// What is wrong with a name, if anything. Blank names and control characters
/// are rejected; the length is bounded in bytes.
pub open spec fn name_error(name: Seq<char>) -> Option<PlayerError> {
    if name.len() == 0 {
        Some(PlayerError::NameEmpty)
    } else if forall|i: int| 0 <= i < name.len() ==> is_space(#[trigger] name[i]) {
        Some(PlayerError::NameBlank)
    } else if exists|i: int| 0 <= i < name.len() && is_control(#[trigger] name[i]) {
        Some(PlayerError::NameControl)
    } else if byte_len(name) > MAX_PLAYER_NAME_LEN {
        Some(PlayerError::NameTooLong { len: byte_len(name) })
    } else {
        None
    }
}

/// Validate a name before it is stored.
pub fn validate_player_name(name: &str) -> (r: Result<(), PlayerError>)
    ensures
        r == match name_error(name@) {
            Some(err) => Err(err),
            None => Ok::<(), PlayerError>(()),
        },
{
    if name.is_empty() {
        return Err(PlayerError::NameEmpty);
    }
    let mut blank: bool = true;
    let mut controls: bool = false;
    let ghost mut bad: int = 0;
    for c in it: name.chars()
        invariant
            it.seq() == name@,
            blank <==> forall|i: int| 0 <= i < it.index() ==> is_space(#[trigger] name@[i]),
            controls ==> 0 <= bad < it.index() && is_control(name@[bad]),
            !controls ==> forall|i: int| 0 <= i < it.index() ==> !is_control(#[trigger] name@[i]),
    {
        let ghost k = it.index() as int;
        assert(name@[k] == c);
        if !space(c) {
            blank = false;
        }
        if control(c) {
            proof {
                bad = k;
            }
            controls = true;
        }
    }
    if blank {
        return Err(PlayerError::NameBlank);
    }
    if controls {
        return Err(PlayerError::NameControl);
    }
    if name.len() > MAX_PLAYER_NAME_LEN {
        return Err(PlayerError::NameTooLong { len: name.len() });
    }
    Ok(())
}

// ---- profiles ------------------------------------------------------
/// Index of a player's profile.
pub open spec fn profile_index(rows: Seq<PlayerProfile>, player_id: u32) -> Option<int>
    decreases rows.len(),
{
    if rows.len() == 0 {
        None
    } else if rows.last().player_id == player_id {
        Some(rows.len() - 1)
    } else {
        profile_index(rows.drop_last(), player_id)
    }
}

pub fn find_profile(tb: &Tables, player_id: u32) -> (found: Option<usize>)
    ensures
        match found {
            Some(i) => profile_index(tb@.player_profiles, player_id) == Some(i as int) && i
                < tb@.player_profiles.len(),
            None => profile_index(tb@.player_profiles, player_id) is None,
        },
{
    let mut i: usize = tb.player_profiles.len();
    assert(tb@.player_profiles.take(i as int) =~= tb@.player_profiles);
    while i > 0
        invariant
            i <= tb.player_profiles.len(),
            profile_index(tb@.player_profiles, player_id) == profile_index(
                tb@.player_profiles.take(i as int),
                player_id,
            ),
        decreases i,
    {
        let ghost head = tb@.player_profiles.take(i as int);
        assert(head.drop_last() =~= tb@.player_profiles.take(i - 1));
        assert(head.last() == tb@.player_profiles[i - 1]);
        i = i - 1;
        if tb.player_profiles[i].player_id == player_id {
            return Some(i);
        }
    }
    None
}

/// `db` with a player's magnetic summary recomputed; nothing for the world or
/// for a player without a profile.
pub open spec fn resynced(db: Db, player_id: u32) -> Db {
    if player_id == 0 {
        db
    } else {
        match profile_index(db.player_profiles, player_id) {
            None => db,
            Some(i) => {
                let s = lifecycle_pending::summary(db.lifecycle_pending, player_id);
                Db {
                    player_profiles: db.player_profiles.update(
                        i,
                        PlayerProfile {
                            lifecycle_count: s.0,
                            earliest_lifecycle_expires_ms: s.1,
                            ..db.player_profiles[i]
                        },
                    ),
                    ..db
                }
            },
        }
    }
}

/// Recompute a player's magnetic summary from the detail rows.
pub fn resync_lifecycle_summary(tb: &mut Tables, player_id: u32)
    ensures
        final(tb)@ == resynced(old(tb)@, player_id),
{
    if player_id == 0 {
        return;
    }
    let s: (u32, u64) = lifecycle_pending::summarize_for_player(tb, player_id);
    match find_profile(tb, player_id) {
        None => {},
        Some(i) => {
            let mut profile = tb.player_profiles[i];
            profile.lifecycle_count = s.0;
            profile.earliest_lifecycle_expires_ms = s.1;
            tb.player_profiles.set(i, profile);
        },
    }
}

// ---- sessions ------------------------------------------------------
/// The player behind a connection.
pub open spec fn session_player(rows: Seq<PlayerSession>, caller: ConnectionId) -> Option<u32>
    decreases rows.len(),
{
    if rows.len() == 0 {
        None
    } else if rows.last().identity == caller {
        Some(rows.last().player_id)
    } else {
        session_player(rows.drop_last(), caller)
    }
}

/// Resolve the calling connection to its player.
pub fn resolve_caller(tb: &Tables, caller: ConnectionId) -> (r: Result<u32, PlayerError>)
    ensures
        r == match session_player(tb@.player_sessions, caller) {
            Some(p) => Ok(p),
            None => Err::<u32, PlayerError>(PlayerError::NoSession),
        },
{
    let rows = &tb.player_sessions;
    let mut i: usize = rows.len();
    assert(rows@.take(i as int) =~= rows@);
    while i > 0
        invariant
            i <= rows.len(),
            rows@ == tb@.player_sessions,
            session_player(rows@, caller) == session_player(rows@.take(i as int), caller),
        decreases i,
    {
        let ghost head = rows@.take(i as int);
        assert(head.drop_last() =~= rows@.take(i - 1));
        assert(head.last() == rows@[i - 1]);
        i = i - 1;
        if rows[i].identity == caller {
            return Ok(rows[i].player_id);
        }
    }
    Err(PlayerError::NoSession)
}

pub open spec fn other_connection(caller: ConnectionId) -> spec_fn(PlayerSession) -> bool {
    |s: PlayerSession| s.identity != caller
}

pub open spec fn other_player(player_id: u32) -> spec_fn(PlayerSession) -> bool {
    |s: PlayerSession| s.player_id != player_id
}

/// Drop the session of a connection, if it has one.
pub fn client_disconnected(tb: &mut Tables, caller: ConnectionId)
    ensures
        final(tb)@ == (Db {
            player_sessions: old(tb)@.player_sessions.filter(other_connection(caller)),
            ..old(tb)@
        }),
{
    let mut kept: Vec<PlayerSession> = Vec::new();
    let mut i: usize = 0;
    let ghost all = tb@.player_sessions;
    let ghost keep = other_connection(caller);
    proof {
        reveal(Seq::filter);
        assert(all.take(0).filter(keep) =~= Seq::empty());
    }
    while i < tb.player_sessions.len()
        invariant
            i <= tb.player_sessions.len(),
            tb@.player_sessions == all,
            keep == other_connection(caller),
            kept@ == all.take(i as int).filter(keep),
        decreases tb.player_sessions.len() - i,
    {
        let row = tb.player_sessions[i];
        proof {
            history::filter_take_step(all, i as int, keep);
        }
        if !(row.identity == caller) {
            kept.push(row);
        }
        i = i + 1;
    }
    assert(all.take(all.len() as int) =~= all);
    tb.player_sessions = kept;
}

// ---- login ---------------------------------------------------------
/// The greatest player id, `0` for an empty table.
pub open spec fn max_player_id(rows: Seq<Player>) -> u32
    decreases rows.len(),
{
    if rows.len() == 0 {
        0
    } else {
        let before = max_player_id(rows.drop_last());
        if rows.last().player_id > before {
            rows.last().player_id
        } else {
            before
        }
    }
}

pub open spec fn successor(id: u32) -> u32 {
    if id == u32::MAX {
        id
    } else {
        (id + 1) as u32
    }
}

/// The id that the allocator hands out next.
pub open spec fn next_id(db: Db) -> u32 {
    match db.player_id_counter {
        Some(c) => c.next,
        None => {
            let m = successor(max_player_id(db.players));
            if m < FIRST_PLAYER_ID {
                FIRST_PLAYER_ID
            } else {
                m
            }
        },
    }
}

/// `db` after handing out one player id.
pub open spec fn id_taken(db: Db) -> Db {
    Db {
        player_id_counter: Some(PlayerIdCounter { id: 0, next: successor(next_id(db)) }),
        ..db
    }
}

/// Allocate a player id. The first call scans the players; later ones count on.
fn next_player_id(tb: &mut Tables) -> (id: u32)
    ensures
        id == next_id(old(tb)@),
        final(tb)@ == id_taken(old(tb)@),
{
    let allocated: u32 = match tb.player_id_counter {
        Some(c) => c.next,
        None => {
            let mut max: u32 = 0;
            let mut i: usize = 0;
            while i < tb.players.len()
                invariant
                    i <= tb.players.len(),
                    max == max_player_id(tb@.players.take(i as int)),
                decreases tb.players.len() - i,
            {
                let id: u32 = tb.players[i].player_id;
                proof {
                    let next = tb@.players.take(i + 1);
                    assert(next.drop_last() =~= tb@.players.take(i as int));
                    assert(next.last() == tb@.players[i as int]);
                }
                if id > max {
                    max = id;
                }
                i = i + 1;
            }
            assert(tb@.players.take(tb@.players.len() as int) =~= tb@.players);
            let m: u32 = if max == u32::MAX {
                max
            } else {
                max + 1
            };
            if m < FIRST_PLAYER_ID {
                FIRST_PLAYER_ID
            } else {
                m
            }
        },
    };
    let next: u32 = if allocated == u32::MAX {
        allocated
    } else {
        allocated + 1
    };
    tb.player_id_counter = Some(PlayerIdCounter { id: 0, next });
    allocated
}

/// A first allocation is never a reserved id, and two in a row differ.
pub proof fn player_ids_are_fresh(db: Db)
    requires
        db.player_id_counter matches Some(c) ==> FIRST_PLAYER_ID <= c.next,
    ensures
        next_id(db) >= FIRST_PLAYER_ID,
        next_id(db) < u32::MAX ==> next_id(id_taken(db)) == next_id(db) + 1,
        id_taken(db).player_id_counter matches Some(c) ==> FIRST_PLAYER_ID <= c.next,
{
}

/// The server time as a client with the usual buffer sees it.
pub open spec fn buffered_now(e: Env) -> u64 {
    if e.now_ms >= cards::TIME_DRIFT_BUFFER_MS {
        (e.now_ms - cards::TIME_DRIFT_BUFFER_MS) as u64
    } else {
        0
    }
}

fn buffered(e: &Env) -> (t: u64)
    ensures
        t == buffered_now(*e),
{
    if e.now_ms >= cards::TIME_DRIFT_BUFFER_MS {
        e.now_ms - cards::TIME_DRIFT_BUFFER_MS
    } else {
        0
    }
}

/// `db` after stamping a login of `player_id` at `t`; nothing for a player
/// without a row in force.
pub open spec fn login_stamped(db: Db, player_id: u32, t: u64) -> Db {
    match history::prior_at(db.players, player_id, t) {
        None => db,
        Some(p) => player_written(db, Player { last_login_secs: (t / 1_000) as u32, ..p }, t),
    }
}

fn stamp_login(tb: &mut Tables, player_id: u32, t: u64)
    ensures
        final(tb)@ == login_stamped(old(tb)@, player_id, t),
{
    match history::find_prior_index(&tb.players, player_id, t) {
        None => {},
        Some(i) => {
            let mut p: Player = copy_player(&tb.players[i]);
            p.last_login_secs = (t / 1_000) as u32;
            write_at(tb, p, t);
        },
    }
}

/// Stamp the caller's last login.
pub fn set_last_login(e: &Env, tb: &mut Tables, caller: ConnectionId) -> (r: Result<(), PlayerError>)
    ensures
        match session_player(old(tb)@.player_sessions, caller) {
            None => r == Err::<(), PlayerError>(PlayerError::NoSession) && final(tb)@ == old(tb)@,
            Some(p) => r == Ok::<(), PlayerError>(()) && final(tb)@ == login_stamped(
                old(tb)@,
                p,
                buffered_now(*e),
            ),
        },
{
    match resolve_caller(tb, caller) {
        Err(err) => Err(err),
        Ok(player_id) => {
            stamp_login(tb, player_id, buffered(e));
            Ok(())
        },
    }
}

/// `db` after registering a new player called `name`, who may use the first starter
/// pack.
pub open spec fn registered(db: Db, name: String, t: u64) -> Db {
    let id = next_id(db);
    let d = player_written(id_taken(db), fresh_player(id, name), t);
    Db {
        player_profiles: d.player_profiles.push(
            PlayerProfile {
                player_id: id,
                data_shard: cards::DATA_SHARD,
                lifecycle_count: 0,
                earliest_lifecycle_expires_ms: 0,
            },
        ),
        rosters: d.rosters.push(rosters::fresh_roster(id)),
        ..d
    }
}

/// `db` after binding a connection to a player and stamping the login.
pub open spec fn session_opened(db: Db, caller: ConnectionId, player_id: u32, t: u64) -> Db {
    login_stamped(
        Db {
            player_sessions: db.player_sessions.filter(other_connection(caller)).push(
                PlayerSession { identity: caller, player_id },
            ),
            ..db
        },
        player_id,
        t,
    )
}

/// The outcome of a login: an unknown name is registered, a reserved player
/// cannot be claimed.
pub open spec fn logged_in(e: Env, db: Db, caller: ConnectionId, name: String) -> (
    Db,
    Result<(), PlayerError>,
) {
    let t = buffered_now(e);
    match name_error(name@) {
        Some(err) => (db, Err(err)),
        None => match latest_named(db.players, name@) {
            Some(p) => if p.player_id < FIRST_PLAYER_ID {
                (db, Err(PlayerError::NameReserved))
            } else {
                (session_opened(db, caller, p.player_id, t), Ok(()))
            },
            None => (
                session_opened(registered(db, name, t), caller, next_id(db), t),
                Ok(()),
            ),
        },
    }
}

/// Register or log in by name, and bind the caller's connection to the player.
pub fn claim_or_login(e: &Env, tb: &mut Tables, caller: ConnectionId, name: String) -> (r: Result<
    (),
    PlayerError,
>)
    ensures
        (final(tb)@, r) == logged_in(*e, old(tb)@, caller, name),
{
    match validate_player_name(name.as_str()) {
        Err(err) => {
            return Err(err);
        },
        Ok(_) => {},
    }
    let t: u64 = buffered(e);
    let player_id: u32 = match latest_by_name(tb, &name) {
        Some(p) => {
            if p.player_id < FIRST_PLAYER_ID {
                return Err(PlayerError::NameReserved);
            }
            p.player_id
        },
        None => {
            let id: u32 = next_player_id(tb);
            create_at(tb, id, name, t);
            tb.player_profiles.push(
                PlayerProfile {
                    player_id: id,
                    data_shard: cards::DATA_SHARD,
                    lifecycle_count: 0,
                    earliest_lifecycle_expires_ms: 0,
                },
            );
            tb.rosters.push(
                Roster {
                    player_id: id,
                    starter_packs: 1,
                    soul_info: character_creation::DEFAULT_SOULS_PER_PLAYER,
                },
            );
            id
        },
    };
    client_disconnected(tb, caller);
    tb.player_sessions.push(PlayerSession { identity: caller, player_id });
    stamp_login(tb, player_id, t);
    Ok(())
}

/// After a login the connection resolves to the player; after a disconnect it
/// resolves to nobody.
pub proof fn login_binds_caller(db: Db, caller: ConnectionId, player_id: u32, t: u64)
    ensures
        session_player(session_opened(db, caller, player_id, t).player_sessions, caller) == Some(
            player_id,
        ),
        session_player(db.player_sessions.filter(other_connection(caller)), caller) is None,
{
    lemma_no_session(db.player_sessions, caller);
    let rows = db.player_sessions.filter(other_connection(caller)).push(
        PlayerSession { identity: caller, player_id },
    );
    assert(rows.last().identity == caller);
}

proof fn lemma_no_session(rows: Seq<PlayerSession>, caller: ConnectionId)
    ensures
        session_player(rows.filter(other_connection(caller)), caller) is None,
    decreases rows.len(),
{
    reveal(Seq::filter);
    if rows.len() > 0 {
        lemma_no_session(rows.drop_last(), caller);
        let before = rows.drop_last().filter(other_connection(caller));
        assert(before.push(rows.last()).drop_last() =~= before);
    }
}

// ---- starter souls -------------------------------------------------
/// Surface of the player soul, which is never rendered.
pub const PLAYER_SOUL_SURFACE: u8 = 0;

/// The card in force under `id` is a soul that the player owns directly.
pub open spec fn owns_directly(e: Env, db: Db, id: u32, player_id: u32) -> bool {
    match cards::current(e, db, id) {
        None => false,
        Some(c) => c.owner_id == player_id && cards::player_owned(e, c),
    }
}

/// The souls that a player owns now, each once, in the order in which `prefix`
/// first shows them.
pub open spec fn owned_souls(e: Env, db: Db, prefix: Seq<Card>, player_id: u32) -> Seq<u32>
    decreases prefix.len(),
{
    if prefix.len() == 0 {
        Seq::empty()
    } else {
        let before = owned_souls(e, db, prefix.drop_last(), player_id);
        let row = prefix.last();
        if row.owner_id == player_id && !before.contains(row.card_id) && owns_directly(
            e,
            db,
            row.card_id,
            player_id,
        ) {
            before.push(row.card_id)
        } else {
            before
        }
    }
}

/// Count the distinct souls that a player owns directly. The count is reduced
/// modulo `2^32`.
fn owned_soul_count(e: &Env, tb: &Tables, player_id: u32) -> (n: u32)
    ensures
        n == owned_souls(*e, tb@, tb@.cards, player_id).len() as u32,
{
    let mut out: Vec<u32> = Vec::new();
    let mut i: usize = 0;
    while i < tb.cards.len()
        invariant
            i <= tb.cards.len(),
            out@ == owned_souls(*e, tb@, tb@.cards.take(i as int), player_id),
        decreases tb.cards.len() - i,
    {
        let row = tb.cards[i];
        proof {
            let next = tb@.cards.take(i + 1);
            assert(next.drop_last() =~= tb@.cards.take(i as int));
            assert(next.last() == row);
        }
        if row.owner_id == player_id && !cards::holds_id(&out, row.card_id) {
            match cards::latest(e, tb, row.card_id) {
                None => {},
                Some(c) => {
                    if c.owner_id == player_id && c.flags_state & e.state.is_owned_by_player != 0 {
                        out.push(row.card_id);
                    }
                },
            }
        }
        i = i + 1;
    }
    assert(tb@.cards.take(tb@.cards.len() as int) =~= tb@.cards);
    out.len() as u32
}

/// The portrait picked for a soul: a mix of the time, the player and the card.
pub open spec fn portrait_pick(t: u64, player_id: u32, card_id: u32) -> u8 {
    let seed = (t as u32) ^ ((t >> 32) as u32) ^ player_id ^ card_id;
    ((seed ^ (seed >> 4)) & 0xF) as u8
}

/// Pick a soul's portrait.
pub fn pick_portrait(t: u64, player_id: u32, card_id: u32) -> (id: u8)
    ensures
        id == portrait_pick(t, player_id, card_id),
{
    let seed: u32 = (t as u32) ^ ((t >> 32) as u32) ^ player_id ^ card_id;
    ((seed ^ (seed >> 4)) & 0xF) as u8
}

pub open spec fn empty_private(card_id: u32) -> SoulPrivate {
    SoulPrivate {
        card_id,
        data_shard: cards::DATA_SHARD,
        blueprints_0: 0,
        active_blueprints: 0,
    }
}

/// A card about to be created loose on the first cell of `macro_zone`, under the next
/// id.
pub open spec fn spawned_card(
    e: Env,
    db: Db,
    macro_zone: u64,
    surface: u8,
    owner_id: u32,
    def: u16,
    flags_state: u32,
) -> Card {
    cards::fresh_card(
        e,
        cards::next_id(db),
        macro_zone,
        Micro::Loose { local_q: 0, local_r: 0, x: 0, y: 0, kind: e.loose_kinds@[surface as int] },
        owner_id,
        def,
        flags_state,
        0,
    )
}

/// `db` after creating a card loose on the first cell of `macro_zone`, under a
/// fresh id.
pub open spec fn spawned(
    e: Env,
    db: Db,
    t: u64,
    macro_zone: u64,
    surface: u8,
    owner_id: u32,
    def: u16,
    flags_state: u32,
) -> Db {
    cards::after_write(
        e,
        cards::id_taken(db),
        spawned_card(e, db, macro_zone, surface, owner_id, def, flags_state),
        t,
    )
}

/// Create a card loose on the first cell of `macro_zone`, under the id that was
/// just allocated.
fn spawn(
    e: &Env,
    tb: &mut Tables,
    id: u32,
    t: u64,
    macro_zone: u64,
    surface: u8,
    owner_id: u32,
    def: u16,
    flags_state: u32,
    Ghost(before): Ghost<Db>,
)
    requires
        e.wf(),
        old(tb)@ == cards::id_taken(before),
        id == cards::next_id(before),
    ensures
        final(tb)@ == spawned(*e, before, t, macro_zone, surface, owner_id, def, flags_state),
{
    let m = Micro::snap(0, 0, e.loose_kind_for_surface(surface));
    let _ = cards::create_at(e, tb, id, t, macro_zone, m, owner_id, def, flags_state, 0);
}

/// `db` after a soul and its private row came to be. The soul belongs to
/// `owner_id`, and its portrait is picked for `player_id`.
pub open spec fn soul_spawned(
    e: Env,
    db: Db,
    t: u64,
    macro_zone: u64,
    surface: u8,
    owner_id: u32,
    player_id: u32,
    def: u16,
    flags_state: u32,
) -> Db {
    let id = cards::next_id(db);
    let d = spawned(
        e,
        db,
        t,
        macro_zone,
        surface,
        owner_id,
        def,
        souls::portrayed(flags_state, portrait_pick(t, player_id, id)),
    );
    Db { soul_privates: d.soul_privates.push(empty_private(id)), ..d }
}

fn spawn_one_soul(
    e: &Env,
    tb: &mut Tables,
    t: u64,
    macro_zone: u64,
    surface: u8,
    owner_id: u32,
    player_id: u32,
    def: u16,
    flags_state: u32,
) -> (id: u32)
    requires
        e.wf(),
    ensures
        id == cards::next_id(old(tb)@),
        final(tb)@ == soul_spawned(
            *e,
            old(tb)@,
            t,
            macro_zone,
            surface,
            owner_id,
            player_id,
            def,
            flags_state,
        ),
{
    let ghost before = tb@;
    let id: u32 = cards::next_card_id(tb);
    let flags: u32 = souls::with_portrait(flags_state, pick_portrait(t, player_id, id));
    spawn(e, tb, id, t, macro_zone, surface, owner_id, def, flags, Ghost(before));
    tb.soul_privates.push(
        SoulPrivate {
            card_id: id,
            data_shard: cards::DATA_SHARD,
            blueprints_0: 0,
            active_blueprints: 0,
        },
    );
    id
}

/// `db` after giving a player two souls: a player soul that is never rendered, and
/// a human on the world that the soul owns.
pub open spec fn souls_given(
    e: Env,
    db: Db,
    player_id: u32,
    t: u64,
    soul_def: u16,
    human_def: u16,
) -> Db {
    let soul_id = cards::next_id(db);
    let d1 = soul_spawned(
        e,
        db,
        t,
        packed::on_surface(packed::macro_zone_key(0, 0, 0, 0), PLAYER_SOUL_SURFACE),
        PLAYER_SOUL_SURFACE,
        player_id,
        player_id,
        soul_def,
        e.state.is_owned_by_player,
    );
    soul_spawned(
        e,
        d1,
        t,
        packed::macro_zone_key(0, packed::WORLD_LAYER, 0, 0),
        packed::WORLD_LAYER,
        soul_id,
        player_id,
        human_def,
        0,
    )
}

/// The id of the human among two souls given to a player.
pub open spec fn human_given(e: Env, db: Db, player_id: u32, t: u64, soul_def: u16) -> u32 {
    cards::next_id(
        soul_spawned(
            e,
            db,
            t,
            packed::on_surface(packed::macro_zone_key(0, 0, 0, 0), PLAYER_SOUL_SURFACE),
            PLAYER_SOUL_SURFACE,
            player_id,
            player_id,
            soul_def,
            e.state.is_owned_by_player,
        ),
    )
}

fn give_souls(
    e: &Env,
    tb: &mut Tables,
    player_id: u32,
    t: u64,
    soul_def: u16,
    human_def: u16,
) -> (human_id: u32)
    requires
        e.wf(),
    ensures
        final(tb)@ == souls_given(*e, old(tb)@, player_id, t, soul_def, human_def),
        human_id == human_given(*e, old(tb)@, player_id, t, soul_def),
{
    let soul_id: u32 = spawn_one_soul(
        e,
        tb,
        t,
        packed::with_surface(packed::pack_macro_zone(0, 0), PLAYER_SOUL_SURFACE),
        PLAYER_SOUL_SURFACE,
        player_id,
        player_id,
        soul_def,
        e.state.is_owned_by_player,
    );
    spawn_one_soul(
        e,
        tb,
        t,
        packed::pack_macro_zone_full(0, packed::WORLD_LAYER, 0, 0),
        packed::WORLD_LAYER,
        soul_id,
        player_id,
        human_def,
        0,
    )
}

/// `db` after giving a player the starter set: two souls, and `loadout` in the
/// human's inventory.
pub open spec fn starter_set(
    e: Env,
    db: Db,
    player_id: u32,
    t: u64,
    soul_def: u16,
    human_def: u16,
    loadout: Seq<u16>,
) -> Db {
    inventory_filled(
        e,
        souls_given(e, db, player_id, t, soul_def, human_def),
        human_given(e, db, player_id, t, soul_def),
        t,
        loadout,
    )
}

/// `db` after creating one card per entry of `loadout` in the inventory of
/// `holder`.
pub open spec fn inventory_filled(e: Env, db: Db, holder: u32, t: u64, loadout: Seq<u16>) -> Db
    decreases loadout.len(),
{
    if loadout.len() == 0 {
        db
    } else {
        spawned(
            e,
            inventory_filled(e, db, holder, t, loadout.drop_last()),
            t,
            packed::macro_zone_key(holder, packed::INVENTORY_LAYER, 0, 0),
            packed::INVENTORY_LAYER,
            holder,
            loadout.last(),
            0,
        )
    }
}

fn fill_inventory(e: &Env, tb: &mut Tables, holder: u32, t: u64, loadout: &Vec<u16>)
    requires
        e.wf(),
    ensures
        final(tb)@ == inventory_filled(*e, old(tb)@, holder, t, loadout@),
{
    let ghost base = tb@;
    let mut i: usize = 0;
    assert(loadout@.take(0) =~= Seq::empty());
    while i < loadout.len()
        invariant
            i <= loadout.len(),
            e.wf(),
            tb@ == inventory_filled(*e, base, holder, t, loadout@.take(i as int)),
        decreases loadout.len() - i,
    {
        let ghost before = tb@;
        let id: u32 = cards::next_card_id(tb);
        let zone: u64 = packed::pack_macro_zone_full(holder, packed::INVENTORY_LAYER, 0, 0);
        spawn(e, tb, id, t, zone, packed::INVENTORY_LAYER, holder, loadout[i], 0, Ghost(before));
        proof {
            let next = loadout@.take(i + 1);
            assert(next.drop_last() =~= loadout@.take(i as int));
            assert(next.last() == loadout@[i as int]);
        }
        i = i + 1;
    }
    assert(loadout@.take(loadout@.len() as int) =~= loadout@);
}

/// Give a player the starter set.
pub fn give_starter_set(
    e: &Env,
    tb: &mut Tables,
    player_id: u32,
    t: u64,
    soul_def: u16,
    human_def: u16,
    loadout: &Vec<u16>,
)
    requires
        e.wf(),
    ensures
        final(tb)@ == starter_set(*e, old(tb)@, player_id, t, soul_def, human_def, loadout@),
{
    let human_id: u32 = give_souls(e, tb, player_id, t, soul_def, human_def);
    fill_inventory(e, tb, human_id, t, loadout);
}

/// `db` after seeding the inventory of a soul as a region of its own.
pub open spec fn inventory_region_seeded(db: Db, soul: u32, t: u64) -> Db {
    let s = regions::inventory_seeded(db.regions, db.next_sequence, soul, t);
    Db { regions: s.0, next_sequence: s.1, ..db }
}

/// The outcome of granting a player the starter soul out of the catalog.
pub open spec fn starter_granted(e: Env, db: Db, player_id: u32, t: u64) -> (
    Db,
    Result<(), PlayerError>,
) {
    let defs = e.catalog.definitions@;
    match content::packed_by_key(defs, "player_soul"@) {
        None => (db, Err(PlayerError::NoSoulDefinition)),
        Some(soul) => match content::packed_by_key(defs, "human"@) {
            None => (db, Err(PlayerError::NoHumanDefinition)),
            Some(human) => match content::packed_by_key(defs, "dust"@) {
                None => (db, Err(PlayerError::NoDustDefinition)),
                Some(dust) => {
                    let human_id = human_given(e, db, player_id, t, soul);
                    let given = souls_given(e, db, player_id, t, soul, human);
                    (
                        inventory_filled(
                            e,
                            inventory_region_seeded(given, human_id, t),
                            human_id,
                            t,
                            seq![dust],
                        ),
                        Ok(()),
                    )
                },
            },
        },
    }
}

fn lookup(e: &Env, key: &str) -> (p: Option<u16>)
    ensures
        p == content::packed_by_key(e.catalog.definitions@, key@),
{
    let key: String = key.to_owned();
    e.catalog.find_packed_by_key(&key)
}

/// Grant a player the starter soul, a human whose inventory is a region of its
/// own, and a dust in it. Nothing is written where a definition is missing.
pub fn spawn_soul_for(e: &Env, tb: &mut Tables, player_id: u32, time_ms: u64) -> (r: Result<
    (),
    PlayerError,
>)
    requires
        e.wf(),
    ensures
        (final(tb)@, r) == starter_granted(*e, old(tb)@, player_id, time_ms),
{
    let soul: u16 = match lookup(e, "player_soul") {
        None => {
            return Err(PlayerError::NoSoulDefinition);
        },
        Some(d) => d,
    };
    let human: u16 = match lookup(e, "human") {
        None => {
            return Err(PlayerError::NoHumanDefinition);
        },
        Some(d) => d,
    };
    let dust: u16 = match lookup(e, "dust") {
        None => {
            return Err(PlayerError::NoDustDefinition);
        },
        Some(d) => d,
    };
    let mut loadout: Vec<u16> = Vec::new();
    loadout.push(dust);
    assert(loadout@ =~= seq![dust]);
    let human_id: u32 = give_souls(e, tb, player_id, time_ms, soul, human);
    regions::seed_soul_inventory_region(
        &mut tb.regions,
        &mut tb.next_sequence,
        human_id,
        time_ms,
    );
    fill_inventory(e, tb, human_id, time_ms, &loadout);
    Ok(())
}

/// Spawn a player's soul on demand. `soul_index` is one more than the souls that
/// the client sees; a player who already owns that many is rejected.
pub fn spawn_soul(e: &Env, tb: &mut Tables, player_id: u32, soul_index: u32) -> (r: Result<
    (),
    PlayerError,
>)
    requires
        e.wf(),
    ensures
        ({
            let owned = owned_souls(*e, old(tb)@, old(tb)@.cards, player_id).len() as u32;
            (final(tb)@, r) == if owned >= soul_index {
                (old(tb)@, Err::<(), PlayerError>(PlayerError::SoulExists { owned }))
            } else {
                starter_granted(*e, old(tb)@, player_id, buffered_now(*e))
            }
        }),
{
    let owned: u32 = owned_soul_count(e, tb, player_id);
    if owned >= soul_index {
        return Err(PlayerError::SoulExists { owned });
    }
    spawn_soul_for(e, tb, player_id, buffered(e))
}

// ---- deletion ------------------------------------------------------
pub open spec fn not_owned_by(e: Env, db: Db, player_id: u32) -> spec_fn(Card) -> bool {
    |c: Card| cards::player_of(e, db, c.card_id) != Some(player_id)
}

pub open spec fn not_player(player_id: u32) -> spec_fn(Player) -> bool {
    |p: Player| p.player_id != player_id
}

/// `db` without a player: the sessions, every version of every card that the
/// player ultimately owns, and every version of the player.
pub open spec fn player_deleted(e: Env, db: Db, player_id: u32) -> Db {
    Db {
        player_sessions: db.player_sessions.filter(other_player(player_id)),
        cards: db.cards.filter(not_owned_by(e, db, player_id)),
        players: db.players.filter(not_player(player_id)),
        ..db
    }
}

/// Delete a player with sessions and cards.
pub fn delete_player(e: &Env, tb: &mut Tables, player_id: u32)
    ensures
        final(tb)@ == player_deleted(*e, old(tb)@, player_id),
{
    let ghost start = tb@;
    let mut kept_cards: Vec<Card> = Vec::new();
    let mut i: usize = 0;
    let ghost keep_card = not_owned_by(*e, start, player_id);
    proof {
        reveal(Seq::filter);
        assert(start.cards.take(0).filter(keep_card) =~= Seq::empty());
    }
    while i < tb.cards.len()
        invariant
            i <= tb.cards.len(),
            tb@ == start,
            keep_card == not_owned_by(*e, start, player_id),
            kept_cards@ == start.cards.take(i as int).filter(keep_card),
        decreases tb.cards.len() - i,
    {
        let row = tb.cards[i];
        proof {
            history::filter_take_step(start.cards, i as int, keep_card);
        }
        let mine: bool = match cards::owning_player(e, tb, row.card_id) {
            Some(p) => p == player_id,
            None => false,
        };
        if !mine {
            kept_cards.push(row);
        }
        i = i + 1;
    }
    assert(start.cards.take(start.cards.len() as int) =~= start.cards);
    let mut kept_sessions: Vec<PlayerSession> = Vec::new();
    let mut j: usize = 0;
    let ghost keep_session = other_player(player_id);
    proof {
        reveal(Seq::filter);
        assert(start.player_sessions.take(0).filter(keep_session) =~= Seq::empty());
    }
    while j < tb.player_sessions.len()
        invariant
            j <= tb.player_sessions.len(),
            tb@ == start,
            keep_session == other_player(player_id),
            kept_sessions@ == start.player_sessions.take(j as int).filter(keep_session),
        decreases tb.player_sessions.len() - j,
    {
        let row = tb.player_sessions[j];
        proof {
            history::filter_take_step(start.player_sessions, j as int, keep_session);
        }
        if row.player_id != player_id {
            kept_sessions.push(row);
        }
        j = j + 1;
    }
    assert(start.player_sessions.take(start.player_sessions.len() as int)
        =~= start.player_sessions);
    let mut kept_players: Vec<Player> = Vec::new();
    let mut k: usize = 0;
    let ghost keep_player = not_player(player_id);
    proof {
        reveal(Seq::filter);
        assert(start.players.take(0).filter(keep_player) =~= Seq::empty());
    }
    while k < tb.players.len()
        invariant
            k <= tb.players.len(),
            tb@ == start,
            keep_player == not_player(player_id),
            kept_players@ == start.players.take(k as int).filter(keep_player),
        decreases tb.players.len() - k,
    {
        proof {
            history::filter_take_step(start.players, k as int, keep_player);
        }
        if tb.players[k].player_id != player_id {
            kept_players.push(copy_player(&tb.players[k]));
        }
        k = k + 1;
    }
    assert(start.players.take(start.players.len() as int) =~= start.players);
    tb.cards = kept_cards;
    tb.player_sessions = kept_sessions;
    tb.players = kept_players;
}

} // verus!
