//! Character creation: a soul from a starter pack, with its starting inventory.
use vstd::prelude::*;

use crate::cards::cards;
use crate::cards::env::Env;
use crate::cards::gate_api;
use crate::cards::keys;
use crate::cards::micro::Micro;
use crate::cards::utilities;
use crate::content;
use crate::history;
use crate::packed;
use crate::players::lifecycle_pending;
use crate::players::lifecycle_pending::Blocked;
use crate::players::players;
use crate::players::players::ConnectionId;
use crate::players::players::PlayerError;
use crate::players::rosters;
use crate::players::rosters::Roster;
use crate::players::souls;
use crate::players::souls::SoulPrivate;
use crate::tables::Db;
use crate::tables::Tables;
use crate::time;
use crate::time::TimeDrift;

verus! {

/// Souls that a new player may own.
pub const DEFAULT_SOULS_PER_PLAYER: u8 = 5;

/// Copies of a card in a starter pack.
#[derive(Clone, Copy, Debug, PartialEq, Eq, Structural)]
pub struct StarterItem {
    pub packed_definition: u16,
    pub count: u32,
}

/// A starter pack: a soul and what it starts with.
pub struct StarterPack {
    pub id: u16,
    /// Key of the soul's definition.
    pub soul: String,
    pub contents: Vec<StarterItem>,
    /// Ids of the blueprints that the soul knows from the start.
    pub blueprints: Vec<u16>,
}

/// Why a character cannot be created.
#[derive(Clone, Copy, Debug, PartialEq, Eq, Structural)]
pub enum CharacterError {
    Caller(PlayerError),
    Time(TimeDrift),
    Blocked(Blocked),
    NoPack { id: u16 },
    NoProfile { player_id: u32 },
    /// The pack has no bit in the unlock word.
    PackOutOfRange { id: u16 },
    NotUnlocked { id: u16 },
    AtCap { count: u8, max: u8 },
    /// The catalog lacks the pack's soul.
    NoSoulDefinition,
}

/// The first pack with an id.
pub open spec fn pack_by_id(packs: Seq<StarterPack>, id: u16) -> Option<StarterPack>
    decreases packs.len(),
{
    if packs.len() == 0 {
        None
    } else if packs[0].id == id {
        Some(packs[0])
    } else {
        pack_by_id(packs.skip(1), id)
    }
}

fn find_pack(packs: &Vec<StarterPack>, id: u16) -> (found: Option<&StarterPack>)
    ensures
        match found {
            Some(p) => pack_by_id(packs@, id) == Some(*p),
            None => pack_by_id(packs@, id) is None,
        },
{
    let mut i: usize = 0;
    assert(packs@.skip(0) =~= packs@);
    while i < packs.len()
        invariant
            i <= packs.len(),
            pack_by_id(packs@, id) == pack_by_id(packs@.skip(i as int), id),
        decreases packs.len() - i,
    {
        assert(packs@.skip(i as int)[0] == packs@[i as int]);
        assert(packs@.skip(i as int).skip(1) =~= packs@.skip(i + 1));
        if packs[i].id == id {
            return Some(&packs[i]);
        }
        i = i + 1;
    }
    None
}

/// Position of a pack in the unlock word.
pub open spec fn pack_bit(id: u16) -> u16 {
    if id == 0 {
        0
    } else {
        (id - 1) as u16
    }
}

/// Why a player may not use a pack now.
pub open spec fn ineligible(r: Option<Roster>, player_id: u32, id: u16) -> Option<CharacterError> {
    match r {
        None => Some(CharacterError::NoProfile { player_id }),
        Some(r) => if pack_bit(id) >= 64 {
            Some(CharacterError::PackOutOfRange { id })
        } else if r.starter_packs & (1u64 << pack_bit(id)) == 0 {
            Some(CharacterError::NotUnlocked { id })
        } else if rosters::soul_count(r) >= rosters::soul_max(r) {
            Some(
                CharacterError::AtCap {
                    count: rosters::soul_count(r),
                    max: rosters::soul_max(r),
                },
            )
        } else {
            None
        },
    }
}

fn check_eligible(r: &Option<Roster>, player_id: u32, id: u16) -> (err: Option<CharacterError>)
    ensures
        err == ineligible(*r, player_id, id),
{
    let r: Roster = match r {
        None => {
            return Some(CharacterError::NoProfile { player_id });
        },
        Some(r) => *r,
    };
    let bit: u16 = if id == 0 {
        0
    } else {
        id - 1
    };
    if bit >= 64 {
        return Some(CharacterError::PackOutOfRange { id });
    }
    if r.starter_packs & (1u64 << bit) == 0 {
        return Some(CharacterError::NotUnlocked { id });
    }
    let count: u8 = r.soul_info / 16;
    let max: u8 = r.soul_info % 16;
    if count >= max {
        return Some(CharacterError::AtCap { count, max });
    }
    None
}

/// The discovery bits of the known blueprints; ids beyond the word are dropped.
pub open spec fn known_bits(ids: Seq<u16>) -> u64
    decreases ids.len(),
{
    if ids.len() == 0 {
        0
    } else {
        let before = known_bits(ids.drop_last());
        if 0 < ids.last() <= 64 {
            before | gate_api::blueprint_bit(ids.last())
        } else {
            before
        }
    }
}

fn collect_bits(ids: &Vec<u16>) -> (bits: u64)
    ensures
        bits == known_bits(ids@),
{
    let mut bits: u64 = 0;
    let mut i: usize = 0;
    while i < ids.len()
        invariant
            i <= ids.len(),
            bits == known_bits(ids@.take(i as int)),
        decreases ids.len() - i,
    {
        proof {
            let next = ids@.take(i + 1);
            assert(next.drop_last() =~= ids@.take(i as int));
            assert(next.last() == ids@[i as int]);
        }
        let id: u16 = ids[i];
        if id != 0 && id <= 64 {
            bits = bits | (1u64 << ((id - 1) as u64));
        }
        i = i + 1;
    }
    assert(ids@.take(ids.len() as int) =~= ids@);
    bits
}

/// The database after creating `n` copies of a card in a soul's inventory.
pub open spec fn copies_added(e: Env, db: Db, soul: u32, t: u64, def: u16, n: nat) -> Db
    decreases n,
{
    if n == 0 {
        db
    } else {
        players::spawned(
            e,
            copies_added(e, db, soul, t, def, (n - 1) as nat),
            t,
            packed::macro_zone_key(soul, packed::INVENTORY_LAYER, 0, 0),
            packed::INVENTORY_LAYER,
            soul,
            def,
            0,
        )
    }
}

/// The database after creating a pack's contents in a soul's inventory.
pub open spec fn contents_added(e: Env, db: Db, soul: u32, t: u64, items: Seq<StarterItem>) -> Db
    decreases items.len(),
{
    if items.len() == 0 {
        db
    } else {
        copies_added(
            e,
            contents_added(e, db, soul, t, items.drop_last()),
            soul,
            t,
            items.last().packed_definition,
            items.last().count as nat,
        )
    }
}

fn add_copies(e: &Env, tb: &mut Tables, soul: u32, t: u64, def: u16, n: u32)
    requires
        e.wf(),
    ensures
        final(tb)@ == copies_added(*e, old(tb)@, soul, t, def, n as nat),
{
    let ghost d = tb@;
    let mut i: u32 = 0;
    while i < n
        invariant
            i <= n,
            e.wf(),
            tb@ == copies_added(*e, d, soul, t, def, i as nat),
        decreases n - i,
    {
        let card_id: u32 = cards::next_card_id(tb);
        let _ = cards::create_at(
            e,
            tb,
            card_id,
            t,
            packed::pack_macro_zone_full(soul, packed::INVENTORY_LAYER, 0, 0),
            Micro::snap(0, 0, e.loose_kind_for_surface(packed::INVENTORY_LAYER)),
            soul,
            def,
            0,
            0,
        );
        i = i + 1;
    }
}

/// The state flags that a new character's soul is given: owned by the player, with
/// its portrait.
pub open spec fn soul_flags(e: Env, db: Db, player_id: u32, t: u64) -> u32 {
    souls::portrayed(
        e.state.is_owned_by_player,
        players::portrait_pick(t, player_id, cards::next_id(db)),
    )
}

/// The database after spawning the soul of a character at the world origin, with its
/// private row.
pub open spec fn soul_placed(
    e: Env,
    db: Db,
    player_id: u32,
    t: u64,
    soul_def: u16,
    pack: StarterPack,
) -> Db {
    let a = players::spawned(
        e,
        db,
        t,
        packed::macro_zone_key(0, packed::WORLD_LAYER, 0, 0),
        packed::WORLD_LAYER,
        player_id,
        soul_def,
        soul_flags(e, db, player_id, t),
    );
    Db {
        soul_privates: a.soul_privates.push(
            SoulPrivate {
                blueprints_0: known_bits(pack.blueprints@),
                ..players::empty_private(cards::next_id(db))
            },
        ),
        ..a
    }
}

/// The database after spawning a character: its soul, and the pack's contents.
pub open spec fn character_spawned(
    e: Env,
    db: Db,
    player_id: u32,
    t: u64,
    soul_def: u16,
    pack: StarterPack,
) -> Db {
    contents_added(
        e,
        soul_placed(e, db, player_id, t, soul_def, pack),
        cards::next_id(db),
        t,
        pack.contents@,
    )
}

fn add_contents(e: &Env, tb: &mut Tables, soul: u32, t: u64, items: &Vec<StarterItem>)
    requires
        e.wf(),
    ensures
        final(tb)@ == contents_added(*e, old(tb)@, soul, t, items@),
{
    let ghost d = tb@;
    let mut i: usize = 0;
    assert(items@.take(0) =~= Seq::empty());
    while i < items.len()
        invariant
            i <= items.len(),
            e.wf(),
            tb@ == contents_added(*e, d, soul, t, items@.take(i as int)),
        decreases items.len() - i,
    {
        proof {
            let next = items@.take(i + 1);
            assert(next.drop_last() =~= items@.take(i as int));
            assert(next.last() == items@[i as int]);
        }
        add_copies(e, tb, soul, t, items[i].packed_definition, items[i].count);
        i = i + 1;
    }
    assert(items@.take(items.len() as int) =~= items@);
}

fn spawn_character(
    e: &Env,
    tb: &mut Tables,
    player_id: u32,
    t: u64,
    soul_def: u16,
    pack: &StarterPack,
)
    requires
        e.wf(),
    ensures
        final(tb)@ == character_spawned(*e, old(tb)@, player_id, t, soul_def, *pack),
{
    let soul: u32 = cards::next_card_id(tb);
    let flags: u32 = souls::with_portrait(
        e.state.is_owned_by_player,
        players::pick_portrait(t, player_id, soul),
    );
    let _ = cards::create_at(
        e,
        tb,
        soul,
        t,
        packed::pack_macro_zone_full(0, packed::WORLD_LAYER, 0, 0),
        Micro::snap(0, 0, e.loose_kind_for_surface(packed::WORLD_LAYER)),
        player_id,
        soul_def,
        flags,
        0,
    );
    let bits: u64 = collect_bits(&pack.blueprints);
    tb.soul_privates.push(
        SoulPrivate {
            card_id: soul,
            data_shard: cards::DATA_SHARD,
            blueprints_0: bits,
            active_blueprints: 0,
        },
    );
    add_contents(e, tb, soul, t, &pack.contents);
}

/// Outcome of creating a character.
pub open spec fn character_created(
    e: Env,
    db: Db,
    caller: ConnectionId,
    client_time_ms: u64,
    packs: Seq<StarterPack>,
    id: u16,
) -> (Db, Result<(), CharacterError>) {
    match players::session_player(db.player_sessions, caller) {
        None => (db, Err(CharacterError::Caller(PlayerError::NoSession))),
        Some(player_id) => match time::resolved(
            e.now_ms,
            client_time_ms,
            time::NO_FORWARD_GRACE_MS,
        ) {
            Err(drift) => (db, Err(CharacterError::Time(drift))),
            Ok(t) => {
                let g = lifecycle_pending::gate(db, player_id, t, Seq::empty());
                match g.1 {
                    Err(b) => (g.0, Err(CharacterError::Blocked(b))),
                    Ok(()) => match pack_by_id(packs, id) {
                        None => (g.0, Err(CharacterError::NoPack { id })),
                        Some(pack) => match ineligible(
                            rosters::roster_of(g.0.rosters, player_id),
                            player_id,
                            id,
                        ) {
                            Some(err) => (g.0, Err(err)),
                            None => match content::packed_by_key(
                                e.catalog.definitions@,
                                pack.soul@,
                            ) {
                                None => (g.0, Err(CharacterError::NoSoulDefinition)),
                                Some(def) => (
                                    character_spawned(e, g.0, player_id, t, def, pack),
                                    Ok(()),
                                ),
                            },
                        },
                    },
                }
            },
        },
    }
}

/// Create a character from a starter pack for the calling player. The pack stays
/// unlocked.
pub fn create_character(
    e: &Env,
    tb: &mut Tables,
    caller: ConnectionId,
    client_time_ms: u64,
    packs: &Vec<StarterPack>,
    starter_pack_id: u16,
) -> (r: Result<(), CharacterError>)
    requires
        e.wf(),
    ensures
        (final(tb)@, r) == character_created(
            *e,
            old(tb)@,
            caller,
            client_time_ms,
            packs@,
            starter_pack_id,
        ),
{
    let player_id: u32 = match players::resolve_caller(tb, caller) {
        Err(err) => {
            return Err(CharacterError::Caller(err));
        },
        Ok(p) => p,
    };
    let t: u64 = match time::resolve(e.now_ms, client_time_ms, time::NO_FORWARD_GRACE_MS) {
        Err(drift) => {
            return Err(CharacterError::Time(drift));
        },
        Ok(t) => t,
    };
    let none: Vec<u32> = Vec::new();
    match lifecycle_pending::block_check(tb, player_id, t, &none) {
        Err(b) => {
            return Err(CharacterError::Blocked(b));
        },
        Ok(()) => {},
    }
    let pack = match find_pack(packs, starter_pack_id) {
        None => {
            return Err(CharacterError::NoPack { id: starter_pack_id });
        },
        Some(p) => p,
    };
    if let Some(err) = check_eligible(
        &rosters::find(&tb.rosters, player_id),
        player_id,
        starter_pack_id,
    ) {
        return Err(err);
    }
    match e.catalog.find_packed_by_key(&pack.soul) {
        None => Err(CharacterError::NoSoulDefinition),
        Some(def) => {
            spawn_character(e, tb, player_id, t, def, pack);
            Ok(())
        },
    }
}

// ---- the cap --------------------------------------------------------
/// Spawning a card takes an id that no card uses, and free keys only.
pub open spec fn spawn_is_clean(
    e: Env,
    db: Db,
    t: u64,
    macro_zone: u64,
    surface: u8,
    owner_id: u32,
    def: u16,
    flags_state: u32,
) -> bool {
    let before = cards::id_taken(db);
    &&& history::latest(db.cards, cards::next_id(db)) is None
    &&& keys::write_takes_free_keys(
        e,
        before,
        players::spawned_card(e, db, macro_zone, surface, owner_id, def, flags_state),
        t,
        cards::cascade_depth(before),
    )
}

/// Every copy is spawned cleanly.
pub open spec fn copies_are_clean(e: Env, db: Db, soul: u32, t: u64, def: u16, n: nat) -> bool
    decreases n,
{
    n == 0 || (copies_are_clean(e, db, soul, t, def, (n - 1) as nat) && spawn_is_clean(
        e,
        copies_added(e, db, soul, t, def, (n - 1) as nat),
        t,
        packed::macro_zone_key(soul, packed::INVENTORY_LAYER, 0, 0),
        packed::INVENTORY_LAYER,
        soul,
        def,
        0,
    ))
}

/// Every card of a pack's contents is spawned cleanly.
pub open spec fn contents_are_clean(
    e: Env,
    db: Db,
    soul: u32,
    t: u64,
    items: Seq<StarterItem>,
) -> bool
    decreases items.len(),
{
    items.len() == 0 || (contents_are_clean(e, db, soul, t, items.drop_last()) && copies_are_clean(
        e,
        contents_added(e, db, soul, t, items.drop_last()),
        soul,
        t,
        items.last().packed_definition,
        items.last().count as nat,
    ))
}

/// The soul of a new character, and all that it starts with, are spawned cleanly.
pub open spec fn character_is_clean(
    e: Env,
    db: Db,
    player_id: u32,
    t: u64,
    soul_def: u16,
    pack: StarterPack,
) -> bool {
    &&& spawn_is_clean(
        e,
        db,
        t,
        packed::macro_zone_key(0, packed::WORLD_LAYER, 0, 0),
        packed::WORLD_LAYER,
        player_id,
        soul_def,
        soul_flags(e, db, player_id, t),
    )
    &&& contents_are_clean(
        e,
        soul_placed(e, db, player_id, t, soul_def, pack),
        cards::next_id(db),
        t,
        pack.contents@,
    )
}

/// Nothing in a pack is itself marked as owned by a player.
pub open spec fn holds_no_souls(e: Env, items: Seq<StarterItem>) -> bool {
    forall|i: int|
        0 <= i < items.len() ==> cards::definition_flags(e, (#[trigger] items[i]).packed_definition)
            & e.state.is_owned_by_player == 0
}

/// The roster of a player is exact, and has the packs and the maximum of `r`.
spec fn counts_on(e: Env, db: Db, player_id: u32, r: Roster, owned: nat) -> bool {
    &&& history::distinct_versions(db.cards)
    &&& rosters::exact(e, db, player_id)
    &&& rosters::souls_owned(e, db, player_id) == owned
    &&& rosters::roster_of(db.rosters, player_id) matches Some(now) && now.starter_packs
        == r.starter_packs && rosters::soul_max(now) == rosters::soul_max(r)
}

proof fn lemma_spawn_counts(
    e: Env,
    db: Db,
    t: u64,
    macro_zone: u64,
    surface: u8,
    owner_id: u32,
    def: u16,
    flags_state: u32,
    player_id: u32,
    r: Roster,
    owned: nat,
)
    requires
        t < packed::TIME_RADIX,
        spawn_is_clean(e, db, t, macro_zone, surface, owner_id, def, flags_state),
        counts_on(e, db, player_id, r, owned),
        owned + rosters::share(
            rosters::keeper(
                e,
                players::spawned_card(e, db, macro_zone, surface, owner_id, def, flags_state),
            ),
            player_id,
        ) <= 15,
    ensures
        ({
            let card = players::spawned_card(
                e,
                db,
                macro_zone,
                surface,
                owner_id,
                def,
                flags_state,
            );
            counts_on(
                e,
                players::spawned(e, db, t, macro_zone, surface, owner_id, def, flags_state),
                player_id,
                r,
                (owned + rosters::share(rosters::keeper(e, card), player_id)) as nat,
            )
        }),
{
    let before = cards::id_taken(db);
    let id = cards::next_id(db);
    history::prior_at_is_greatest(db.cards, id, u64::MAX);
    history::prior_at_is_greatest(db.cards, id, t);
    if let Some(c) = history::prior_at(db.cards, id, t) {
        let k = choose|k: int| 0 <= k < db.cards.len() && db.cards[k] == c;
        assert(!history::covers(db.cards[k], id, u64::MAX));
    }
    rosters::writes_keep_counts_exact(
        e,
        before,
        players::spawned_card(e, db, macro_zone, surface, owner_id, def, flags_state),
        t,
        cards::cascade_depth(before),
        player_id,
    );
}

proof fn lemma_copies_count(
    e: Env,
    db: Db,
    soul: u32,
    t: u64,
    def: u16,
    n: nat,
    player_id: u32,
    r: Roster,
    owned: nat,
)
    requires
        t < packed::TIME_RADIX,
        copies_are_clean(e, db, soul, t, def, n),
        cards::definition_flags(e, def) & e.state.is_owned_by_player == 0,
        counts_on(e, db, player_id, r, owned),
        owned <= 15,
    ensures
        counts_on(e, copies_added(e, db, soul, t, def, n), player_id, r, owned),
    decreases n,
{
    if n > 0 {
        let m = (n - 1) as nat;
        lemma_copies_count(e, db, soul, t, def, m, player_id, r, owned);
        utilities::lemma_no_flags(cards::definition_flags(e, def));
        let before = copies_added(e, db, soul, t, def, m);
        let zone = packed::macro_zone_key(soul, packed::INVENTORY_LAYER, 0, 0);
        assert(rosters::keeper(
            e,
            players::spawned_card(e, before, zone, packed::INVENTORY_LAYER, soul, def, 0),
        ) is None);
        lemma_spawn_counts(
            e,
            before,
            t,
            zone,
            packed::INVENTORY_LAYER,
            soul,
            def,
            0,
            player_id,
            r,
            owned,
        );
    }
}

proof fn lemma_contents_count(
    e: Env,
    db: Db,
    soul: u32,
    t: u64,
    items: Seq<StarterItem>,
    player_id: u32,
    r: Roster,
    owned: nat,
)
    requires
        t < packed::TIME_RADIX,
        contents_are_clean(e, db, soul, t, items),
        holds_no_souls(e, items),
        counts_on(e, db, player_id, r, owned),
        owned <= 15,
    ensures
        counts_on(e, contents_added(e, db, soul, t, items), player_id, r, owned),
    decreases items.len(),
{
    if items.len() > 0 {
        let init = items.drop_last();
        assert(holds_no_souls(e, init)) by {
            assert forall|i: int| 0 <= i < init.len() implies cards::definition_flags(
                e,
                (#[trigger] init[i]).packed_definition,
            ) & e.state.is_owned_by_player == 0 by {
                assert(init[i] == items[i]);
            }
        }
        lemma_contents_count(e, db, soul, t, init, player_id, r, owned);
        assert(items[items.len() - 1] == items.last());
        lemma_copies_count(
            e,
            contents_added(e, db, soul, t, init),
            soul,
            t,
            items.last().packed_definition,
            items.last().count as nat,
            player_id,
            r,
            owned,
        );
    }
}

/// Creating characters never takes a player past the maximum of live souls. Where
/// the roster counts the player's souls before, it counts them after, and the
/// maximum and the unlocked packs stay. A soul that is not born dead is one more.
pub proof fn characters_stay_within_the_cap(
    e: Env,
    db: Db,
    caller: ConnectionId,
    client_time_ms: u64,
    packs: Seq<StarterPack>,
    id: u16,
)
    requires
        e.now_ms < packed::TIME_RADIX,
        history::distinct_versions(db.cards),
        character_created(e, db, caller, client_time_ms, packs, id).1 is Ok,
        ({
            let player_id = players::session_player(db.player_sessions, caller)->0;
            let t = time::resolved(e.now_ms, client_time_ms, time::NO_FORWARD_GRACE_MS)->Ok_0;
            let pack = pack_by_id(packs, id)->0;
            let def = content::packed_by_key(e.catalog.definitions@, pack.soul@)->0;
            let d = lifecycle_pending::gate(db, player_id, t, Seq::empty()).0;
            &&& rosters::exact(e, db, player_id)
            &&& character_is_clean(e, d, player_id, t, def, pack)
            &&& holds_no_souls(e, pack.contents@)
        }),
    ensures
        ({
            let d = character_created(e, db, caller, client_time_ms, packs, id).0;
            let player_id = players::session_player(db.player_sessions, caller)->0;
            let def = content::packed_by_key(
                e.catalog.definitions@,
                pack_by_id(packs, id)->0.soul@,
            )->0;
            let was = rosters::roster_of(db.rosters, player_id)->0;
            let now = rosters::roster_of(d.rosters, player_id)->0;
            let owned = rosters::souls_owned(e, db, player_id);
            &&& rosters::roster_of(db.rosters, player_id) is Some
            &&& rosters::roster_of(d.rosters, player_id) is Some
            &&& now.starter_packs == was.starter_packs
            &&& rosters::soul_max(now) == rosters::soul_max(was)
            &&& rosters::exact(e, d, player_id)
            &&& rosters::souls_owned(e, d, player_id) <= rosters::soul_max(now)
            &&& owned <= rosters::souls_owned(e, d, player_id) <= owned + 1
            &&& utilities::soul_flags_apart(e) && cards::definition_flags(e, def) & e.state.dead
                == 0 ==> rosters::souls_owned(e, d, player_id) == owned + 1
        }),
{
    let player_id = players::session_player(db.player_sessions, caller)->0;
    let t = time::resolved(e.now_ms, client_time_ms, time::NO_FORWARD_GRACE_MS)->Ok_0;
    let pack = pack_by_id(packs, id)->0;
    let def = content::packed_by_key(e.catalog.definitions@, pack.soul@)->0;
    let g = lifecycle_pending::gate(db, player_id, t, Seq::empty()).0;
    assert(g.cards == db.cards && g.rosters == db.rosters);
    assert(t <= e.now_ms);
    let r = rosters::roster_of(db.rosters, player_id)->0;
    let owned = rosters::souls_owned(e, db, player_id);
    assert(counts_on(e, g, player_id, r, owned));
    let flags = soul_flags(e, g, player_id, t);
    let zone = packed::macro_zone_key(0, packed::WORLD_LAYER, 0, 0);
    let card = players::spawned_card(
        e,
        g,
        zone,
        packed::WORLD_LAYER,
        player_id,
        def,
        flags,
    );
    lemma_spawn_counts(
        e,
        g,
        t,
        zone,
        packed::WORLD_LAYER,
        player_id,
        def,
        flags,
        player_id,
        r,
        owned,
    );
    let next = (owned + rosters::share(rosters::keeper(e, card), player_id)) as nat;
    lemma_contents_count(
        e,
        soul_placed(e, g, player_id, t, def, pack),
        cards::next_id(g),
        t,
        pack.contents@,
        player_id,
        r,
        next,
    );
    if utilities::soul_flags_apart(e) && cards::definition_flags(e, def) & e.state.dead == 0 {
        utilities::lemma_portrayed_flags(
            e.state.is_owned_by_player,
            e.state.dead,
            players::portrait_pick(t, player_id, cards::next_id(g)),
            cards::definition_flags(e, def),
        );
    }
}

proof fn lemma_first_bit(b: u64)
    by (bit_vector)
    requires
        b < 64,
    ensures
        1u64 & (1u64 << b) != 0 <==> b == 0,
{
}

/// A new player may use the first starter pack and no other, and may own five souls;
/// the count starts at none, which is exact as long as no soul names the player
/// already. No card changes, and every other roster is as exact as it was.
pub proof fn new_players_start_with_the_first_pack(
    e: Env,
    db: Db,
    name: String,
    t: u64,
    id: u16,
    other: u32,
)
    ensures
        ({
            let d = players::registered(db, name, t);
            let player_id = players::next_id(db);
            let r = rosters::roster_of(d.rosters, player_id);
            &&& r matches Some(r) && rosters::soul_count(r) == 0 && rosters::soul_max(r)
                == DEFAULT_SOULS_PER_PLAYER
            &&& ineligible(r, player_id, id) is None <==> pack_bit(id) == 0
            &&& other != player_id ==> rosters::roster_of(d.rosters, other) == rosters::roster_of(
                db.rosters,
                other,
            ) && rosters::exact(e, d, other) == rosters::exact(e, db, other)
            &&& d.cards == db.cards
            &&& rosters::exact(e, d, player_id) <==> rosters::souls_owned(e, db, player_id) == 0
        }),
{
    let d = players::registered(db, name, t);
    assert(d.rosters.drop_last() =~= db.rosters);
    rosters::lemma_index(db.rosters, other);
    if pack_bit(id) < 64 {
        lemma_first_bit(pack_bit(id) as u64);
    }
}

} // verus!
