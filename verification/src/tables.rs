//! The tables of the owner-card database.
use vstd::prelude::*;

use crate::cards::cards::Card;
use crate::cards::cards::CardIdCounter;
use crate::pending_actions::PendingAction;
use crate::players::lifecycle_pending::LifecyclePending;
use crate::players::players::Player;
use crate::players::players::PlayerIdCounter;
use crate::players::players::PlayerProfile;
use crate::players::players::PlayerSession;
use crate::players::rosters::Roster;
use crate::players::souls::Soul;
use crate::players::souls::SoulPrivate;
use crate::regions::regions::Region;
use crate::regions::zones::Zone;
use crate::regions::zones::ZoneState;

verus! {

/// All tables, as rows in storage order. The order of rows is not meaningful.
pub struct Tables {
    pub cards: Vec<Card>,
    pub card_id_counter: Option<CardIdCounter>,
    pub souls: Vec<Soul>,
    pub soul_privates: Vec<SoulPrivate>,
    pub pending_actions: Vec<PendingAction>,
    pub lifecycle_pending: Vec<LifecyclePending>,
    pub players: Vec<Player>,
    pub player_sessions: Vec<PlayerSession>,
    pub player_profiles: Vec<PlayerProfile>,
    pub rosters: Vec<Roster>,
    pub player_id_counter: Option<PlayerIdCounter>,
    pub zones: Vec<Zone>,
    pub regions: Vec<Region>,
    /// The next value of the global write sequence.
    pub next_sequence: u16,
}

/// The contents of [`Tables`].
#[verifier::ext_equal]
pub struct Db {
    pub cards: Seq<Card>,
    pub card_id_counter: Option<CardIdCounter>,
    pub souls: Seq<Soul>,
    pub soul_privates: Seq<SoulPrivate>,
    pub pending_actions: Seq<PendingAction>,
    pub lifecycle_pending: Seq<LifecyclePending>,
    pub players: Seq<Player>,
    pub player_sessions: Seq<PlayerSession>,
    pub player_profiles: Seq<PlayerProfile>,
    pub rosters: Seq<Roster>,
    pub player_id_counter: Option<PlayerIdCounter>,
    pub zones: Seq<Zone>,
    pub regions: Seq<Region>,
    pub next_sequence: u16,
}

impl View for Tables {
    type V = Db;

    open spec fn view(&self) -> Db {
        Db {
            cards: self.cards@,
            card_id_counter: self.card_id_counter,
            souls: self.souls@,
            soul_privates: self.soul_privates@,
            pending_actions: self.pending_actions@,
            lifecycle_pending: self.lifecycle_pending@,
            players: self.players@,
            player_sessions: self.player_sessions@,
            player_profiles: self.player_profiles@,
            rosters: self.rosters@,
            player_id_counter: self.player_id_counter,
            zones: self.zones@,
            regions: self.regions@,
            next_sequence: self.next_sequence,
        }
    }
}

impl Db {
    /// The zone rows with the write sequence.
    pub open spec fn zone_state(self) -> ZoneState {
        ZoneState { rows: self.zones, seq: self.next_sequence }
    }

    /// The database with the zone rows and the write sequence replaced.
    pub open spec fn with_zone_state(self, s: ZoneState) -> Db {
        Db { zones: s.rows, next_sequence: s.seq, ..self }
    }
}

/// The write sequence after one use.
pub open spec fn sequence_after(seq: u16) -> u16 {
    if seq == u16::MAX {
        0
    } else {
        (seq + 1) as u16
    }
}

/// Take the next value of a write sequence, which wraps around.
pub fn advance(seq: &mut u16) -> (taken: u16)
    ensures
        taken == *old(seq),
        *final(seq) == sequence_after(*old(seq)),
{
    let taken: u16 = *seq;
    *seq = if taken == u16::MAX {
        0
    } else {
        taken + 1
    };
    taken
}

impl Tables {
    /// Take the next value of the write sequence, which wraps around.
    pub fn take_sequence(&mut self) -> (seq: u16)
        ensures
            seq == old(self)@.next_sequence,
            final(self)@ == (Db {
                next_sequence: sequence_after(old(self)@.next_sequence),
                ..old(self)@
            }),
    {
        advance(&mut self.next_sequence)
    }
}

} // verus!
