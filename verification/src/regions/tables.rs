//! The tables of the positional database.
use vstd::prelude::*;

use crate::cards::flags::BkFlags;
use crate::regions::card_shards::CardShard;
use crate::regions::cards::Card;
use crate::regions::cards::CardIdCounter;
use crate::regions::regions::Region;
use crate::regions::zones::Zone;
use crate::regions::zones::ZoneState;

verus! {

/// What every operation reads besides the tables.
pub struct Env {
    /// Wall-clock now in unix milliseconds.
    pub now_ms: u64,
    pub bk: BkFlags,
    /// The loose placement kind of a card snapped to a hex cell.
    pub snap_hex: u8,
    /// The state bits that keep a tile-card from folding into its zone.
    pub blocks_demotion: u32,
}

/// All tables, as rows in storage order. The order of rows is not meaningful.
pub struct Tables {
    pub cards: Vec<Card>,
    pub card_id_counter: Option<CardIdCounter>,
    pub zones: Vec<Zone>,
    pub regions: Vec<Region>,
    pub card_shards: Vec<CardShard>,
    /// The next value of the global write sequence.
    pub next_sequence: u16,
}

/// The contents of [`Tables`].
#[verifier::ext_equal]
pub struct Db {
    pub cards: Seq<Card>,
    pub card_id_counter: Option<CardIdCounter>,
    pub zones: Seq<Zone>,
    pub regions: Seq<Region>,
    pub card_shards: Seq<CardShard>,
    pub next_sequence: u16,
}

impl View for Tables {
    type V = Db;

    open spec fn view(&self) -> Db {
        Db {
            cards: self.cards@,
            card_id_counter: self.card_id_counter,
            zones: self.zones@,
            regions: self.regions@,
            card_shards: self.card_shards@,
            next_sequence: self.next_sequence,
        }
    }
}

impl Db {
    /// The zone rows with the write sequence.
    pub open spec fn zone_state(self) -> ZoneState {
        ZoneState { rows: self.zones, seq: self.next_sequence }
    }

    /// The database with the zone rows and the write sequence replaced.
    pub open spec fn with_zone_state(self, s: ZoneState) -> Db {
        Db { zones: s.rows, next_sequence: s.seq, ..self }
    }
}

} // verus!
