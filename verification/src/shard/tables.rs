//! The tables of a data shard.
use vstd::prelude::*;

use crate::cards::env;
use crate::cards::env::CountField;
use crate::pending_actions::PendingAction;
use crate::players::souls::Soul;
use crate::players::souls::SoulPrivate;
use crate::regions::card_shards::CardShard;
use crate::regions::regions::Region;
use crate::regions::zones::Zone;
use crate::regions::zones::ZoneState;
use crate::shard::cards::Card;
use crate::shard::cards::CardIdCounter;
use crate::shard::cards::ShardIdentity;
use crate::shard::flags::BkFlags;
use crate::shard::flags::StateFlags;
use crate::shard::model;
use crate::shard::model::HoldField;
use crate::shard::model::Layout;
use crate::shard::oplog::OpLog;

verus! {

/// What every operation reads besides the tables.
pub struct Env {
    /// Wall-clock now in unix milliseconds.
    pub now_ms: u64,
    pub state: StateFlags,
    pub bk: BkFlags,
    pub layout: Layout,
    /// The state bits that keep a tile-card from folding into its zone.
    pub blocks_demotion: u32,
}

impl Env {
    pub open spec fn wf(self) -> bool {
        &&& self.layout.wf()
        &&& self.laid_out()
    }

    /// The count of a hold family is a field of the flag word that shares no bit with
    /// another count, nor with the placement or the state bits.
    pub open spec fn count_laid_out(self, field: HoldField) -> bool {
        let f = self.layout.spec_field(field);
        &&& env::shaped(f)
        &&& f.mask & (model::state_bits(self.state) | 0xFF) == 0
        &&& forall|other: HoldField|
            other != field ==> env::apart(f, #[trigger] self.layout.spec_field(other))
    }

    /// The hold counts lie apart from everything else in the flag word, and the dirty
    /// markers are there and lie apart from one another.
    #[verifier::opaque]
    pub open spec fn laid_out(self) -> bool {
        &&& forall|field: HoldField|
            #![trigger self.layout.spec_field(field)]
            self.count_laid_out(field)
        &&& self.bk.position_dirty != 0
        &&& self.bk.data_dirty != 0
        &&& self.bk.position_dirty & self.bk.data_dirty == 0
    }

    fn is_count_laid_out(&self, field: HoldField) -> (ok: bool)
        ensures
            ok == self.count_laid_out(field),
    {
        let l = &self.layout;
        let f: CountField = l.field(field);
        let own: bool = env::is_shaped(f) && f.mask & (model::state_mask(&self.state) | 0xFF) == 0;
        let alone: bool = (field == HoldField::Touch || f.mask & l.touch.mask == 0) && (field
            == HoldField::SlotClaim || f.mask & l.slot_claim.mask == 0) && (field
            == HoldField::SlotBorrow || f.mask & l.slot_borrow.mask == 0) && (field
            == HoldField::PositionHold || f.mask & l.position_hold.mask == 0) && (field
            == HoldField::DropHold || f.mask & l.drop_hold.mask == 0) && (field
            == HoldField::Server || f.mask & l.server.mask == 0);
        proof {
            let all = forall|other: HoldField|
                other != field ==> env::apart(f, #[trigger] l.spec_field(other));
            if alone {
                assert forall|other: HoldField| other != field implies env::apart(
                    f,
                    #[trigger] l.spec_field(other),
                ) by {
                    match other {
                        HoldField::Touch => {},
                        HoldField::SlotClaim => {},
                        HoldField::SlotBorrow => {},
                        HoldField::PositionHold => {},
                        HoldField::DropHold => {},
                        HoldField::Server => {},
                    }
                }
            }
            if all {
                assert(field != HoldField::Touch ==> env::apart(
                    f,
                    l.spec_field(HoldField::Touch),
                ));
                assert(field != HoldField::SlotClaim ==> env::apart(
                    f,
                    l.spec_field(HoldField::SlotClaim),
                ));
                assert(field != HoldField::SlotBorrow ==> env::apart(
                    f,
                    l.spec_field(HoldField::SlotBorrow),
                ));
                assert(field != HoldField::PositionHold ==> env::apart(
                    f,
                    l.spec_field(HoldField::PositionHold),
                ));
                assert(field != HoldField::DropHold ==> env::apart(
                    f,
                    l.spec_field(HoldField::DropHold),
                ));
                assert(field != HoldField::Server ==> env::apart(
                    f,
                    l.spec_field(HoldField::Server),
                ));
            }
        }
        own && alone
    }

    /// Test whether the rules can work with what this holds.
    pub fn is_valid(&self) -> (ok: bool)
        ensures
            ok == self.wf(),
    {
        let counts: bool = self.is_count_laid_out(HoldField::Touch) && self.is_count_laid_out(
            HoldField::SlotClaim,
        ) && self.is_count_laid_out(HoldField::SlotBorrow) && self.is_count_laid_out(
            HoldField::PositionHold,
        ) && self.is_count_laid_out(HoldField::DropHold) && self.is_count_laid_out(
            HoldField::Server,
        );
        proof {
            reveal(Env::laid_out);
            let all = forall|field: HoldField|
                #![trigger self.layout.spec_field(field)]
                self.count_laid_out(field);
            if counts {
                assert forall|field: HoldField|
                    #![trigger self.layout.spec_field(field)]
                    self.count_laid_out(field) by {
                    match field {
                        HoldField::Touch => {},
                        HoldField::SlotClaim => {},
                        HoldField::SlotBorrow => {},
                        HoldField::PositionHold => {},
                        HoldField::DropHold => {},
                        HoldField::Server => {},
                    }
                }
            }
            if all {
                assert(env::shaped(self.layout.spec_field(HoldField::Touch)));
                assert(env::shaped(self.layout.spec_field(HoldField::SlotClaim)));
                assert(env::shaped(self.layout.spec_field(HoldField::SlotBorrow)));
                assert(env::shaped(self.layout.spec_field(HoldField::PositionHold)));
                assert(env::shaped(self.layout.spec_field(HoldField::DropHold)));
                assert(env::shaped(self.layout.spec_field(HoldField::Server)));
            }
        }
        self.layout.is_wf() && counts && self.bk.position_dirty != 0 && self.bk.data_dirty != 0
            && self.bk.position_dirty & self.bk.data_dirty == 0
    }
}

/// All tables, as rows in storage order. The order of rows is not meaningful.
pub struct Tables {
    pub cards: Vec<Card>,
    pub card_id_counter: Option<CardIdCounter>,
    pub identity: Option<ShardIdentity>,
    pub souls: Vec<Soul>,
    pub soul_privates: Vec<SoulPrivate>,
    pub pending_actions: Vec<PendingAction>,
    pub zones: Vec<Zone>,
    pub regions: Vec<Region>,
    pub card_shards: Vec<CardShard>,
    pub op_log: Vec<OpLog>,
    /// The id of the next recorded operation.
    pub next_op_id: u64,
    /// The next value of the global write sequence.
    pub next_sequence: u16,
}

/// The contents of [`Tables`].
#[verifier::ext_equal]
pub struct Db {
    pub cards: Seq<Card>,
    pub card_id_counter: Option<CardIdCounter>,
    pub identity: Option<ShardIdentity>,
    pub souls: Seq<Soul>,
    pub soul_privates: Seq<SoulPrivate>,
    pub pending_actions: Seq<PendingAction>,
    pub zones: Seq<Zone>,
    pub regions: Seq<Region>,
    pub card_shards: Seq<CardShard>,
    pub op_log: Seq<OpLog>,
    pub next_op_id: u64,
    pub next_sequence: u16,
}

impl View for Tables {
    type V = Db;

    open spec fn view(&self) -> Db {
        Db {
            cards: self.cards@,
            card_id_counter: self.card_id_counter,
            identity: self.identity,
            souls: self.souls@,
            soul_privates: self.soul_privates@,
            pending_actions: self.pending_actions@,
            zones: self.zones@,
            regions: self.regions@,
            card_shards: self.card_shards@,
            op_log: self.op_log@,
            next_op_id: self.next_op_id,
            next_sequence: self.next_sequence,
        }
    }
}

impl Db {
    /// The zone rows with the write sequence.
    pub open spec fn zone_state(self) -> ZoneState {
        ZoneState { rows: self.zones, seq: self.next_sequence }
    }

    /// The database with the zone rows and the write sequence replaced.
    pub open spec fn with_zone_state(self, s: ZoneState) -> Db {
        Db { zones: s.rows, next_sequence: s.seq, ..self }
    }
}

} // verus!
