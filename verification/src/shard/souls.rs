//! The soul rows of a data shard: they mirror the positions of soul cards and
//! carry the counters that the gateway steps.
use vstd::prelude::*;

use crate::cards::gate_api;
use crate::history;
use crate::packed;
use crate::players::souls;
use crate::players::souls::Soul;
use crate::players::souls::StatField;
use crate::players::souls::StatSlot;
use crate::shard::cards;
use crate::shard::cards::Card;
use crate::shard::tables::Db;
use crate::shard::tables::Tables;
use crate::tables;

verus! {

/// `db` after storing `soul` as the version at `time_ms` under a fresh key.
pub open spec fn soul_written(db: Db, soul: Soul, time_ms: u64) -> Db {
    let row = Soul { valid_at: packed::valid_at_key(time_ms, db.next_sequence), ..soul };
    Db {
        souls: history::stored(db.souls, row, time_ms),
        next_sequence: tables::sequence_after(db.next_sequence),
        ..db
    }
}

fn write_at(tb: &mut Tables, soul: Soul, time_ms: u64)
    ensures
        final(tb)@ == soul_written(old(tb)@, soul, time_ms),
{
    let seq: u16 = tables::advance(&mut tb.next_sequence);
    let mut row = soul;
    row.valid_at = packed::pack_valid_at(time_ms, seq);
    history::store(&mut tb.souls, row, time_ms);
}

/// `db` after the soul rows followed the write of a card: a soul card is
/// mirrored onto its soul row, any other card leaves them alone.
pub open spec fn mirrored(db: Db, card: Card, time_ms: u64) -> Db {
    if packed::card_type(card.packed_definition) != souls::SOUL_CARD_TYPE {
        db
    } else {
        match history::prior_at(db.souls, card.card_id, time_ms) {
            Some(s) => soul_written(
                db,
                Soul {
                    owner_id: card.owner_id,
                    macro_zone: card.macro_zone,
                    micro_location: card.micro_location,
                    ..s
                },
                time_ms,
            ),
            None => soul_written(
                db,
                Soul {
                    valid_at: 0,
                    data_shard: cards::DATA_SHARD,
                    card_id: card.card_id,
                    owner_id: card.owner_id,
                    macro_zone: card.macro_zone,
                    micro_location: card.micro_location,
                    stats: 0,
                    fatigued: 0,
                    injured: 0,
                },
                time_ms,
            ),
        }
    }
}

/// Keep the soul rows in step with one card write.
pub fn on_card_write(tb: &mut Tables, card: &Card, time_ms: u64)
    ensures
        final(tb)@ == mirrored(old(tb)@, *card, time_ms),
{
    if !souls::is_soul_card(card.packed_definition) {
        return;
    }
    match history::find_prior_at(&tb.souls, card.card_id, time_ms) {
        Some(found) => {
            let mut s = found;
            s.owner_id = card.owner_id;
            s.macro_zone = card.macro_zone;
            s.micro_location = card.micro_location;
            write_at(tb, s, time_ms);
        },
        None => {
            let s = Soul {
                valid_at: 0,
                data_shard: cards::DATA_SHARD,
                card_id: card.card_id,
                owner_id: card.owner_id,
                macro_zone: card.macro_zone,
                micro_location: card.micro_location,
                stats: 0,
                fatigued: 0,
                injured: 0,
            };
            write_at(tb, s, time_ms);
        },
    }
}

/// `db` after stepping one counter of a soul at `time_ms` and on every later
/// version; nothing happens to a soul without a row in force, nor for an unknown
/// counter.
pub open spec fn stat_applied(
    db: Db,
    soul_card_id: u32,
    field: u8,
    byte_index: u8,
    delta: i8,
    time_ms: u64,
) -> Db {
    match (gate_api::wire_slot(field, byte_index), history::prior_at(
        db.souls,
        soul_card_id,
        time_ms,
    )) {
        (Some(x), Some(s)) if soul_card_id != 0 => {
            let w = soul_written(db, souls::with_delta(s, x, delta), time_ms);
            Db {
                souls: history::on_future(
                    w.souls,
                    soul_card_id,
                    time_ms,
                    souls::future_step(x, delta),
                ),
                ..w
            }
        },
        _ => db,
    }
}

fn counter_of(field: u8, byte_index: u8) -> (x: Option<StatSlot>)
    ensures
        x == gate_api::wire_slot(field, byte_index),
        x matches Some(s) ==> s.byte_index < 4,
{
    if byte_index >= 4 {
        return None;
    }
    match field {
        0 => Some(StatSlot { field: StatField::Stats, byte_index }),
        1 => Some(StatSlot { field: StatField::Fatigued, byte_index }),
        2 => Some(StatSlot { field: StatField::Injured, byte_index }),
        _ => None,
    }
}

/// Step one of a soul's counters at `time_ms`, and on every future row.
pub fn apply_stat(
    tb: &mut Tables,
    soul_card_id: u32,
    field: u8,
    byte_index: u8,
    delta: i8,
    time_ms: u64,
)
    ensures
        final(tb)@ == stat_applied(old(tb)@, soul_card_id, field, byte_index, delta, time_ms),
{
    let x: StatSlot = match counter_of(field, byte_index) {
        None => {
            return;
        },
        Some(x) => x,
    };
    if soul_card_id == 0 {
        return;
    }
    let mut prior = match history::find_prior_at(&tb.souls, soul_card_id, time_ms) {
        None => {
            return;
        },
        Some(s) => s,
    };
    souls::apply_delta_to_soul(&mut prior, x, delta);
    write_at(tb, prior, time_ms);
    let ghost before = tb@;
    let ghost after = history::on_future(
        before.souls,
        soul_card_id,
        time_ms,
        souls::future_step(x, delta),
    );
    let mut i: usize = 0;
    while i < tb.souls.len()
        invariant
            i <= tb.souls.len(),
            x.byte_index < 4,
            tb.souls.len() == before.souls.len(),
            tb@ == (Db { souls: tb@.souls, ..before }),
            after == history::on_future(
                before.souls,
                soul_card_id,
                time_ms,
                souls::future_step(x, delta),
            ),
            forall|j: int| 0 <= j < i ==> #[trigger] tb@.souls[j] == after[j],
            forall|j: int|
                i <= j < before.souls.len() ==> #[trigger] tb@.souls[j] == before.souls[j],
        decreases tb.souls.len() - i,
    {
        let mut row = tb.souls[i];
        if row.card_id == soul_card_id && packed::valid_at_time(row.valid_at) > time_ms {
            souls::apply_delta_to_soul(&mut row, x, delta);
            tb.souls.set(i, row);
        }
        i = i + 1;
    }
    assert(tb@.souls =~= after);
}

} // verus!
