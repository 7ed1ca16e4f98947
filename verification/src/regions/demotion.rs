//! Folding tile-cards at rest back into the zones they shadow.
//!
//! All tile-cards of one zone fold into one new version of the zone. The cards
//! are retired, with every version, only where the zone took their data.
use vstd::prelude::*;

use crate::history;
use crate::history::Version;
use crate::packed;
use crate::regions::zones;
use crate::regions::zones::Zone;
use crate::regions::zones::ZoneState;
use crate::tile_words::Tile;

verus! {

/// A tile-card that can go back into its zone.
#[derive(Clone, Copy, Debug, PartialEq, Eq)]
pub struct Demotion {
    pub zone_id: u32,
    pub card_id: u32,
    pub row: u8,
    pub col: u8,
    pub tile: Tile,
    /// The time at which the zone may take the tile.
    pub at: u64,
}

pub open spec fn of_zone(zone_id: u32) -> spec_fn(Demotion) -> bool {
    |d: Demotion| d.zone_id == zone_id
}

/// The demotions into one zone.
pub open spec fn batch(ds: Seq<Demotion>, zone_id: u32) -> Seq<Demotion> {
    ds.filter(of_zone(zone_id))
}

/// The latest time in a batch.
pub open spec fn fold_time(cells: Seq<Demotion>) -> u64
    decreases cells.len(),
{
    if cells.len() == 0 {
        0
    } else {
        let before = fold_time(cells.drop_last());
        if cells.last().at > before {
            cells.last().at
        } else {
            before
        }
    }
}

/// The zones that demotions go into, each once, in order of first mention.
pub open spec fn zone_order(ds: Seq<Demotion>) -> Seq<u32>
    decreases ds.len(),
{
    if ds.len() == 0 {
        Seq::empty()
    } else {
        let before = zone_order(ds.drop_last());
        if before.contains(ds.last().zone_id) {
            before
        } else {
            before.push(ds.last().zone_id)
        }
    }
}

/// A zone with the tiles of a batch written over it; cells out of range are
/// passed over.
pub open spec fn with_cells(z: Zone, cells: Seq<Demotion>) -> Zone
    decreases cells.len(),
{
    if cells.len() == 0 {
        z
    } else {
        let before = with_cells(z, cells.drop_last());
        let d = cells.last();
        if d.row < 8 && d.col < 8 {
            zones::with_tile(before, d.row as int, d.col as int, d.tile)
        } else {
            before
        }
    }
}

/// The zone rows after folding a batch at `t`; `None` where no version of the
/// zone is in force then.
pub open spec fn folded(s: ZoneState, zone_id: u32, t: u64, cells: Seq<Demotion>) -> Option<ZoneState> {
    match history::prior_at(s.rows, zone_id, t) {
        None => None,
        Some(z) => Some(zones::zone_written(s, with_cells(z, cells), t)),
    }
}

/// Write a batch of tiles over the version of a zone in force at `time_ms`, as
/// one new version.
pub fn fold_tiles_at(
    rows: &mut Vec<Zone>,
    seq: &mut u16,
    zone_id: u32,
    time_ms: u64,
    cells: &Vec<Demotion>,
) -> (done: bool)
    ensures
        ({
            let s = ZoneState { rows: old(rows)@, seq: *old(seq) };
            let after = ZoneState { rows: final(rows)@, seq: *final(seq) };
            match folded(s, zone_id, time_ms, cells@) {
                Some(f) => done && after == f,
                None => !done && after == s,
            }
        }),
{
    let prior = match history::find_prior_at(rows, zone_id, time_ms) {
        None => {
            return false;
        },
        Some(z) => z,
    };
    let mut z = prior;
    let mut i: usize = 0;
    assert(cells@.take(0) =~= Seq::empty());
    while i < cells.len()
        invariant
            i <= cells.len(),
            z == with_cells(prior, cells@.take(i as int)),
        decreases cells.len() - i,
    {
        let d = cells[i];
        proof {
            let next = cells@.take(i + 1);
            assert(next.drop_last() =~= cells@.take(i as int));
            assert(next.last() == d);
        }
        let _ = z.assign_tile(d.row, d.col, d.tile.0, d.tile.1, d.tile.2);
        i = i + 1;
    }
    assert(cells@.take(cells.len() as int) =~= cells@);
    let _ = zones::write_at(rows, seq, z, time_ms);
    true
}

/// The card of a row is not retired by a batch.
pub open spec fn not_retired<R: Version>(cells: Seq<Demotion>) -> spec_fn(R) -> bool {
    |r: R|
        !exists|i: int|
            0 <= i < cells.len() && (#[trigger] cells[i]).card_id == r.spec_entity()
}

/// Cards and zones after the batches of `order` were folded one after the other.
pub open spec fn demoted<R: Version>(
    cards: Seq<R>,
    s: ZoneState,
    ds: Seq<Demotion>,
    order: Seq<u32>,
) -> (Seq<R>, ZoneState)
    decreases order.len(),
{
    if order.len() == 0 {
        (cards, s)
    } else {
        let before = demoted(cards, s, ds, order.drop_last());
        let cells = batch(ds, order.last());
        match folded(before.1, order.last(), fold_time(cells), cells) {
            None => before,
            Some(f) => (before.0.filter(not_retired::<R>(cells)), f),
        }
    }
}

fn find_order(ds: &Vec<Demotion>) -> (order: Vec<u32>)
    ensures
        order@ == zone_order(ds@),
{
    let mut order: Vec<u32> = Vec::new();
    let mut i: usize = 0;
    while i < ds.len()
        invariant
            i <= ds.len(),
            order@ == zone_order(ds@.take(i as int)),
        decreases ds.len() - i,
    {
        let id: u32 = ds[i].zone_id;
        proof {
            let next = ds@.take(i + 1);
            assert(next.drop_last() =~= ds@.take(i as int));
            assert(next.last() == ds@[i as int]);
        }
        if !crate::cards::cards::holds_id(&order, id) {
            order.push(id);
        }
        i = i + 1;
    }
    assert(ds@.take(ds.len() as int) =~= ds@);
    order
}

fn find_batch(ds: &Vec<Demotion>, zone_id: u32) -> (r: (Vec<Demotion>, u64))
    ensures
        r.0@ == batch(ds@, zone_id),
        r.1 == fold_time(r.0@),
{
    let ghost keep = of_zone(zone_id);
    let mut cells: Vec<Demotion> = Vec::new();
    let mut t: u64 = 0;
    let mut i: usize = 0;
    proof {
        reveal(Seq::filter);
        assert(ds@.take(0).filter(keep) =~= Seq::empty());
    }
    while i < ds.len()
        invariant
            i <= ds.len(),
            keep == of_zone(zone_id),
            cells@ == ds@.take(i as int).filter(keep),
            t == fold_time(cells@),
        decreases ds.len() - i,
    {
        let d = ds[i];
        proof {
            history::filter_take_step(ds@, i as int, keep);
        }
        if d.zone_id == zone_id {
            let ghost before = cells@;
            cells.push(d);
            assert(cells@.drop_last() =~= before);
            if d.at > t {
                t = d.at;
            }
        }
        i = i + 1;
    }
    assert(ds@.take(ds.len() as int) =~= ds@);
    (cells, t)
}

fn retires(cells: &Vec<Demotion>, id: u32) -> (r: bool)
    ensures
        r == exists|i: int| 0 <= i < cells.len() && (#[trigger] cells@[i]).card_id == id,
{
    let mut i: usize = 0;
    while i < cells.len()
        invariant
            i <= cells.len(),
            forall|j: int| 0 <= j < i ==> (#[trigger] cells@[j]).card_id != id,
        decreases cells.len() - i,
    {
        if cells[i].card_id == id {
            assert(cells@[i as int].card_id == id);
            return true;
        }
        i = i + 1;
    }
    false
}

fn retire<R: Version + Copy>(cards: &mut Vec<R>, cells: &Vec<Demotion>)
    ensures
        final(cards)@ == old(cards)@.filter(not_retired::<R>(cells@)),
{
    let ghost all = cards@;
    let ghost keep = not_retired::<R>(cells@);
    let mut kept: Vec<R> = Vec::new();
    let mut i: usize = 0;
    proof {
        reveal(Seq::filter);
        assert(all.take(0).filter(keep) =~= Seq::empty());
    }
    while i < cards.len()
        invariant
            i <= cards.len(),
            cards@ == all,
            keep == not_retired::<R>(cells@),
            kept@ == all.take(i as int).filter(keep),
        decreases cards.len() - i,
    {
        proof {
            history::filter_take_step(all, i as int, keep);
        }
        if !retires(cells, cards[i].entity()) {
            kept.push(cards[i]);
        }
        i = i + 1;
    }
    assert(all.take(all.len() as int) =~= all);
    *cards = kept;
}

/// Fold every demotion into its zone, zone by zone.
pub fn demote<R: Version + Copy>(
    cards: &mut Vec<R>,
    zone_rows: &mut Vec<Zone>,
    seq: &mut u16,
    ds: &Vec<Demotion>,
)
    ensures
        (final(cards)@, ZoneState { rows: final(zone_rows)@, seq: *final(seq) }) == demoted(
            old(cards)@,
            ZoneState { rows: old(zone_rows)@, seq: *old(seq) },
            ds@,
            zone_order(ds@),
        ),
{
    let ghost cards0 = cards@;
    let ghost s0 = ZoneState { rows: zone_rows@, seq: *seq };
    let order: Vec<u32> = find_order(ds);
    let mut i: usize = 0;
    assert(order@.take(0) =~= Seq::empty());
    while i < order.len()
        invariant
            i <= order.len(),
            (cards@, ZoneState { rows: zone_rows@, seq: *seq }) == demoted(
                cards0,
                s0,
                ds@,
                order@.take(i as int),
            ),
        decreases order.len() - i,
    {
        proof {
            let next = order@.take(i + 1);
            assert(next.drop_last() =~= order@.take(i as int));
            assert(next.last() == order@[i as int]);
        }
        let b: (Vec<Demotion>, u64) = find_batch(ds, order[i]);
        if fold_tiles_at(zone_rows, seq, order[i], b.1, &b.0) {
            retire(cards, &b.0);
        }
        i = i + 1;
    }
    assert(order@.take(order.len() as int) =~= order@);
}

// ---- laws ----------------------------------------------------------
/// What a fold writes into a cell, the zone shows there.
pub proof fn folded_tile_reads_back(z: Zone, cells: Seq<Demotion>)
    requires
        cells.len() > 0,
        cells.last().row < 8,
        cells.last().col < 8,
    ensures
        zones::tile_of(with_cells(z, cells), cells.last().row as int, cells.last().col as int)
            == crate::tile_words::masked(cells.last().tile),
{
    let d = cells.last();
    zones::tile_read_over_write(
        with_cells(z, cells.drop_last()),
        d.row as int,
        d.col as int,
        d.tile,
        d.row as int,
        d.col as int,
    );
}

/// A demotion touches no card that is not among the demotions: its rows all stay.
pub proof fn demotion_spares_others<R: Version>(
    cards: Seq<R>,
    s: ZoneState,
    ds: Seq<Demotion>,
    order: Seq<u32>,
    row: R,
)
    requires
        cards.contains(row),
        forall|i: int| 0 <= i < ds.len() ==> (#[trigger] ds[i]).card_id != row.spec_entity(),
    ensures
        demoted(cards, s, ds, order).0.contains(row),
    decreases order.len(),
{
    if order.len() > 0 {
        demotion_spares_others(cards, s, ds, order.drop_last(), row);
        let before = demoted(cards, s, ds, order.drop_last()).0;
        let cells = batch(ds, order.last());
        history::filter_members(ds, of_zone(order.last()));
        history::filter_members(before, not_retired::<R>(cells));
        assert forall|i: int| 0 <= i < cells.len() implies (#[trigger] cells[i]).card_id
            != row.spec_entity() by {
            assert(ds.contains(cells[i]));
            let j = choose|j: int| 0 <= j < ds.len() && ds[j] == cells[i];
            assert(ds[j].card_id != row.spec_entity());
        }
        let k = choose|k: int| 0 <= k < before.len() && before[k] == row;
        assert(not_retired::<R>(cells)(before[k]));
    }
}

/// No demotion brings a card row into being, and a card whose zone took its
/// tile keeps no row at all: no stale version can come back.
pub proof fn demoted_cards_are_gone<R: Version>(
    cards: Seq<R>,
    s: ZoneState,
    ds: Seq<Demotion>,
    order: Seq<u32>,
    row: R,
)
    requires
        demoted(cards, s, ds, order).0.contains(row),
    ensures
        cards.contains(row),
        order.len() > 0 && ({
            let cells = batch(ds, order.last());
            folded(
                demoted(cards, s, ds, order.drop_last()).1,
                order.last(),
                fold_time(cells),
                cells,
            ) is Some
        }) ==> forall|i: int|
            0 <= i < ds.len() && (#[trigger] ds[i]).zone_id == order.last() ==> ds[i].card_id
                != row.spec_entity(),
    decreases order.len(),
{
    if order.len() > 0 {
        let prev = demoted(cards, s, ds, order.drop_last());
        let cells = batch(ds, order.last());
        history::filter_members(prev.0, not_retired::<R>(cells));
        history::filter_members(ds, of_zone(order.last()));
        let out = demoted(cards, s, ds, order).0;
        let k = choose|k: int| 0 <= k < out.len() && out[k] == row;
        match folded(prev.1, order.last(), fold_time(cells), cells) {
            None => {
                demoted_cards_are_gone(cards, s, ds, order.drop_last(), row);
            },
            Some(_) => {
                assert(prev.0.contains(out[k]));
                demoted_cards_are_gone(cards, s, ds, order.drop_last(), row);
                assert(not_retired::<R>(cells)(out[k]));
                assert forall|i: int|
                    0 <= i < ds.len() && (#[trigger] ds[i]).zone_id
                        == order.last() implies ds[i].card_id != row.spec_entity() by {
                    assert(of_zone(order.last())(ds[i]));
                    assert(cells.contains(ds[i]));
                    let j = choose|j: int| 0 <= j < cells.len() && cells[j] == ds[i];
                    assert(cells[j].card_id == ds[i].card_id);
                }
            },
        }
    }
}

/// The cells of a zone fold when the last of their cards came to rest.
pub proof fn zones_fold_with_their_last_card(cells: Seq<Demotion>, i: int)
    requires
        0 <= i < cells.len(),
    ensures
        cells[i].at <= fold_time(cells),
        exists|k: int| 0 <= k < cells.len() && (#[trigger] cells[k]).at == fold_time(cells),
    decreases cells.len(),
{
    let init = cells.drop_last();
    assert(cells[cells.len() - 1] == cells.last());
    if init.len() > 0 {
        let j: int = if i < init.len() {
            i
        } else {
            0
        };
        assert(init[j] == cells[j]);
        zones_fold_with_their_last_card(init, j);
        let k = choose|k: int| 0 <= k < init.len() && (#[trigger] init[k]).at == fold_time(init);
        assert(cells[k] == init[k]);
    } else {
        assert(fold_time(init) == 0);
    }
}

/// A folded zone is found from the time of the fold on: with the tile of its last cell,
/// and in its place and with its owner as before.
pub proof fn folded_zones_are_found(
    s: ZoneState,
    zone_id: u32,
    t: u64,
    cells: Seq<Demotion>,
    z: Zone,
)
    requires
        t < packed::TIME_RADIX,
        history::distinct_versions(s.rows),
        history::prior_at(s.rows, zone_id, t) == Some(z),
        cells.len() > 0,
        cells.last().row < 8,
        cells.last().col < 8,
    ensures
        folded(s, zone_id, t, cells) matches Some(f) && (history::prior_at(f.rows, zone_id, t)
            matches Some(n) && n.macro_zone == z.macro_zone && n.owner_id == z.owner_id
            && zones::tile_of(n, cells.last().row as int, cells.last().col as int) == (
            (cells.last().tile.0 % 4096) as u16,
            (cells.last().tile.1 % 4) as u8,
            (cells.last().tile.2 % 4) as u8,
        )),
{
    history::prior_at_is_greatest(s.rows, zone_id, t);
    let n = with_cells(z, cells);
    let st = zones::stamped(s, n, t);
    lemma_cells_keep_the_place(z, cells);
    packed::valid_at_round_trip(t, s.seq);
    history::read_over_write(s.rows, st, t);
    let d = cells.last();
    zones::tile_read_over_write(
        with_cells(z, cells.drop_last()),
        d.row as int,
        d.col as int,
        d.tile,
        d.row as int,
        d.col as int,
    );
    assert(zones::tile_of(st, d.row as int, d.col as int) == zones::tile_of(
        n,
        d.row as int,
        d.col as int,
    ));
}

proof fn lemma_cells_keep_the_place(z: Zone, cells: Seq<Demotion>)
    ensures
        with_cells(z, cells).zone_id == z.zone_id,
        with_cells(z, cells).macro_zone == z.macro_zone,
        with_cells(z, cells).owner_id == z.owner_id,
    decreases cells.len(),
{
    if cells.len() > 0 {
        lemma_cells_keep_the_place(z, cells.drop_last());
    }
}

} // verus!
