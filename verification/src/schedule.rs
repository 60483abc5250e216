use crate::algebra::{lemma_cell_position, Matrix};
use crate::audio::Pitch;
use vstd::prelude::*;

verus! {

/// Entry `a` is played before entry `b`: it ranks higher, or ranks the same and stands
/// earlier in the palette.
pub open spec fn precedes(ranks: Seq<u64>, a: int, b: int) -> bool {
    ranks[a] > ranks[b] || (ranks[a] == ranks[b] && a < b)
}

/// `chosen` is the selection of the `top` first entries of `ranks`, in playing order:
/// as many as `top` allows, each an entry, each before the next, and every entry that is
/// left out after every one that is chosen.
pub open spec fn is_top_selection(ranks: Seq<u64>, top: nat, chosen: Seq<usize>) -> bool {
    &&& chosen.len() == if top <= ranks.len() {
        top
    } else {
        ranks.len()
    }
    &&& forall|p: int| 0 <= p < chosen.len() ==> (#[trigger] chosen[p]) < ranks.len()
    &&& forall|p: int, q: int|
        0 <= p < q < chosen.len() ==> precedes(ranks, #[trigger] chosen[p] as int, #[trigger] chosen[q] as int)
    &&& forall|i: usize, p: int|
        i < ranks.len() && 0 <= p < chosen.len() && !#[trigger] chosen.contains(i) ==> precedes(
            ranks,
            #[trigger] chosen[p] as int,
            i as int,
        )
}

/// The selection among the first `seen` entries, as the scan holds it.
pub open spec fn is_running_selection(ranks: Seq<u64>, top: nat, seen: nat, chosen: Seq<usize>) -> bool {
    &&& chosen.len() == if top <= seen {
        top
    } else {
        seen
    }
    &&& forall|p: int| 0 <= p < chosen.len() ==> (#[trigger] chosen[p]) < seen
    &&& forall|p: int, q: int|
        0 <= p < q < chosen.len() ==> precedes(ranks, #[trigger] chosen[p] as int, #[trigger] chosen[q] as int)
    &&& forall|i: usize, p: int|
        i < seen && 0 <= p < chosen.len() && !#[trigger] chosen.contains(i) ==> precedes(
            ranks,
            #[trigger] chosen[p] as int,
            i as int,
        )
    &&& seen <= top ==> forall|i: usize| i < seen ==> #[trigger] chosen.contains(i)
}

/// The indices of the `top` highest-ranking entries, highest first; entries of equal rank
/// in the order of the palette.
pub fn top_entries(ranks: &Vec<u64>, top: usize) -> (chosen: Vec<usize>)
    ensures
        is_top_selection(ranks@, top as nat, chosen@),
{
    let mut best: Vec<usize> = Vec::new();
    let mut j: usize = 0;
    while j < ranks.len()
        invariant
            j <= ranks@.len(),
            is_running_selection(ranks@, top as nat, j as nat, best@),
        decreases ranks.len() - j,
    {
        let ghost old_best = best@;
        let full = best.len() >= top;
        if full && (top == 0 || ranks[best[top - 1]] >= ranks[j]) {
            proof {
                assert forall|i: usize, p: int|
                    i < j + 1 && 0 <= p < best@.len() && !#[trigger] best@.contains(i) implies precedes(
                    ranks@,
                    #[trigger] best@[p] as int,
                    i as int,
                ) by {
                    if i == j {
                        if p < top - 1 {
                            assert(precedes(ranks@, best@[p] as int, best@[top - 1] as int));
                        }
                    }
                }
            }
        } else {
            let ghost others: Seq<usize>;
            if full {
                proof {
                    others = old_best.drop_last();
                }
                best.set(top - 1, j);
            } else {
                proof {
                    others = old_best;
                }
                best.push(j);
            }
            let mut pos: usize = best.len() - 1;
            while pos > 0 && ranks[best[pos - 1]] < ranks[j]
                invariant
                    j < ranks@.len(),
                    pos < best@.len(),
                    best@.len() == others.len() + 1,
                    forall|q: int| 0 <= q < others.len() ==> (#[trigger] others[q]) < j,
                    forall|p: int, q: int|
                        0 <= p < q < others.len() ==> precedes(
                            ranks@,
                            #[trigger] others[p] as int,
                            #[trigger] others[q] as int,
                        ),
                    forall|q: int| 0 <= q < pos ==> #[trigger] best@[q] == others[q],
                    best@[pos as int] == j,
                    forall|q: int| pos < q < best@.len() ==> #[trigger] best@[q] == others[q - 1],
                    forall|q: int| pos <= q < others.len() ==> ranks@[(#[trigger] others[q]) as int] < ranks@[j as int],
                decreases pos,
            {
                let moved = best[pos - 1];
                best.set(pos, moved);
                best.set(pos - 1, j);
                pos -= 1;
            }
            proof {
                let fresh = best@;
                assert forall|q: int| 0 <= q < others.len() implies fresh.contains(#[trigger] others[q]) by {
                    if q < pos {
                        assert(fresh[q] == others[q]);
                    } else {
                        assert(fresh[q + 1] == others[q]);
                    }
                }
                assert(fresh[pos as int] == j);
                assert forall|p: int, q: int| 0 <= p < q < fresh.len() implies precedes(
                    ranks@,
                    #[trigger] fresh[p] as int,
                    #[trigger] fresh[q] as int,
                ) by {
                    if q < pos {
                        assert(precedes(ranks@, others[p] as int, others[q] as int));
                    } else if q == pos {
                        if p < pos - 1 {
                            assert(precedes(ranks@, others[p] as int, others[pos - 1] as int));
                        }
                    } else if p == pos {
                        assert(fresh[q] == others[q - 1]);
                    } else if p < pos {
                        assert(precedes(ranks@, others[p] as int, others[q - 1] as int));
                    } else {
                        assert(precedes(ranks@, others[p - 1] as int, others[q - 1] as int));
                    }
                }
                assert forall|i: usize, p: int|
                    i < j + 1 && 0 <= p < fresh.len() && !#[trigger] fresh.contains(i) implies precedes(
                    ranks@,
                    #[trigger] fresh[p] as int,
                    i as int,
                ) by {
                    assert(i != j);
                    if full {
                        let dropped = old_best[top - 1];
                        assert(ranks@[dropped as int] < ranks@[j as int]);
                        if i == dropped {
                            if p != pos {
                                let q = if p < pos {
                                    p
                                } else {
                                    p - 1
                                };
                                assert(fresh[p] == others[q]);
                                assert(others[q] == old_best[q]);
                                assert(precedes(ranks@, old_best[q] as int, old_best[top - 1] as int));
                            }
                        } else {
                            if !old_best.contains(i) {
                                assert(precedes(ranks@, old_best[top - 1] as int, i as int));
                                if p != pos {
                                    let q = if p < pos {
                                        p
                                    } else {
                                        p - 1
                                    };
                                    assert(fresh[p] == others[q]);
                                    assert(others[q] == old_best[q]);
                                    assert(precedes(ranks@, old_best[q] as int, i as int));
                                }
                            } else {
                                let w = choose|w: int| 0 <= w < old_best.len() && old_best[w] == i;
                                assert(w < top - 1);
                                assert(others[w] == old_best[w]);
                                assert(fresh.contains(others[w]));
                            }
                        }
                    } else {
                        assert(old_best.contains(i));
                        let w = choose|w: int| 0 <= w < old_best.len() && old_best[w] == i;
                        assert(fresh.contains(others[w]));
                    }
                }
                if j + 1 <= top {
                    assert forall|i: usize| i < j + 1 implies #[trigger] fresh.contains(i) by {
                        if i < j {
                            assert(old_best.contains(i));
                            let w = choose|w: int| 0 <= w < old_best.len() && old_best[w] == i;
                            assert(fresh.contains(others[w]));
                        }
                    }
                }
            }
        }
        j += 1;
    }
    best
}

/// What the playback engine is told for one palette entry in one tick.
#[derive(Clone, Debug)]
pub struct Cue<T> {
    /// Which palette entry: its place in the palette.
    pub entry: usize,
    /// The name of the palette entry's source.
    pub identifier: String,
    /// The pitch of the palette entry.
    pub pitch: Pitch,
    /// How loud the entry plays in this tick.
    pub amplitude: T,
}

/// The cues of one tick. Playback of a tick starts by stopping what still sounds; then the
/// cues follow, loudest first.
#[derive(Clone, Debug)]
pub struct TickRecord<T> {
    pub tick: usize,
    pub stop_first: bool,
    pub entries: Vec<Cue<T>>,
}

/// `ranks` holds a rank for every activation of tick `tick`, in palette order.
pub open spec fn is_ranking<T, R: Fn(T) -> u64>(
    rank: &R,
    activations: crate::algebra::Grid<T>,
    tick: int,
    ranks: Seq<u64>,
) -> bool {
    &&& ranks.len() == activations.rows
    &&& forall|j: int| 0 <= j < ranks.len() ==> rank.ensures((activations.at(j, tick),), #[trigger] ranks[j])
}

/// `record` is a value of the record of tick `tick`: the `top` highest-ranking palette
/// entries of that column of the activations, highest first, each with its name, its pitch
/// and its activation.
pub open spec fn is_tick_record<T, R: Fn(T) -> u64>(
    rank: &R,
    activations: crate::algebra::Grid<T>,
    palette: Seq<(String, Pitch)>,
    top: nat,
    tick: int,
    record: TickRecord<T>,
) -> bool {
    &&& record.tick == tick
    &&& record.stop_first
    &&& exists|ranks: Seq<u64>, chosen: Seq<usize>|
        {
            &&& #[trigger] is_ranking(rank, activations, tick, ranks)
            &&& #[trigger] is_top_selection(ranks, top, chosen)
            &&& record.entries@.len() == chosen.len()
            &&& forall|p: int|
                0 <= p < chosen.len() ==> {
                    let cue = #[trigger] record.entries@[p];
                    &&& cue.entry == chosen[p]
                    &&& cue.identifier@ == palette[chosen[p] as int].0@
                    &&& cue.pitch == palette[chosen[p] as int].1
                    &&& cue.amplitude == activations.at(chosen[p] as int, tick)
                }
        }
}

/// Turns the activations into the playback schedule: one record for every tick (column),
/// in rising order of the ticks, each naming the `top` strongest palette entries of its
/// tick, strongest first, entries of equal strength in palette order.
pub fn schedule<T: Copy, R: Fn(T) -> u64>(
    activations: &Matrix<T>,
    palette: &Vec<(String, Pitch)>,
    top: usize,
    rank: &R,
) -> (records: Vec<TickRecord<T>>)
    requires
        activations.well_formed(),
        palette@.len() == activations@.rows,
        forall|x: T| rank.requires((x,)),
    ensures
        records@.len() == activations@.cols,
        forall|tick: int|
            0 <= tick < records@.len() ==> is_tick_record(
                rank,
                activations@,
                palette@,
                top as nat,
                tick,
                #[trigger] records@[tick],
            ),
{
    let rows = activations.rows;
    let cols = activations.cols;
    let mut records: Vec<TickRecord<T>> = Vec::with_capacity(cols);
    let mut tick: usize = 0;
    while tick < cols
        invariant
            activations.well_formed(),
            rows == activations.rows,
            cols == activations.cols,
            palette@.len() == rows,
            forall|x: T| rank.requires((x,)),
            tick <= cols,
            records@.len() == tick,
            forall|t: int|
                0 <= t < tick ==> is_tick_record(rank, activations@, palette@, top as nat, t, #[trigger] records@[t]),
        decreases cols - tick,
    {
        let mut ranks: Vec<u64> = Vec::with_capacity(rows);
        let mut j: usize = 0;
        while j < rows
            invariant
                activations.well_formed(),
                rows == activations.rows,
                cols == activations.cols,
                forall|x: T| rank.requires((x,)),
                tick < cols,
                j <= rows,
                ranks@.len() == j,
                forall|q: int| 0 <= q < j ==> rank.ensures((activations@.at(q, tick as int),), #[trigger] ranks@[q]),
            decreases rows - j,
        {
            proof {
                lemma_cell_position(j as int, tick as int, rows as int, cols as int);
                assert(activations.data.len() == rows * cols);
            }
            ranks.push(rank(activations.data[j * cols + tick]));
            j += 1;
        }
        let chosen = top_entries(&ranks, top);
        let mut entries: Vec<Cue<T>> = Vec::with_capacity(chosen.len());
        let mut p: usize = 0;
        while p < chosen.len()
            invariant
                activations.well_formed(),
                rows == activations.rows,
                cols == activations.cols,
                palette@.len() == rows,
                tick < cols,
                ranks@.len() == rows,
                is_top_selection(ranks@, top as nat, chosen@),
                p <= chosen@.len(),
                entries@.len() == p,
                forall|q: int|
                    0 <= q < p ==> {
                        let cue = #[trigger] entries@[q];
                        &&& cue.entry == chosen@[q]
                        &&& cue.identifier@ == palette@[chosen@[q] as int].0@
                        &&& cue.pitch == palette@[chosen@[q] as int].1
                        &&& cue.amplitude == activations@.at(chosen@[q] as int, tick as int)
                    },
            decreases chosen.len() - p,
        {
            let entry = chosen[p];
            proof {
                lemma_cell_position(entry as int, tick as int, rows as int, cols as int);
                assert(activations.data.len() == rows * cols);
            }
            let key = &palette[entry];
            entries.push(
                Cue {
                    entry,
                    identifier: key.0.clone(),
                    pitch: key.1,
                    amplitude: activations.data[entry * cols + tick],
                },
            );
            p += 1;
        }
        let record = TickRecord { tick, stop_first: true, entries };
        proof {
            assert(is_ranking(rank, activations@, tick as int, ranks@));
            assert(is_tick_record(rank, activations@, palette@, top as nat, tick as int, record));
        }
        records.push(record);
        tick += 1;
    }
    records
}

} // verus!
