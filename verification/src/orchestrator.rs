//! The orchestrator: owns the loaded snapshot sequence, its diagnostics,
//! and the selected time window, and recomputes the visualization
//! structures — label index, matrix, series, axis labels — as a pure
//! function of that state. Loads are guarded by a generation counter so
//! that only the most recently started read may apply its result.

use vstd::prelude::*;
use vstd::string::StringExecFns;
use crate::decode::{decode, line_outcome, none_idxs, somes_of, split_lines, DecodeResult};
use crate::labels::{build_index, strs_view, LabelIndex};
use crate::matrix::{build_matrix, matrix_spec, Cell};
use crate::model::{dec_str, u64_to_dec, Snapshot};
use crate::series::{
    cpu_util_spec, extract_series, gpu_load_spec, gpu_mem_spec, series_view, SeriesSet,
};

verus! {

/// The label of time index `t` on the category axis.
pub open spec fn time_label(t: nat) -> Seq<char> {
    "T"@ + dec_str(t)
}

/// The time-axis labels for indices `[lo, hi]`, empty when inverted.
pub open spec fn time_labels_range(lo: int, hi: int) -> Seq<Seq<char>>
    decreases hi + 1 - lo,
{
    if hi < lo {
        Seq::<Seq<char>>::empty()
    } else {
        time_labels_range(lo, hi - 1).push(time_label(hi as nat))
    }
}

/// Everything one recomputation hands the rendering collaborator: plain
/// data, never code.
#[derive(Debug)]
pub struct Outputs {
    pub index: LabelIndex,
    pub matrix: Vec<Cell>,
    pub series: SeriesSet,
    pub time_labels: Vec<String>,
    pub window: (usize, usize),
}

/// Renders the time-axis labels for the window `[min, max]`.
pub fn render_time_labels(min: usize, max: usize) -> (r: Vec<String>)
    ensures
        strs_view(r@) == (if max < min {
            Seq::<Seq<char>>::empty()
        } else {
            time_labels_range(min as int, max as int)
        }),
{
    let mut r: Vec<String> = Vec::new();
    if max < min {
        proof {
            assert(strs_view(r@) =~= Seq::<Seq<char>>::empty());
        }
        return r;
    }
    let mut t: usize = min;
    proof {
        assert(strs_view(r@) =~= time_labels_range(min as int, min - 1));
    }
    while t < max
        invariant
            min <= t <= max,
            strs_view(r@) == time_labels_range(min as int, t - 1),
        decreases max - t,
    {
        let mut l = String::from_str("T");
        let d = u64_to_dec(t as u64);
        l.append(d.as_str());
        r.push(l);
        proof {
            assert(strs_view(r@) =~= time_labels_range(min as int, t as int));
        }
        t = t + 1;
    }
    let mut l = String::from_str("T");
    let d = u64_to_dec(max as u64);
    l.append(d.as_str());
    r.push(l);
    proof {
        assert(strs_view(r@) =~= time_labels_range(min as int, max as int));
    }
    r
}

/// The loaded state and the selected window. The snapshot sequence is
/// written only by a completed load; every recomputation reads it.
#[derive(Debug)]
pub struct Orchestrator {
    pub snapshots: Vec<Snapshot>,
    pub skipped: Vec<usize>,
    pub min_time: usize,
    pub max_time: usize,
    pub generation: u64,
}

/// What a load must establish: every line of the text got the outcome
/// `line_outcome` owes it, the surviving snapshots stand in line order
/// with the diagnostics naming the failed lines, and the window is reset
/// to the full range (`[0, 0]` when nothing decoded).
pub open spec fn loaded_from(o: Orchestrator, text: Seq<char>) -> bool {
    &&& exists|os: Seq<Option<Snapshot>>|
        os.len() == split_lines(text).len() && (forall|k: int|
            0 <= k < os.len() ==> line_outcome(#[trigger] os[k], split_lines(text)[k]))
            && o.snapshots@ == somes_of(os) && o.skipped@ == none_idxs(os)
    &&& o.snapshots@.len() + o.skipped@.len() == split_lines(text).len()
    &&& o.min_time == 0
    &&& o.max_time == (if o.snapshots@.len() == 0 {
        0int
    } else {
        o.snapshots@.len() - 1
    })
}

impl Orchestrator {
    /// A fresh orchestrator: nothing loaded, window `[0, 0]`.
    pub fn new() -> (o: Orchestrator)
        ensures
            o.snapshots@.len() == 0,
            o.skipped@.len() == 0,
            o.min_time == 0,
            o.max_time == 0,
            o.generation == 0,
    {
        Orchestrator {
            snapshots: Vec::new(),
            skipped: Vec::new(),
            min_time: 0,
            max_time: 0,
            generation: 0,
        }
    }

    /// Replaces the snapshot sequence with the decode of `text` and resets
    /// the window to the full range.
    pub fn load(&mut self, text: &str)
        ensures
            loaded_from(*final(self), text@),
            final(self).generation == old(self).generation,
    {
        let r: DecodeResult = decode(text);
        self.snapshots = r.snapshots;
        self.skipped = r.skipped;
        self.min_time = 0;
        let n = self.snapshots.len();
        self.max_time = if n == 0 {
            0
        } else {
            n - 1
        };
    }

    /// Starts a read: bumps the generation and returns the ticket the
    /// completion must present.
    pub fn begin_load(&mut self) -> (g: u64)
        requires
            old(self).generation < u64::MAX,
        ensures
            g == old(self).generation + 1,
            final(self).generation == g,
            final(self).snapshots@ == old(self).snapshots@,
            final(self).skipped@ == old(self).skipped@,
            final(self).min_time == old(self).min_time,
            final(self).max_time == old(self).max_time,
    {
        self.generation = self.generation + 1;
        self.generation
    }

    /// Completes a read: applies the text only when no newer read has been
    /// started since — the last started writer wins, a stale completion is
    /// dropped unchanged.
    pub fn complete_load(&mut self, g: u64, text: &str) -> (applied: bool)
        ensures
            applied == (g == old(self).generation),
            applied ==> loaded_from(*final(self), text@) && final(self).generation == old(
                self,
            ).generation,
            !applied ==> *final(self) == *old(self),
    {
        if g == self.generation {
            self.load(text);
            true
        } else {
            false
        }
    }

    /// Sets the lower window bound; deliberately not validated against the
    /// upper one — an inverted window simply yields empty outputs.
    pub fn set_min(&mut self, v: usize)
        ensures
            final(self).min_time == v,
            final(self).max_time == old(self).max_time,
            final(self).snapshots@ == old(self).snapshots@,
            final(self).skipped@ == old(self).skipped@,
            final(self).generation == old(self).generation,
    {
        self.min_time = v;
    }

    /// Sets the upper window bound, as independently as the lower one.
    pub fn set_max(&mut self, v: usize)
        ensures
            final(self).max_time == v,
            final(self).min_time == old(self).min_time,
            final(self).snapshots@ == old(self).snapshots@,
            final(self).skipped@ == old(self).skipped@,
            final(self).generation == old(self).generation,
    {
        self.max_time = v;
    }

    /// Recomputes every output from the current state: a pure function of
    /// `(snapshots, window)`, discarding nothing incrementally.
    pub fn compute(&self) -> (r: Outputs)
        ensures
            r.index.matches(self.snapshots@),
            r.matrix@ == matrix_spec(
                strs_view(r.index.labels@),
                self.snapshots@,
                self.min_time,
                self.max_time,
            ),
            series_view(r.series.gpu_load@) == gpu_load_spec(
                self.snapshots@,
                self.min_time,
                self.max_time,
            ),
            series_view(r.series.gpu_mem@) == gpu_mem_spec(
                self.snapshots@,
                self.min_time,
                self.max_time,
            ),
            r.series.cpu_util@ == cpu_util_spec(self.snapshots@, self.min_time, self.max_time),
            strs_view(r.time_labels@) == (if self.max_time < self.min_time {
                Seq::<Seq<char>>::empty()
            } else {
                time_labels_range(self.min_time as int, self.max_time as int)
            }),
            r.window == (self.min_time, self.max_time),
    {
        let index = build_index(&self.snapshots);
        let matrix = build_matrix(&self.snapshots, &index, self.min_time, self.max_time);
        let series = extract_series(&self.snapshots, self.min_time, self.max_time);
        let time_labels = render_time_labels(self.min_time, self.max_time);
        Outputs { index, matrix, series, time_labels, window: (self.min_time, self.max_time) }
    }
}

} // verus!
