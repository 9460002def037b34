//! The derived time series over the selected window: per-GPU load percent,
//! per-GPU memory percent (guarded against zero total memory), and aggregate
//! CPU utilization (running threads over cores, floored at one core).
//! Values are carried in milli-percent.

use vstd::prelude::*;
use crate::model::{thread_is_running, thread_state_code, GpuStatus, Process, Snapshot, Thread};

verus! {

/// One time-series sample: `(time, value)` in milli-percent.
#[derive(Debug, Clone, Copy, PartialEq, Eq, Structural)]
pub struct SeriesPoint {
    pub time: usize,
    pub value_milli: i64,
}

/// The samples of one GPU, in time order, keyed by its id.
#[derive(Debug, PartialEq, Eq)]
pub struct GpuSeries {
    pub id: u32,
    pub points: Vec<SeriesPoint>,
}

/// The three series of one extraction, restricted to the window.
#[derive(Debug, PartialEq, Eq)]
pub struct SeriesSet {
    pub gpu_load: Vec<GpuSeries>,
    pub gpu_mem: Vec<GpuSeries>,
    pub cpu_util: Vec<SeriesPoint>,
}

/// The mathematical view of a per-GPU series collection.
pub open spec fn series_view(ss: Seq<GpuSeries>) -> Seq<(u32, Seq<SeriesPoint>)> {
    Seq::new(ss.len(), |i: int| (ss[i].id, ss[i].points@))
}

/// The position of the series keyed `id`, searching from `j`.
pub open spec fn find_series(ss: Seq<(u32, Seq<SeriesPoint>)>, id: u32, j: int) -> Option<int>
    decreases ss.len() - j,
{
    if j >= ss.len() {
        None
    } else if ss[j].0 == id {
        Some(j)
    } else {
        find_series(ss, id, j + 1)
    }
}

/// Appends one sample to the series keyed `id`, creating that series at the
/// end on first sight of the id.
pub open spec fn add_point(ss: Seq<(u32, Seq<SeriesPoint>)>, id: u32, pt: SeriesPoint) -> Seq<
    (u32, Seq<SeriesPoint>),
> {
    match find_series(ss, id, 0) {
        Some(i) => ss.update(i, (id, ss[i].1.push(pt))),
        None => ss.push((id, seq![pt])),
    }
}

/// The memory percent of one GPU reading, in milli-percent: used over total
/// times 100, exactly 0 when the reported total is not positive. The
/// magnitude saturates at the representable bound.
pub open spec fn mem_percent_milli(used: i64, total: i64) -> i64 {
    if total <= 0 {
        0
    } else if used >= 0 {
        let q = used * 100000 / (total as int);
        if q > i64::MAX {
            i64::MAX
        } else {
            q as i64
        }
    } else {
        let q = (-(used as int)) * 100000 / (total as int);
        if q > i64::MAX {
            (-(i64::MAX as int)) as i64
        } else {
            (-q) as i64
        }
    }
}

/// A count capped at the largest `usize`.
pub open spec fn sat_usize(n: nat) -> nat {
    if n > usize::MAX {
        usize::MAX as nat
    } else {
        n
    }
}

/// How many of these threads are running.
pub open spec fn count_threads_running(ts: Seq<Thread>) -> nat
    decreases ts.len(),
{
    if ts.len() == 0 {
        0
    } else {
        count_threads_running(ts.drop_last()) + (if thread_is_running(ts.last()) {
            1nat
        } else {
            0nat
        })
    }
}

/// How many running threads one process subtree holds.
pub open spec fn count_running(p: Process) -> nat
    decreases p,
{
    count_threads_running(p.threads@) + count_running_seq(p.children@)
}

/// How many running threads a sequence of sibling subtrees holds.
pub open spec fn count_running_seq(ps: Seq<Process>) -> nat
    decreases ps,
{
    if ps.len() == 0 {
        0
    } else {
        count_running_seq(ps.drop_last()) + count_running(ps.last())
    }
}

/// The CPU utilization of one snapshot in milli-percent: running threads
/// over cores (floored at one core), times 100; deliberately not clamped to
/// 100%, saturating only at the representable bound.
pub open spec fn cpu_util_milli(s: Snapshot) -> i64 {
    let r = sat_usize(count_running(s.process_tree));
    let c: int = if s.cpu_cores_total == 0 {
        1
    } else {
        s.cpu_cores_total as int
    };
    let q = (r as int) * 100000 / c;
    if q > i64::MAX {
        i64::MAX
    } else {
        q as i64
    }
}

/// The per-GPU load samples of one snapshot's GPU entries, appended in
/// entry order.
pub open spec fn add_load_points(
    ss: Seq<(u32, Seq<SeriesPoint>)>,
    gs: Seq<GpuStatus>,
    t: usize,
) -> Seq<(u32, Seq<SeriesPoint>)>
    decreases gs.len(),
{
    if gs.len() == 0 {
        ss
    } else {
        let g = gs.last();
        add_point(
            add_load_points(ss, gs.drop_last(), t),
            g.id,
            SeriesPoint { time: t, value_milli: g.load_milli_percent },
        )
    }
}

/// The per-GPU memory-percent samples of one snapshot's GPU entries.
pub open spec fn add_mem_points(
    ss: Seq<(u32, Seq<SeriesPoint>)>,
    gs: Seq<GpuStatus>,
    t: usize,
) -> Seq<(u32, Seq<SeriesPoint>)>
    decreases gs.len(),
{
    if gs.len() == 0 {
        ss
    } else {
        let g = gs.last();
        add_point(
            add_mem_points(ss, gs.drop_last(), t),
            g.id,
            SeriesPoint {
                time: t,
                value_milli: mem_percent_milli(g.mem_used_milli_mb, g.mem_total_milli_mb),
            },
        )
    }
}

/// The GPU load series over snapshot indices `[lo, hi]`.
pub open spec fn load_range(snaps: Seq<Snapshot>, lo: int, hi: int) -> Seq<
    (u32, Seq<SeriesPoint>),
>
    decreases hi + 1 - lo,
{
    if hi < lo {
        Seq::<(u32, Seq<SeriesPoint>)>::empty()
    } else {
        add_load_points(load_range(snaps, lo, hi - 1), snaps[hi].gpu_status@, hi as usize)
    }
}

/// The GPU memory series over snapshot indices `[lo, hi]`.
pub open spec fn mem_range(snaps: Seq<Snapshot>, lo: int, hi: int) -> Seq<(u32, Seq<SeriesPoint>)>
    decreases hi + 1 - lo,
{
    if hi < lo {
        Seq::<(u32, Seq<SeriesPoint>)>::empty()
    } else {
        add_mem_points(mem_range(snaps, lo, hi - 1), snaps[hi].gpu_status@, hi as usize)
    }
}

/// The CPU utilization series over snapshot indices `[lo, hi]`.
pub open spec fn cpu_range(snaps: Seq<Snapshot>, lo: int, hi: int) -> Seq<SeriesPoint>
    decreases hi + 1 - lo,
{
    if hi < lo {
        Seq::<SeriesPoint>::empty()
    } else {
        cpu_range(snaps, lo, hi - 1).push(
            SeriesPoint { time: hi as usize, value_milli: cpu_util_milli(snaps[hi]) },
        )
    }
}

/// The clamped upper snapshot index of the window, as the range folds use it.
pub open spec fn window_hi(snaps: Seq<Snapshot>, max: usize) -> int {
    if max as int <= snaps.len() - 1 {
        max as int
    } else {
        snaps.len() - 1
    }
}

pub open spec fn gpu_load_spec(snaps: Seq<Snapshot>, min: usize, max: usize) -> Seq<
    (u32, Seq<SeriesPoint>),
> {
    if max < min {
        Seq::<(u32, Seq<SeriesPoint>)>::empty()
    } else {
        load_range(snaps, min as int, window_hi(snaps, max))
    }
}

pub open spec fn gpu_mem_spec(snaps: Seq<Snapshot>, min: usize, max: usize) -> Seq<
    (u32, Seq<SeriesPoint>),
> {
    if max < min {
        Seq::<(u32, Seq<SeriesPoint>)>::empty()
    } else {
        mem_range(snaps, min as int, window_hi(snaps, max))
    }
}

pub open spec fn cpu_util_spec(snaps: Seq<Snapshot>, min: usize, max: usize) -> Seq<SeriesPoint> {
    if max < min {
        Seq::<SeriesPoint>::empty()
    } else {
        cpu_range(snaps, min as int, window_hi(snaps, max))
    }
}

/// Appends one sample to the collection, under the same first-seen-id
/// ordering the specification uses.
fn find_series_pos(v: &Vec<GpuSeries>, id: u32) -> (r: Option<usize>)
    ensures
        match find_series(series_view(v@), id, 0) {
            Some(i) => r is Some && r->Some_0 as int == i && 0 <= i < v@.len() && v@[i].id == id,
            None => r is None,
        },
{
    let ghost sv = series_view(v@);
    let mut j: usize = 0;
    while j < v.len()
        invariant
            j <= v@.len(),
            sv == series_view(v@),
            find_series(sv, id, 0) == find_series(sv, id, j as int),
        decreases v@.len() - j,
    {
        if v[j].id == id {
            return Some(j);
        }
        j = j + 1;
    }
    None
}

fn add_point_exec(v: &mut Vec<GpuSeries>, id: u32, pt: SeriesPoint)
    ensures
        series_view(final(v)@) == add_point(series_view(old(v)@), id, pt),
{
    let ghost sv = series_view(old(v)@);
    let ghost oldv = old(v)@;
    match find_series_pos(v, id) {
        Some(j) => {
            let mut e = v.remove(j);
            e.points.push(pt);
            v.insert(j, e);
            proof {
                let target = add_point(sv, id, pt);
                assert(find_series(sv, id, 0) == Some(j as int));
                assert(target == sv.update(j as int, (id, sv[j as int].1.push(pt))));
                assert forall|k: int| 0 <= k < v@.len() implies series_view(v@)[k] == target[k] by {
                    if k < j as int {
                        assert(v@[k] == oldv[k]);
                    } else if k == j as int {
                        assert(v@[k].id == id);
                        assert(v@[k].points@ == oldv[j as int].points@.push(pt));
                    } else {
                        assert(v@[k] == oldv[k]);
                    }
                }
                assert(series_view(v@) =~= target);
            }
        },
        None => {
            let mut pts: Vec<SeriesPoint> = Vec::new();
            pts.push(pt);
            v.push(GpuSeries { id, points: pts });
            proof {
                assert(find_series(sv, id, 0) is None);
                let target = add_point(sv, id, pt);
                assert forall|k: int| 0 <= k < v@.len() implies series_view(v@)[k] == target[k] by {
                    if k < oldv.len() {
                        assert(v@[k] == oldv[k]);
                    } else {
                        assert(v@[k].points@ =~= seq![pt]);
                    }
                }
                assert(series_view(v@) =~= target);
            }
        },
    }
}

/// Appends one snapshot's GPU load samples.
fn add_load_points_exec(v: &mut Vec<GpuSeries>, gs: &Vec<GpuStatus>, t: usize)
    ensures
        series_view(final(v)@) == add_load_points(series_view(old(v)@), gs@, t),
{
    proof {
        assert(gs@.subrange(0, 0) =~= Seq::<GpuStatus>::empty());
    }
    let mut j: usize = 0;
    while j < gs.len()
        invariant
            j <= gs@.len(),
            series_view(v@) == add_load_points(series_view(old(v)@), gs@.subrange(0, j as int), t),
        decreases gs@.len() - j,
    {
        let g = &gs[j];
        add_point_exec(v, g.id, SeriesPoint { time: t, value_milli: g.load_milli_percent });
        proof {
            let sub1 = gs@.subrange(0, j + 1);
            assert(sub1.drop_last() =~= gs@.subrange(0, j as int));
            assert(sub1.last() == gs@[j as int]);
        }
        j = j + 1;
    }
    proof {
        assert(gs@.subrange(0, gs@.len() as int) =~= gs@);
    }
}

/// Computes one GPU reading's memory percent in milli-percent.
fn mem_percent_exec(used: i64, total: i64) -> (r: i64)
    ensures
        r == mem_percent_milli(used, total),
{
    if total <= 0 {
        0
    } else if used >= 0 {
        let q: u128 = (used as u128) * 100000 / (total as u128);
        if q > i64::MAX as u128 {
            i64::MAX
        } else {
            q as i64
        }
    } else {
        let mag: u128 = (-(used as i128)) as u128;
        let q: u128 = mag * 100000 / (total as u128);
        if q > i64::MAX as u128 {
            -i64::MAX
        } else {
            -(q as i64)
        }
    }
}

/// Appends one snapshot's GPU memory samples.
fn add_mem_points_exec(v: &mut Vec<GpuSeries>, gs: &Vec<GpuStatus>, t: usize)
    ensures
        series_view(final(v)@) == add_mem_points(series_view(old(v)@), gs@, t),
{
    proof {
        assert(gs@.subrange(0, 0) =~= Seq::<GpuStatus>::empty());
    }
    let mut j: usize = 0;
    while j < gs.len()
        invariant
            j <= gs@.len(),
            series_view(v@) == add_mem_points(series_view(old(v)@), gs@.subrange(0, j as int), t),
        decreases gs@.len() - j,
    {
        let g = &gs[j];
        let m = mem_percent_exec(g.mem_used_milli_mb, g.mem_total_milli_mb);
        add_point_exec(v, g.id, SeriesPoint { time: t, value_milli: m });
        proof {
            let sub1 = gs@.subrange(0, j + 1);
            assert(sub1.drop_last() =~= gs@.subrange(0, j as int));
            assert(sub1.last() == gs@[j as int]);
        }
        j = j + 1;
    }
    proof {
        assert(gs@.subrange(0, gs@.len() as int) =~= gs@);
    }
}

/// Counts the running threads of one process subtree, saturating at the
/// largest `usize`.
pub fn count_running_threads(p: &Process) -> (n: usize)
    ensures
        n as nat == sat_usize(count_running(*p)),
    decreases *p,
{
    let mut n: usize = 0;
    proof {
        assert(p.threads@.subrange(0, 0) =~= Seq::<Thread>::empty());
    }
    let mut i: usize = 0;
    while i < p.threads.len()
        invariant
            i <= p.threads@.len(),
            n as nat == sat_usize(count_threads_running(p.threads@.subrange(0, i as int))),
        decreases p.threads@.len() - i,
    {
        if thread_state_code(&p.threads[i]) == 1 {
            if n < usize::MAX {
                n = n + 1;
            }
        }
        proof {
            let sub1 = p.threads@.subrange(0, i + 1);
            assert(sub1.drop_last() =~= p.threads@.subrange(0, i as int));
            assert(sub1.last() == p.threads@[i as int]);
        }
        i = i + 1;
    }
    proof {
        assert(p.threads@.subrange(0, p.threads@.len() as int) =~= p.threads@);
        assert(p.children@.subrange(0, 0) =~= Seq::<Process>::empty());
    }
    let mut j: usize = 0;
    while j < p.children.len()
        invariant
            j <= p.children@.len(),
            n as nat == sat_usize(
                count_threads_running(p.threads@) + count_running_seq(
                    p.children@.subrange(0, j as int),
                ),
            ),
        decreases p.children@.len() - j,
    {
        proof {
            assert(decreases_to!(*p => p.children@[j as int]));
        }
        let m = count_running_threads(&p.children[j]);
        if n > usize::MAX - m {
            n = usize::MAX;
        } else {
            n = n + m;
        }
        proof {
            let sub1 = p.children@.subrange(0, j + 1);
            assert(sub1.drop_last() =~= p.children@.subrange(0, j as int));
            assert(sub1.last() == p.children@[j as int]);
        }
        j = j + 1;
    }
    proof {
        assert(p.children@.subrange(0, p.children@.len() as int) =~= p.children@);
    }
    n
}

/// Computes one snapshot's CPU utilization sample in milli-percent.
fn cpu_util_exec(s: &Snapshot) -> (r: i64)
    ensures
        r == cpu_util_milli(*s),
{
    let running = count_running_threads(&s.process_tree);
    let cores: u32 = if s.cpu_cores_total == 0 {
        1
    } else {
        s.cpu_cores_total
    };
    let q: u128 = (running as u128) * 100000 / (cores as u128);
    if q > i64::MAX as u128 {
        i64::MAX
    } else {
        q as i64
    }
}

/// Extracts the three series over the window `[min, max]`, clamped to the
/// sequence bounds; an inverted or out-of-range window yields empty series.
pub fn extract_series(snaps: &Vec<Snapshot>, min: usize, max: usize) -> (r: SeriesSet)
    ensures
        series_view(r.gpu_load@) == gpu_load_spec(snaps@, min, max),
        series_view(r.gpu_mem@) == gpu_mem_spec(snaps@, min, max),
        r.cpu_util@ == cpu_util_spec(snaps@, min, max),
{
    let mut gpu_load: Vec<GpuSeries> = Vec::new();
    let mut gpu_mem: Vec<GpuSeries> = Vec::new();
    let mut cpu_util: Vec<SeriesPoint> = Vec::new();
    proof {
        assert(series_view(Seq::<GpuSeries>::empty()) =~= Seq::<(u32, Seq<SeriesPoint>)>::empty());
    }
    if max < min || snaps.len() == 0 {
        return SeriesSet { gpu_load, gpu_mem, cpu_util };
    }
    let n = snaps.len();
    let end: usize = if max <= n - 1 {
        max
    } else {
        n - 1
    };
    if min > end {
        return SeriesSet { gpu_load, gpu_mem, cpu_util };
    }
    let mut t: usize = min;
    while t <= end
        invariant
            min <= t <= end + 1,
            n == snaps@.len(),
            end < n,
            end == window_hi(snaps@, max),
            series_view(gpu_load@) == load_range(snaps@, min as int, t - 1),
            series_view(gpu_mem@) == mem_range(snaps@, min as int, t - 1),
            cpu_util@ == cpu_range(snaps@, min as int, t - 1),
        decreases end + 1 - t,
    {
        add_load_points_exec(&mut gpu_load, &snaps[t].gpu_status, t);
        add_mem_points_exec(&mut gpu_mem, &snaps[t].gpu_status, t);
        let c = cpu_util_exec(&snaps[t]);
        cpu_util.push(SeriesPoint { time: t, value_milli: c });
        t = t + 1;
    }
    SeriesSet { gpu_load, gpu_mem, cpu_util }
}

} // verus!
