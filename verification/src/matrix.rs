//! The sparse heatmap matrix: one cell per resolved row per in-window
//! snapshot. Process presence and thread states use the categorical values
//! 0 through 4; GPU load occupies 5 through 105 (clamped percent plus 5),
//! so one numeric scale carries both domains without collision.

use vstd::prelude::*;
use crate::labels::{find_last, strs_view, LabelIndex};
use crate::model::{
    gpu_label, indent_str, opt_str_view, proc_label, render_gpu_label, render_proc_label,
    render_thread_label, thread_code, thread_label, thread_state_code, GpuStatus, Process,
    Snapshot, Thread,
};

verus! {

/// One heatmap data point: `(time, row, value)` with `value` in `0..=105`.
#[derive(Debug, Clone, Copy, PartialEq, Eq, Structural)]
pub struct Cell {
    pub time: usize,
    pub row: usize,
    pub value: u8,
}

/// The cell value of a GPU load reading: the percent clamped to `[0, 100]`,
/// truncated to a whole percent, then offset by 5 into `[5, 105]`.
pub open spec fn load_cell_value(load_milli_percent: i64) -> u8 {
    let c: int = if load_milli_percent < 0 {
        0
    } else if load_milli_percent > 100000 {
        100000
    } else {
        load_milli_percent as int
    };
    (c / 1000 + 5) as u8
}

/// The cells of a process's threads, in thread order.
pub open spec fn thread_cells(ls: Seq<Seq<char>>, ts: Seq<Thread>, t: usize, depth: nat) -> Seq<
    Cell,
>
    decreases ts.len(),
{
    if ts.len() == 0 {
        Seq::<Cell>::empty()
    } else {
        thread_cells(ls, ts.drop_last(), t, depth) + (match find_last(
            ls,
            thread_label(opt_str_view(ts.last().name), ts.last().tid, depth),
        ) {
            Some(r) => seq![Cell { time: t, row: r as usize, value: thread_code(ts.last()) }],
            None => Seq::<Cell>::empty(),
        })
    }
}

/// The cells of one process subtree at time `t`: the process itself (value
/// 1, "present"), its threads, then its children, pre-order. A node whose
/// label does not resolve contributes nothing.
pub open spec fn tree_cells(ls: Seq<Seq<char>>, p: Process, t: usize, depth: nat) -> Seq<Cell>
    decreases p,
{
    (match find_last(ls, proc_label(p.name@, p.pid, depth)) {
        Some(r) => seq![Cell { time: t, row: r as usize, value: 1 }],
        None => Seq::<Cell>::empty(),
    }) + thread_cells(ls, p.threads@, t, depth) + forest_cells(
        ls,
        p.children@,
        t,
        (depth + 1) as nat,
    )
}

/// The cells of a sequence of sibling processes, first process first.
pub open spec fn forest_cells(ls: Seq<Seq<char>>, ps: Seq<Process>, t: usize, depth: nat) -> Seq<
    Cell,
>
    decreases ps,
{
    if ps.len() == 0 {
        Seq::<Cell>::empty()
    } else {
        forest_cells(ls, ps.drop_last(), t, depth) + tree_cells(ls, ps.last(), t, depth)
    }
}

/// The cells of a snapshot's GPU entries, in entry order.
pub open spec fn gpu_cells(ls: Seq<Seq<char>>, gs: Seq<GpuStatus>, t: usize) -> Seq<Cell>
    decreases gs.len(),
{
    if gs.len() == 0 {
        Seq::<Cell>::empty()
    } else {
        gpu_cells(ls, gs.drop_last(), t) + (match find_last(ls, gpu_label(gs.last().id)) {
            Some(r) => seq![
                Cell { time: t, row: r as usize, value: load_cell_value(gs.last().load_milli_percent) },
            ],
            None => Seq::<Cell>::empty(),
        })
    }
}

/// All cells of one snapshot: its process tree, then its GPUs.
pub open spec fn snap_cells(ls: Seq<Seq<char>>, s: Snapshot, t: usize) -> Seq<Cell> {
    tree_cells(ls, s.process_tree, t, 0) + gpu_cells(ls, s.gpu_status@, t)
}

/// The cells of the snapshots with indices in `[lo, hi]`, in time order.
pub open spec fn cells_range(ls: Seq<Seq<char>>, snaps: Seq<Snapshot>, lo: int, hi: int) -> Seq<
    Cell,
>
    decreases hi + 1 - lo,
{
    if hi < lo {
        Seq::<Cell>::empty()
    } else {
        cells_range(ls, snaps, lo, hi - 1) + snap_cells(ls, snaps[hi], hi as usize)
    }
}

/// The whole matrix over the window `[min, max]`, clamped to the sequence
/// bounds; an inverted or out-of-range window yields an empty matrix.
pub open spec fn matrix_spec(
    ls: Seq<Seq<char>>,
    snaps: Seq<Snapshot>,
    min: usize,
    max: usize,
) -> Seq<Cell> {
    if max < min {
        Seq::<Cell>::empty()
    } else {
        let hi = if max as int <= snaps.len() - 1 {
            max as int
        } else {
            snaps.len() - 1
        };
        cells_range(ls, snaps, min as int, hi)
    }
}

/// Emits the cells of one process subtree into `out`.
fn walk(
    out: &mut Vec<Cell>,
    ix: &LabelIndex,
    p: &Process,
    t: usize,
    indent: &String,
    is_root: bool,
    depth: Ghost<nat>,
)
    requires
        indent@ == indent_str(depth@),
        is_root == (depth@ == 0),
    ensures
        final(out)@ == old(out)@ + tree_cells(strs_view(ix.labels@), *p, t, depth@),
    decreases *p,
{
    let ghost ls = strs_view(ix.labels@);
    let l = render_proc_label(indent, &p.name, p.pid, is_root, depth);
    match ix.row_of(&l) {
        Some(row) => out.push(Cell { time: t, row, value: 1 }),
        None => (),
    }
    let ghost base = out@;
    proof {
        assert(base =~= old(out)@ + (match find_last(ls, proc_label(p.name@, p.pid, depth@)) {
            Some(r) => seq![Cell { time: t, row: r as usize, value: 1 }],
            None => Seq::<Cell>::empty(),
        }));
    }
    let mut child_indent = indent.clone();
    child_indent.append("    ");
    proof {
        assert(child_indent@ == indent_str(depth@ + 1));
        assert(p.threads@.subrange(0, 0) =~= Seq::<Thread>::empty());
    }
    let mut i: usize = 0;
    while i < p.threads.len()
        invariant
            i <= p.threads@.len(),
            child_indent@ == indent_str(depth@ + 1),
            ls == strs_view(ix.labels@),
            out@ == base + thread_cells(ls, p.threads@.subrange(0, i as int), t, depth@),
        decreases p.threads@.len() - i,
    {
        let th = &p.threads[i];
        let tl = render_thread_label(&child_indent, &th.name, th.tid, depth);
        match ix.row_of(&tl) {
            Some(row) => {
                let code = thread_state_code(th);
                out.push(Cell { time: t, row, value: code });
            },
            None => (),
        }
        proof {
            let sub1 = p.threads@.subrange(0, i + 1);
            assert(sub1.drop_last() =~= p.threads@.subrange(0, i as int));
            assert(sub1.last() == p.threads@[i as int]);
        }
        i = i + 1;
    }
    proof {
        assert(p.threads@.subrange(0, p.threads@.len() as int) =~= p.threads@);
        assert(p.children@.subrange(0, 0) =~= Seq::<Process>::empty());
    }
    let ghost base2 = out@;
    let mut j: usize = 0;
    while j < p.children.len()
        invariant
            j <= p.children@.len(),
            child_indent@ == indent_str(depth@ + 1),
            ls == strs_view(ix.labels@),
            out@ == base2 + forest_cells(ls, p.children@.subrange(0, j as int), t, depth@ + 1),
        decreases p.children@.len() - j,
    {
        proof {
            assert(decreases_to!(*p => p.children@[j as int]));
        }
        walk(out, ix, &p.children[j], t, &child_indent, false, Ghost(depth@ + 1));
        proof {
            let sub1 = p.children@.subrange(0, j + 1);
            assert(sub1.drop_last() =~= p.children@.subrange(0, j as int));
            assert(sub1.last() == p.children@[j as int]);
        }
        j = j + 1;
    }
    proof {
        assert(p.children@.subrange(0, p.children@.len() as int) =~= p.children@);
        assert(out@ =~= old(out)@ + tree_cells(ls, *p, t, depth@));
    }
}

/// Emits the cells of one snapshot's GPU entries into `out`.
fn emit_gpu_cells(out: &mut Vec<Cell>, ix: &LabelIndex, gs: &Vec<GpuStatus>, t: usize)
    ensures
        final(out)@ == old(out)@ + gpu_cells(strs_view(ix.labels@), gs@, t),
{
    let ghost ls = strs_view(ix.labels@);
    proof {
        assert(gs@.subrange(0, 0) =~= Seq::<GpuStatus>::empty());
    }
    let mut j: usize = 0;
    while j < gs.len()
        invariant
            j <= gs@.len(),
            ls == strs_view(ix.labels@),
            out@ == old(out)@ + gpu_cells(ls, gs@.subrange(0, j as int), t),
        decreases gs@.len() - j,
    {
        let g = &gs[j];
        let l = render_gpu_label(g.id);
        match ix.row_of(&l) {
            Some(row) => {
                let lm = g.load_milli_percent;
                let c: i64 = if lm < 0 {
                    0
                } else if lm > 100000 {
                    100000
                } else {
                    lm
                };
                let v: u8 = ((c as u64) / 1000) as u8 + 5;
                proof {
                    assert(v == load_cell_value(lm));
                }
                out.push(Cell { time: t, row, value: v });
            },
            None => (),
        }
        proof {
            let sub1 = gs@.subrange(0, j + 1);
            assert(sub1.drop_last() =~= gs@.subrange(0, j as int));
            assert(sub1.last() == gs@[j as int]);
        }
        j = j + 1;
    }
    proof {
        assert(gs@.subrange(0, gs@.len() as int) =~= gs@);
    }
}

/// Builds the sparse cell matrix for the snapshots whose indices lie in
/// `[min, max]`, clamped to the sequence; an inverted window yields an
/// empty matrix rather than an error.
pub fn build_matrix(snaps: &Vec<Snapshot>, ix: &LabelIndex, min: usize, max: usize) -> (m: Vec<
    Cell,
>)
    ensures
        m@ == matrix_spec(strs_view(ix.labels@), snaps@, min, max),
{
    let ghost ls = strs_view(ix.labels@);
    let mut m: Vec<Cell> = Vec::new();
    if max < min || snaps.len() == 0 {
        return m;
    }
    let end: usize = if max <= snaps.len() - 1 {
        max
    } else {
        snaps.len() - 1
    };
    if min > end {
        return m;
    }
    let n = snaps.len();
    let mut t: usize = min;
    let empty_indent = String::new();
    while t <= end
        invariant
            min <= t <= end + 1,
            n == snaps@.len(),
            end < n,
            end == if max as int <= snaps@.len() - 1 {
                max as int
            } else {
                snaps@.len() - 1
            },
            empty_indent@ == indent_str(0),
            ls == strs_view(ix.labels@),
            m@ == cells_range(ls, snaps@, min as int, t - 1),
        decreases end + 1 - t,
    {
        walk(&mut m, ix, &snaps[t].process_tree, t, &empty_indent, true, Ghost(0nat));
        emit_gpu_cells(&mut m, ix, &snaps[t].gpu_status, t);
        proof {
            assert(m@ =~= cells_range(ls, snaps@, min as int, t as int));
        }
        t = t + 1;
    }
    m
}

} // verus!
