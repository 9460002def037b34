//! The library's cross-cutting guarantees, stated and proved once: decode
//! tolerance, label stability, GPU-first ordering, cell value domains,
//! division guards, window degeneracy, and recomputation purity.

use vstd::prelude::*;
use crate::decode::{line_outcome, line_shaped, none_idxs, rep_snapshot, shaped_count, somes_of};
use crate::json::line_value;
use crate::labels::{
    find_last, flatten_forest, forest_of_snaps, gpu_id_present, label_rows, strictly_sorted,
    strs_view, LabelIndex,
};
use crate::matrix::{
    cells_range, forest_cells, gpu_cells, load_cell_value, matrix_spec, thread_cells, tree_cells,
    Cell,
};
use crate::model::{gpu_label, proc_label, GpuStatus, Process, Snapshot, Thread};
use crate::series::{
    cpu_util_milli, cpu_util_spec, gpu_load_spec, gpu_mem_spec, mem_percent_milli, sat_usize,
    count_running,
};

verus! {

/// Partial-failure tolerance, counted: when every line got the outcome it
/// is owed, the lines holding representable records yield exactly that
/// many snapshots, in line order, and every other line yields exactly one
/// diagnostic — N valid lines among M invalid ones decode to N snapshots
/// and M diagnostics.
pub proof fn lemma_decode_counts(os: Seq<Option<Snapshot>>, lines: Seq<Seq<char>>)
    requires
        os.len() == lines.len(),
        forall|k: int| 0 <= k < os.len() ==> line_outcome(#[trigger] os[k], lines[k]),
    ensures
        somes_of(os).len() == shaped_count(lines),
        none_idxs(os).len() + shaped_count(lines) == lines.len(),
    decreases os.len(),
{
    if os.len() > 0 {
        assert forall|k: int|
            0 <= k < os.drop_last().len() implies line_outcome(
            #[trigger] os.drop_last()[k],
            lines.drop_last()[k],
        ) by {
            assert(os.drop_last()[k] == os[k]);
            assert(lines.drop_last()[k] == lines[k]);
        }
        lemma_decode_counts(os.drop_last(), lines.drop_last());
        assert(line_outcome(os[os.len() - 1], lines[lines.len() - 1]));
        if os.last() is Some {
            assert(line_shaped(lines.last()));
        } else {
            if line_shaped(lines.last()) {
                let s = choose|s: Snapshot|
                    rep_snapshot(s, line_value(lines.last())->Some_0);
                assert(!rep_snapshot(s, line_value(lines.last())->Some_0));
            }
        }
    }
}

/// Partial-failure tolerance, structurally: however many of the lines
/// decode, the surviving snapshots keep their relative order (they are, by
/// definition, the successful outcomes in sequence), every decoded line is
/// accounted for — successes plus diagnostics equal the line count — and
/// each diagnostic names, in ascending order, a line that indeed failed.
pub proof fn lemma_partial_failure_tolerance(os: Seq<Option<Snapshot>>)
    requires
        os.len() <= usize::MAX,
    ensures
        somes_of(os).len() + none_idxs(os).len() == os.len(),
        forall|a: int, b: int|
            0 <= a < b < none_idxs(os).len() ==> none_idxs(os)[a] < none_idxs(os)[b],
        forall|k: int|
            0 <= k < none_idxs(os).len() ==> none_idxs(os)[k] < os.len() && os[none_idxs(
                os,
            )[k] as int] is None,
    decreases os.len(),
{
    if os.len() > 0 {
        lemma_partial_failure_tolerance(os.drop_last());
        let dl = os.drop_last();
        assert forall|k: int|
            0 <= k < none_idxs(os).len() implies none_idxs(os)[k] < os.len() && os[none_idxs(
            os,
        )[k] as int] is None by {
            if k < none_idxs(dl).len() {
                assert(none_idxs(os)[k] == none_idxs(dl)[k]);
                assert(os[none_idxs(dl)[k] as int] == dl[none_idxs(dl)[k] as int]);
            } else {
                assert(os.last() is None);
                assert(none_idxs(os)[k] == (os.len() - 1) as usize);
            }
        }
    }
}

/// Two strictly ascending id lists with the same membership are the same
/// list.
pub proof fn lemma_sorted_unique(a: Seq<u32>, b: Seq<u32>)
    requires
        strictly_sorted(a),
        strictly_sorted(b),
        forall|x: u32| a.contains(x) <==> b.contains(x),
    ensures
        a == b,
    decreases a.len(),
{
    if a.len() == 0 {
        if b.len() > 0 {
            assert(b.contains(b[0]));
            assert(a.contains(b[0]));
        }
        assert(a =~= b);
    } else {
        if b.len() == 0 {
            assert(a.contains(a[0]));
            assert(b.contains(a[0]));
        }
        assert(b.len() > 0);
        assert(a.contains(a[0]));
        assert(b.contains(b[0]));
        let ja = choose|j: int| 0 <= j < b.len() && b[j] == a[0];
        let jb = choose|j: int| 0 <= j < a.len() && a[j] == b[0];
        assert(b[0] <= b[ja]);
        assert(a[0] <= a[jb]);
        assert(a[0] == b[0]);
        let at = a.drop_first();
        let bt = b.drop_first();
        assert(strictly_sorted(at)) by {
            assert forall|p: int, q: int| 0 <= p < q < at.len() implies at[p] < at[q] by {
                assert(at[p] == a[p + 1] && at[q] == a[q + 1]);
            }
        }
        assert(strictly_sorted(bt)) by {
            assert forall|p: int, q: int| 0 <= p < q < bt.len() implies bt[p] < bt[q] by {
                assert(bt[p] == b[p + 1] && bt[q] == b[q + 1]);
            }
        }
        assert forall|x: u32| at.contains(x) implies bt.contains(x) by {
            let k = choose|k: int| 0 <= k < at.len() && at[k] == x;
            assert(a[k + 1] == x);
            assert(a.contains(x));
            assert(x > a[0]);
            assert(b.contains(x));
            let m = choose|m: int| 0 <= m < b.len() && b[m] == x;
            assert(m != 0);
            assert(bt[m - 1] == x);
        }
        assert forall|x: u32| bt.contains(x) implies at.contains(x) by {
            let k = choose|k: int| 0 <= k < bt.len() && bt[k] == x;
            assert(b[k + 1] == x);
            assert(b.contains(x));
            assert(x > b[0]);
            assert(a.contains(x));
            let m = choose|m: int| 0 <= m < a.len() && a[m] == x;
            assert(m != 0);
            assert(at[m - 1] == x);
        }
        lemma_sorted_unique(at, bt);
        assert forall|i: int| 0 <= i < a.len() implies a[i] == b[i] by {
            if i > 0 {
                assert(a[i] == at[i - 1]);
                assert(b[i] == bt[i - 1]);
            }
        }
        assert(a =~= b);
    }
}

/// Label stability: any two indices built from the same snapshot sequence
/// carry the same GPU ids, the same row count split, and the same label
/// text in the same order — rebuilding never reorders rows.
pub proof fn lemma_label_stability(ix1: LabelIndex, ix2: LabelIndex, snaps: Seq<Snapshot>)
    requires
        ix1.matches(snaps),
        ix2.matches(snaps),
    ensures
        ix1.gpu_ids@ == ix2.gpu_ids@,
        ix1.gpu_rows == ix2.gpu_rows,
        strs_view(ix1.labels@) == strs_view(ix2.labels@),
{
    assert forall|x: u32| ix1.gpu_ids@.contains(x) <==> ix2.gpu_ids@.contains(x) by {
        assert(ix1.gpu_ids@.contains(x) <==> gpu_id_present(snaps, x));
        assert(ix2.gpu_ids@.contains(x) <==> gpu_id_present(snaps, x));
    }
    lemma_sorted_unique(ix1.gpu_ids@, ix2.gpu_ids@);
}

/// Replaying the last snapshot changes nothing: an index built after the
/// duplicate arrives has the same rows, in the same order and number, as
/// one built before it — a duplicate label is neither added nor moved.
pub proof fn lemma_replay_stability(ix1: LabelIndex, ix2: LabelIndex, snaps: Seq<Snapshot>)
    requires
        snaps.len() > 0,
        ix1.matches(snaps),
        ix2.matches(snaps.push(snaps.last())),
    ensures
        strs_view(ix1.labels@) == strs_view(ix2.labels@),
        ix1.gpu_rows == ix2.gpu_rows,
{
    let ext = snaps.push(snaps.last());
    assert forall|id: u32| gpu_id_present(snaps, id) <==> gpu_id_present(ext, id) by {
        if gpu_id_present(snaps, id) {
            let (a, b) = choose|a: int, b: int|
                0 <= a < snaps.len() && 0 <= b < snaps[a].gpu_status@.len()
                    && snaps[a].gpu_status@[b].id == id;
            assert(ext[a] == snaps[a]);
            assert(gpu_id_present(ext, id));
        }
        if gpu_id_present(ext, id) {
            let (a, b) = choose|a: int, b: int|
                0 <= a < ext.len() && 0 <= b < ext[a].gpu_status@.len() && ext[a].gpu_status@[b].id
                    == id;
            if a < snaps.len() {
                assert(ext[a] == snaps[a]);
                assert(gpu_id_present(snaps, id));
            } else {
                assert(ext[a] == snaps[snaps.len() - 1]);
                assert(snaps[snaps.len() - 1].gpu_status@[b].id == id);
                assert(gpu_id_present(snaps, id));
            }
        }
    }
    assert forall|x: u32| ix1.gpu_ids@.contains(x) <==> ix2.gpu_ids@.contains(x) by {
        assert(ix1.gpu_ids@.contains(x) <==> gpu_id_present(snaps, x));
        assert(ix2.gpu_ids@.contains(x) <==> gpu_id_present(ext, x));
    }
    lemma_sorted_unique(ix1.gpu_ids@, ix2.gpu_ids@);
    crate::replay::lemma_replay_last_snapshot(snaps);
}

/// GPU-first ordering: the first `gpu_rows` rows are exactly the GPU
/// labels, ascending by id, and every process or thread row lies strictly
/// after them.
pub proof fn lemma_gpu_first(ix: LabelIndex, snaps: Seq<Snapshot>)
    requires
        ix.matches(snaps),
    ensures
        ix.gpu_rows <= ix.labels@.len(),
        forall|k: int|
            0 <= k < ix.gpu_rows ==> strs_view(ix.labels@)[k] == gpu_label(ix.gpu_ids@[k]),
        forall|a: int, b: int| 0 <= a < b < ix.gpu_rows ==> ix.gpu_ids@[a] < ix.gpu_ids@[b],
        forall|k: int|
            ix.gpu_rows <= k < ix.labels@.len() ==> strs_view(ix.labels@)[k] == flatten_forest(
                forest_of_snaps(snaps),
            )[k - ix.gpu_rows],
{
    assert(strs_view(ix.labels@) == label_rows(snaps, ix.gpu_ids@));
}

/// Thread and process cells carry only the categorical values 0 through 4.
pub proof fn lemma_thread_cells_domain(ls: Seq<Seq<char>>, ts: Seq<Thread>, t: usize, depth: nat)
    ensures
        forall|k: int|
            0 <= k < thread_cells(ls, ts, t, depth).len() ==> thread_cells(
                ls,
                ts,
                t,
                depth,
            )[k].value <= 4,
    decreases ts.len(),
{
    if ts.len() > 0 {
        lemma_thread_cells_domain(ls, ts.drop_last(), t, depth);
        let whole = thread_cells(ls, ts, t, depth);
        let left = thread_cells(ls, ts.drop_last(), t, depth);
        assert forall|k: int| 0 <= k < whole.len() implies whole[k].value <= 4 by {
            if k < left.len() {
                assert(whole[k] == left[k]);
            }
        }
    }
}

/// Every cell a process subtree emits is categorical: value at most 4.
pub proof fn lemma_tree_cells_domain(ls: Seq<Seq<char>>, p: Process, t: usize, depth: nat)
    ensures
        forall|k: int|
            0 <= k < tree_cells(ls, p, t, depth).len() ==> tree_cells(ls, p, t, depth)[k].value
                <= 4,
    decreases p,
{
    lemma_thread_cells_domain(ls, p.threads@, t, depth);
    lemma_forest_cells_domain(ls, p.children@, t, depth + 1);
    let whole = tree_cells(ls, p, t, depth);
    let own = match find_last(ls, proc_label(p.name@, p.pid, depth)) {
        Some(r) => seq![Cell { time: t, row: r as usize, value: 1 }],
        None => Seq::<Cell>::empty(),
    };
    let ths = thread_cells(ls, p.threads@, t, depth);
    let kids = forest_cells(ls, p.children@, t, depth + 1);
    assert forall|k: int| 0 <= k < whole.len() implies whole[k].value <= 4 by {
        if k < own.len() + ths.len() {
            if k < own.len() {
                assert(whole[k] == own[k]);
            } else {
                assert(whole[k] == ths[k - own.len()]);
            }
        } else {
            assert(whole[k] == kids[k - own.len() - ths.len()]);
        }
    }
}

/// Every cell a sequence of subtrees emits is categorical.
pub proof fn lemma_forest_cells_domain(ls: Seq<Seq<char>>, ps: Seq<Process>, t: usize, depth: nat)
    ensures
        forall|k: int|
            0 <= k < forest_cells(ls, ps, t, depth).len() ==> forest_cells(
                ls,
                ps,
                t,
                depth,
            )[k].value <= 4,
    decreases ps,
{
    if ps.len() > 0 {
        lemma_forest_cells_domain(ls, ps.drop_last(), t, depth);
        lemma_tree_cells_domain(ls, ps.last(), t, depth);
        let whole = forest_cells(ls, ps, t, depth);
        let left = forest_cells(ls, ps.drop_last(), t, depth);
        let right = tree_cells(ls, ps.last(), t, depth);
        assert forall|k: int| 0 <= k < whole.len() implies whole[k].value <= 4 by {
            if k < left.len() {
                assert(whole[k] == left[k]);
            } else {
                assert(whole[k] == right[k - left.len()]);
            }
        }
    }
}

/// Every GPU cell sits in the load band: value between 5 and 105.
pub proof fn lemma_gpu_cells_domain(ls: Seq<Seq<char>>, gs: Seq<GpuStatus>, t: usize)
    ensures
        forall|k: int|
            0 <= k < gpu_cells(ls, gs, t).len() ==> 5 <= (#[trigger] gpu_cells(ls, gs, t)[k]).value
                && gpu_cells(ls, gs, t)[k].value <= 105,
    decreases gs.len(),
{
    if gs.len() > 0 {
        lemma_gpu_cells_domain(ls, gs.drop_last(), t);
        assert(5 <= load_cell_value(gs.last().load_milli_percent) <= 105);
        let whole = gpu_cells(ls, gs, t);
        let left = gpu_cells(ls, gs.drop_last(), t);
        assert forall|k: int|
            0 <= k < whole.len() implies 5 <= (#[trigger] whole[k]).value && whole[k].value
            <= 105 by {
            if k < left.len() {
                assert(whole[k] == left[k]);
            }
        }
    }
}

/// Value-domain separation: every emitted cell value lies in the single
/// 0..=105 scale — categorical states in 0..=4, GPU load in 5..=105 — and
/// nothing outside it is ever produced.
pub proof fn lemma_value_domains(ls: Seq<Seq<char>>, snaps: Seq<Snapshot>, min: usize, max: usize)
    ensures
        forall|k: int|
            0 <= k < matrix_spec(ls, snaps, min, max).len() ==> matrix_spec(
                ls,
                snaps,
                min,
                max,
            )[k].value <= 105,
{
    if !(max < min) {
        let hi = if max as int <= snaps.len() - 1 {
            max as int
        } else {
            snaps.len() - 1
        };
        lemma_cells_range_domain(ls, snaps, min as int, hi);
    }
}

/// Every cell of a snapshot range respects the 0..=105 scale.
pub proof fn lemma_cells_range_domain(ls: Seq<Seq<char>>, snaps: Seq<Snapshot>, lo: int, hi: int)
    ensures
        forall|k: int|
            0 <= k < cells_range(ls, snaps, lo, hi).len() ==> cells_range(
                ls,
                snaps,
                lo,
                hi,
            )[k].value <= 105,
    decreases hi + 1 - lo,
{
    if hi >= lo {
        lemma_cells_range_domain(ls, snaps, lo, hi - 1);
        lemma_tree_cells_domain(ls, snaps[hi].process_tree, hi as usize, 0);
        lemma_gpu_cells_domain(ls, snaps[hi].gpu_status@, hi as usize);
        let whole = cells_range(ls, snaps, lo, hi);
        let left = cells_range(ls, snaps, lo, hi - 1);
        let trees = tree_cells(ls, snaps[hi].process_tree, hi as usize, 0);
        let gpus = gpu_cells(ls, snaps[hi].gpu_status@, hi as usize);
        assert forall|k: int| 0 <= k < whole.len() implies whole[k].value <= 105 by {
            if k < left.len() {
                assert(whole[k] == left[k]);
            } else if k < left.len() + trees.len() {
                assert(whole[k] == trees[k - left.len()]);
            } else {
                assert(whole[k] == gpus[k - left.len() - trees.len()]);
            }
        }
    }
}

/// Division-by-zero safety: a GPU entry whose reported total memory is not
/// positive yields a memory percent of exactly zero, and a snapshot with
/// zero CPU cores is measured against one core, never zero.
pub proof fn lemma_division_guards(used: i64, total: i64, s: Snapshot)
    ensures
        total <= 0 ==> mem_percent_milli(used, total) == 0,
        s.cpu_cores_total == 0 ==> cpu_util_milli(s) == ({
            let q = (sat_usize(count_running(s.process_tree)) as int) * 100000 / 1;
            if q > i64::MAX {
                i64::MAX
            } else {
                q as i64
            }
        }),
{
}

/// Window degeneracy: an inverted window — and equally one that starts past
/// the end of the sequence — yields an empty matrix and empty series, not
/// an error.
pub proof fn lemma_window_degeneracy(ls: Seq<Seq<char>>, snaps: Seq<Snapshot>, min: usize, max: usize)
    requires
        max < min || snaps.len() <= min,
    ensures
        matrix_spec(ls, snaps, min, max) == Seq::<Cell>::empty(),
        gpu_load_spec(snaps, min, max).len() == 0,
        gpu_mem_spec(snaps, min, max).len() == 0,
        cpu_util_spec(snaps, min, max).len() == 0,
{
}

/// Idempotence / purity: recomputing over the same snapshot sequence and
/// window gives identical outputs. The series specs take only `(snapshots,
/// window)`, so their purity is immediate; the matrix additionally goes
/// through whichever label index was built, and any two such indices give
/// the same rows and therefore the same cells.
pub proof fn lemma_recompute_pure(
    ix1: LabelIndex,
    ix2: LabelIndex,
    snaps: Seq<Snapshot>,
    min: usize,
    max: usize,
)
    requires
        ix1.matches(snaps),
        ix2.matches(snaps),
    ensures
        strs_view(ix1.labels@) == strs_view(ix2.labels@),
        matrix_spec(strs_view(ix1.labels@), snaps, min, max) == matrix_spec(
            strs_view(ix2.labels@),
            snaps,
            min,
            max,
        ),
{
    lemma_label_stability(ix1, ix2, snaps);
}

} // verus!
