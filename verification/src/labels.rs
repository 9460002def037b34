//! The label index: a deterministic, deduplicated row ordering for the
//! heatmap, derived from the entire snapshot sequence. GPU rows come first,
//! sorted ascending by id; process and thread rows follow, flattened in
//! pre-order from a prefix tree that records first-seen insertion order.

use vstd::prelude::*;
use vstd::string::StringExecFns;
use crate::model::{
    indent_str, opt_str_view, proc_label, render_gpu_label, render_proc_label,
    render_thread_label, thread_label, gpu_label, Process, Snapshot, Thread,
};

verus! {

/// The mathematical form of one node of the label prefix tree.
pub ghost struct LabelNode {
    pub label: Seq<char>,
    pub children: Seq<LabelNode>,
}

/// One node of the executable label prefix tree.
#[derive(Debug)]
pub struct LabelTree {
    pub label: String,
    pub children: Vec<LabelTree>,
}

/// The mathematical view of an executable label tree node.
pub open spec fn tree_view(t: LabelTree) -> LabelNode
    decreases t,
{
    LabelNode { label: t.label@, children: forest_view(t.children@) }
}

/// The mathematical view of a sequence of label tree nodes.
pub open spec fn forest_view(ts: Seq<LabelTree>) -> Seq<LabelNode>
    decreases ts,
{
    if ts.len() == 0 {
        Seq::<LabelNode>::empty()
    } else {
        forest_view(ts.drop_last()).push(tree_view(ts.last()))
    }
}

/// The views of a sequence of strings.
pub open spec fn strs_view(ss: Seq<String>) -> Seq<Seq<char>> {
    Seq::new(ss.len(), |i: int| ss[i]@)
}

pub proof fn lemma_forest_view(ts: Seq<LabelTree>)
    ensures
        forest_view(ts).len() == ts.len(),
        forall|i: int| 0 <= i < ts.len() ==> forest_view(ts)[i] == tree_view(ts[i]),
    decreases ts,
{
    if ts.len() > 0 {
        lemma_forest_view(ts.drop_last());
    }
}

/// The index of the first node in `cs` labelled `l`, searching from `j`.
pub open spec fn find_node(cs: Seq<LabelNode>, l: Seq<char>, j: int) -> Option<int>
    decreases cs.len() - j,
{
    if j >= cs.len() {
        None
    } else if cs[j].label == l {
        Some(j)
    } else {
        find_node(cs, l, j + 1)
    }
}

/// Inserts a leaf labelled `l` into the forest `cs` unless one of its nodes
/// already carries that label; insertion appends, never reorders.
pub open spec fn insert_leaf(cs: Seq<LabelNode>, l: Seq<char>) -> Seq<LabelNode> {
    match find_node(cs, l, 0) {
        Some(_) => cs,
        None => cs.push(LabelNode { label: l, children: Seq::<LabelNode>::empty() }),
    }
}

/// Inserts the labels of the threads `ts` (owned by a process at `depth`)
/// into the forest `cs`, in order.
pub open spec fn insert_threads(cs: Seq<LabelNode>, ts: Seq<Thread>, depth: nat) -> Seq<
    LabelNode,
>
    decreases ts.len(),
{
    if ts.len() == 0 {
        cs
    } else {
        insert_leaf(
            insert_threads(cs, ts.drop_last(), depth),
            thread_label(opt_str_view(ts.last().name), ts.last().tid, depth),
        )
    }
}

/// Inserts the process `p` at `depth` into the forest `cs`: finds or appends
/// the node carrying `p`'s label, then inserts `p`'s thread labels and,
/// recursively, its child processes under that node.
pub open spec fn insert_proc(cs: Seq<LabelNode>, p: Process, depth: nat) -> Seq<LabelNode>
    decreases p,
{
    let l = proc_label(p.name@, p.pid, depth);
    let found = find_node(cs, l, 0);
    let cs1 = if found is Some {
        cs
    } else {
        cs.push(LabelNode { label: l, children: Seq::<LabelNode>::empty() })
    };
    let idx = if found is Some {
        found->Some_0
    } else {
        cs.len() as int
    };
    let node = cs1[idx];
    let kids1 = insert_threads(node.children, p.threads@, depth);
    let kids2 = insert_procs(kids1, p.children@, (depth + 1) as nat);
    cs1.update(idx, LabelNode { label: node.label, children: kids2 })
}

/// Inserts the processes `ps` into the forest `cs`, first element first.
pub open spec fn insert_procs(cs: Seq<LabelNode>, ps: Seq<Process>, depth: nat) -> Seq<LabelNode>
    decreases ps,
{
    if ps.len() == 0 {
        cs
    } else {
        insert_proc(insert_procs(cs, ps.drop_last(), depth), ps.last(), depth)
    }
}

/// The label forest of a whole snapshot sequence: each snapshot's process
/// tree inserted as a root, first snapshot first.
pub open spec fn forest_of_snaps(snaps: Seq<Snapshot>) -> Seq<LabelNode>
    decreases snaps.len(),
{
    if snaps.len() == 0 {
        Seq::<LabelNode>::empty()
    } else {
        insert_proc(forest_of_snaps(snaps.drop_last()), snaps.last().process_tree, 0)
    }
}

/// Pre-order flattening of one node: its own label, then its children's.
pub open spec fn flatten_node(n: LabelNode) -> Seq<Seq<char>>
    decreases n,
{
    seq![n.label] + flatten_forest(n.children)
}

/// Pre-order flattening of a forest, first node first.
pub open spec fn flatten_forest(cs: Seq<LabelNode>) -> Seq<Seq<char>>
    decreases cs,
{
    if cs.len() == 0 {
        Seq::<Seq<char>>::empty()
    } else {
        flatten_forest(cs.drop_last()) + flatten_node(cs.last())
    }
}

/// Whether some snapshot in `snaps` reports a GPU with this id.
pub open spec fn gpu_id_present(snaps: Seq<Snapshot>, id: u32) -> bool {
    exists|i: int, j: int|
        0 <= i < snaps.len() && 0 <= j < snaps[i].gpu_status@.len() && snaps[i].gpu_status@[j].id
            == id
}

/// Whether a GPU id occurs in the first `i` snapshots, or among the first
/// `j` GPU entries of snapshot `i`.
pub open spec fn gpu_id_present_upto(snaps: Seq<Snapshot>, i: int, j: int, id: u32) -> bool {
    exists|a: int, b: int|
        0 <= a < snaps.len() && 0 <= b < snaps[a].gpu_status@.len() && (a < i || (a == i && b < j))
            && snaps[a].gpu_status@[b].id == id
}

pub open spec fn strictly_sorted(ids: Seq<u32>) -> bool {
    forall|a: int, b: int| 0 <= a < b < ids.len() ==> ids[a] < ids[b]
}

/// The GPU labels of a sequence of ids, in order.
pub open spec fn gpu_labels_of(ids: Seq<u32>) -> Seq<Seq<char>> {
    Seq::new(ids.len(), |i: int| gpu_label(ids[i]))
}

/// The full row-label sequence of a snapshot sequence, given the sorted
/// distinct GPU ids: GPU labels first, then the flattened label forest.
pub open spec fn label_rows(snaps: Seq<Snapshot>, ids: Seq<u32>) -> Seq<Seq<char>> {
    gpu_labels_of(ids) + flatten_forest(forest_of_snaps(snaps))
}

/// The index of the last row labelled `l`, if any; when two distinct nodes
/// render identical label text, the later row wins, as the rebuilt mapping
/// from label text to row would have it.
pub open spec fn find_last(ls: Seq<Seq<char>>, l: Seq<char>) -> Option<int>
    decreases ls.len(),
{
    if ls.len() == 0 {
        None
    } else if ls.last() == l {
        Some(ls.len() - 1)
    } else {
        find_last(ls.drop_last(), l)
    }
}

/// The computed row ordering: `labels[r]` is the label of row `r`; the first
/// `gpu_rows` rows are the GPU rows, labelled by `gpu_ids` in order.
#[derive(Debug)]
pub struct LabelIndex {
    pub labels: Vec<String>,
    pub gpu_ids: Vec<u32>,
    pub gpu_rows: usize,
}

impl LabelIndex {
    /// The index is exactly the label rows determined by the snapshots it
    /// was built from.
    pub open spec fn matches(&self, snaps: Seq<Snapshot>) -> bool {
        &&& strictly_sorted(self.gpu_ids@)
        &&& (forall|id: u32| self.gpu_ids@.contains(id) <==> gpu_id_present(snaps, id))
        &&& self.gpu_rows == self.gpu_ids@.len()
        &&& strs_view(self.labels@) == label_rows(snaps, self.gpu_ids@)
    }

    /// Resolves a label to its row: the last row carrying this text.
    pub fn row_of(&self, label: &String) -> (r: Option<usize>)
        ensures
            match find_last(strs_view(self.labels@), label@) {
                Some(i) => r == Some(i as usize),
                None => r is None,
            },
    {
        let ghost full = strs_view(self.labels@);
        proof {
            assert(full.subrange(0, full.len() as int) =~= full);
        }
        let mut j: usize = self.labels.len();
        while j > 0
            invariant
                j <= self.labels.len(),
                find_last(full, label@) == find_last(full.subrange(0, j as int), label@),
                full == strs_view(self.labels@),
            decreases j,
        {
            j = j - 1;
            if self.labels[j].eq(label) {
                proof {
                    assert(full.subrange(0, j + 1).last() == label@);
                }
                return Some(j);
            }
            proof {
                assert(full.subrange(0, j + 1).last() != label@);
                assert(full.subrange(0, j + 1).drop_last() =~= full.subrange(0, j as int));
            }
        }
        proof {
            assert(full.subrange(0, 0) =~= Seq::<Seq<char>>::empty());
        }
        None
    }
}

/// Finds the node labelled `l` in the forest, appending a fresh leaf with
/// that label when none carries it; returns the node's position.
fn find_or_append(forest: &mut Vec<LabelTree>, l: String) -> (idx: usize)
    ensures
        forest_view(final(forest)@) == insert_leaf(forest_view(old(forest)@), l@),
        idx < final(forest)@.len(),
        match find_node(forest_view(old(forest)@), l@, 0) {
            Some(i) => final(forest)@ == old(forest)@ && idx as int == i,
            None => {
                &&& idx as int == old(forest)@.len()
                &&& final(forest)@.len() == old(forest)@.len() + 1
                &&& forall|i: int|
                    0 <= i < old(forest)@.len() ==> final(forest)@[i] == old(forest)@[i]
            },
        },
{
    let ghost fv = forest_view(forest@);
    proof {
        lemma_forest_view(forest@);
    }
    let mut j: usize = 0;
    while j < forest.len()
        invariant
            j <= forest.len(),
            fv == forest_view(forest@),
            fv.len() == forest@.len(),
            forall|i: int| 0 <= i < forest@.len() ==> fv[i] == tree_view(forest@[i]),
            find_node(fv, l@, 0) == find_node(fv, l@, j as int),
        decreases forest.len() - j,
    {
        if forest[j].label.eq(&l) {
            return j;
        }
        j = j + 1;
    }
    let idx = forest.len();
    forest.push(LabelTree { label: l, children: Vec::new() });
    proof {
        assert(forest@.drop_last() =~= old(forest)@);
        assert(forest_view(forest@) == forest_view(old(forest)@).push(
            tree_view(forest@.last()),
        ));
        assert(tree_view(forest@.last()) == LabelNode {
            label: l@,
            children: Seq::<LabelNode>::empty(),
        });
    }
    idx
}

/// Inserts the thread labels of one process into `forest`, in order.
fn insert_threads_exec(
    forest: &mut Vec<LabelTree>,
    ts: &Vec<Thread>,
    child_indent: &String,
    depth: Ghost<nat>,
) -> (r: ())
    requires
        child_indent@ == indent_str(depth@ + 1),
    ensures
        forest_view(final(forest)@) == insert_threads(forest_view(old(forest)@), ts@, depth@),
{
    let mut i: usize = 0;
    while i < ts.len()
        invariant
            i <= ts.len(),
            child_indent@ == indent_str(depth@ + 1),
            forest_view(forest@) == insert_threads(
                forest_view(old(forest)@),
                ts@.subrange(0, i as int),
                depth@,
            ),
        decreases ts.len() - i,
    {
        let t = &ts[i];
        let l = render_thread_label(child_indent, &t.name, t.tid, depth);
        let _ = find_or_append(forest, l);
        proof {
            let sub1 = ts@.subrange(0, i + 1);
            assert(sub1.drop_last() =~= ts@.subrange(0, i as int));
            assert(sub1.last() == ts@[i as int]);
        }
        i = i + 1;
    }
    proof {
        assert(ts@.subrange(0, ts@.len() as int) =~= ts@);
    }
}

/// Inserts one process (and, recursively, its subtree) into `forest`.
fn insert_proc_exec(
    forest: &mut Vec<LabelTree>,
    p: &Process,
    indent: &String,
    is_root: bool,
    depth: Ghost<nat>,
)
    requires
        indent@ == indent_str(depth@),
        is_root == (depth@ == 0),
    ensures
        forest_view(final(forest)@) == insert_proc(forest_view(old(forest)@), *p, depth@),
    decreases *p,
{
    let ghost l_spec = proc_label(p.name@, p.pid, depth@);
    let ghost fv1 = insert_leaf(forest_view(old(forest)@), l_spec);
    let l = render_proc_label(indent, &p.name, p.pid, is_root, depth);
    let idx = find_or_append(forest, l);
    let ghost after_find = forest@;
    proof {
        lemma_forest_view(old(forest)@);
        lemma_forest_view(after_find);
        assert(forest_view(after_find) == fv1);
    }
    let mut child_indent = indent.clone();
    child_indent.append("    ");
    proof {
        assert(child_indent@ == indent_str(depth@ + 1));
    }
    let mut node = forest.remove(idx);
    proof {
        assert(tree_view(node) == fv1[idx as int]);
    }
    insert_threads_exec(&mut node.children, &p.threads, &child_indent, depth);
    let ghost kids1 = insert_threads(fv1[idx as int].children, p.threads@, depth@);
    let mut i: usize = 0;
    while i < p.children.len()
        invariant
            i <= p.children.len(),
            child_indent@ == indent_str(depth@ + 1),
            forest_view(node.children@) == insert_procs(
                kids1,
                p.children@.subrange(0, i as int),
                depth@ + 1,
            ),
            node.label@ == fv1[idx as int].label,
        decreases p.children.len() - i,
    {
        proof {
            assert(decreases_to!(*p => p.children@[i as int]));
        }
        insert_proc_exec(&mut node.children, &p.children[i], &child_indent, false, Ghost(depth@ + 1));
        proof {
            let sub1 = p.children@.subrange(0, i + 1);
            assert(sub1.drop_last() =~= p.children@.subrange(0, i as int));
            assert(sub1.last() == p.children@[i as int]);
        }
        i = i + 1;
    }
    proof {
        assert(p.children@.subrange(0, p.children@.len() as int) =~= p.children@);
    }
    let ghost nodev = tree_view(node);
    let ghost before_insert = forest@;
    forest.insert(idx, node);
    proof {
        assert(nodev == LabelNode {
            label: fv1[idx as int].label,
            children: insert_procs(kids1, p.children@, depth@ + 1),
        });
        lemma_forest_view_remove(after_find, idx as int);
        assert(forest_view(before_insert) =~= fv1.remove(idx as int));
        lemma_forest_view_insert(before_insert, idx as int, forest@[idx as int]);
        assert(tree_view(forest@[idx as int]) == nodev);
        assert(forest_view(forest@) =~= fv1.remove(idx as int).insert(idx as int, nodev));
        assert(fv1.remove(idx as int).insert(idx as int, nodev) =~= fv1.update(idx as int, nodev));
        assert(fv1.update(idx as int, nodev) == insert_proc(forest_view(old(forest)@), *p, depth@));
    }
}

/// Views commute with element removal from a forest.
proof fn lemma_forest_view_remove(ts: Seq<LabelTree>, i: int)
    requires
        0 <= i < ts.len(),
    ensures
        forest_view(ts.remove(i)) =~= forest_view(ts).remove(i),
{
    lemma_forest_view(ts);
    lemma_forest_view(ts.remove(i));
}

/// Views commute with element insertion into a forest.
proof fn lemma_forest_view_insert(ts: Seq<LabelTree>, i: int, x: LabelTree)
    requires
        0 <= i <= ts.len(),
    ensures
        forest_view(ts.insert(i, x)) =~= forest_view(ts).insert(i, tree_view(x)),
{
    lemma_forest_view(ts);
    lemma_forest_view(ts.insert(i, x));
}

/// Inserts `id` into a strictly sorted id list, keeping it sorted and
/// duplicate-free.
fn insert_sorted(ids: &mut Vec<u32>, id: u32)
    requires
        strictly_sorted(old(ids)@),
    ensures
        strictly_sorted(final(ids)@),
        forall|x: u32| final(ids)@.contains(x) <==> (old(ids)@.contains(x) || x == id),
{
    let mut k: usize = 0;
    while k < ids.len() && ids[k] < id
        invariant
            k <= ids@.len(),
            ids@ == old(ids)@,
            forall|a: int| 0 <= a < k ==> ids@[a] < id,
        decreases ids@.len() - k,
    {
        k = k + 1;
    }
    if k < ids.len() && ids[k] == id {
        proof {
            assert(ids@[k as int] == id);
            assert(ids@.contains(id));
        }
    } else {
        let ghost before = ids@;
        ids.insert(k, id);
        proof {
            assert(ids@ == before.insert(k as int, id));
            assert forall|a: int, b: int| 0 <= a < b < ids@.len() implies ids@[a] < ids@[b] by {
                if b < k {
                    assert(ids@[a] == before[a] && ids@[b] == before[b]);
                } else if a > k {
                    assert(ids@[a] == before[a - 1] && ids@[b] == before[b - 1]);
                } else if a < k && b == k {
                    assert(ids@[a] == before[a] && ids@[b] == id);
                } else if a == k {
                    assert(ids@[a] == id && ids@[b] == before[b - 1]);
                    assert(k < before.len() ==> before[k as int] > id);
                    assert(before[b - 1] >= before[k as int]);
                } else {
                    assert(ids@[a] == before[a] && ids@[b] == before[b - 1]);
                    assert(b - 1 >= k);
                    assert(k < before.len() ==> before[k as int] > id);
                }
            }
            assert forall|x: u32| ids@.contains(x) implies (before.contains(x) || x == id) by {
                let i = choose|i: int| 0 <= i < ids@.len() && ids@[i] == x;
                if i < k {
                    assert(before[i] == x);
                } else if i == k {
                } else {
                    assert(before[i - 1] == x);
                }
            }
            assert forall|x: u32| (before.contains(x) || x == id) implies ids@.contains(x) by {
                if x == id {
                    assert(ids@[k as int] == x);
                } else {
                    let i = choose|i: int| 0 <= i < before.len() && before[i] == x;
                    if i < k {
                        assert(ids@[i] == x);
                    } else {
                        assert(ids@[i + 1] == x);
                    }
                }
            }
        }
    }
}

/// Collects the distinct GPU ids of the whole snapshot sequence, sorted
/// ascending.
pub fn sorted_gpu_ids(snaps: &Vec<Snapshot>) -> (ids: Vec<u32>)
    ensures
        strictly_sorted(ids@),
        forall|id: u32| ids@.contains(id) <==> gpu_id_present(snaps@, id),
{
    let mut ids: Vec<u32> = Vec::new();
    let mut i: usize = 0;
    while i < snaps.len()
        invariant
            i <= snaps@.len(),
            strictly_sorted(ids@),
            forall|id: u32| ids@.contains(id) <==> gpu_id_present_upto(snaps@, i as int, 0, id),
        decreases snaps@.len() - i,
    {
        let mut j: usize = 0;
        while j < snaps[i].gpu_status.len()
            invariant
                i < snaps@.len(),
                j <= snaps@[i as int].gpu_status@.len(),
                strictly_sorted(ids@),
                forall|id: u32|
                    ids@.contains(id) <==> gpu_id_present_upto(snaps@, i as int, j as int, id),
            decreases snaps@[i as int].gpu_status@.len() - j,
        {
            let ghost before = ids@;
            insert_sorted(&mut ids, snaps[i].gpu_status[j].id);
            proof {
                let gid = snaps@[i as int].gpu_status@[j as int].id;
                assert forall|id: u32|
                    ids@.contains(id) implies gpu_id_present_upto(
                    snaps@,
                    i as int,
                    j + 1,
                    id,
                ) by {
                    if before.contains(id) {
                        let (a, b) = choose|a: int, b: int|
                            0 <= a < snaps@.len() && 0 <= b < snaps@[a].gpu_status@.len() && (a
                                < i as int || (a == i as int && b < j as int))
                                && snaps@[a].gpu_status@[b].id == id;
                        assert(0 <= a < snaps@.len() && 0 <= b < snaps@[a].gpu_status@.len() && (a
                            < i as int || (a == i as int && b < j + 1))
                            && snaps@[a].gpu_status@[b].id == id);
                    } else {
                        assert(id == gid);
                        assert(snaps@[i as int].gpu_status@[j as int].id == id);
                    }
                }
                assert forall|id: u32|
                    gpu_id_present_upto(snaps@, i as int, j + 1, id) implies ids@.contains(id) by {
                    let (a, b) = choose|a: int, b: int|
                        0 <= a < snaps@.len() && 0 <= b < snaps@[a].gpu_status@.len() && (a
                            < i as int || (a == i as int && b < j + 1))
                            && snaps@[a].gpu_status@[b].id == id;
                    if a < i as int || b < j as int {
                        assert(gpu_id_present_upto(snaps@, i as int, j as int, id));
                    } else {
                        assert(id == gid);
                    }
                }
            }
            j = j + 1;
        }
        proof {
            assert forall|id: u32|
                gpu_id_present_upto(snaps@, i as int, snaps@[i as int].gpu_status@.len() as int, id)
                    <==> gpu_id_present_upto(snaps@, i + 1, 0, id) by {}
        }
        i = i + 1;
    }
    proof {
        assert forall|id: u32|
            gpu_id_present_upto(snaps@, snaps@.len() as int, 0, id) <==> gpu_id_present(
            snaps@,
            id,
        ) by {}
    }
    ids
}

/// Appends one node's pre-order labels to `out`.
fn flatten_node_append(node: &LabelTree, out: &mut Vec<String>)
    ensures
        strs_view(final(out)@) == strs_view(old(out)@) + flatten_node(tree_view(*node)),
    decreases *node,
{
    out.push(node.label.clone());
    let ghost mid = out@;
    proof {
        assert(strs_view(mid) =~= strs_view(old(out)@) + seq![node.label@]);
        assert(decreases_to!(*node => node.children@));
    }
    flatten_forest_append_inner(&node.children, out);
    proof {
        assert(strs_view(out@) =~= strs_view(old(out)@) + flatten_node(tree_view(*node)));
    }
}

/// Appends a forest's pre-order labels to `out`, first node first.
fn flatten_forest_append_inner(forest: &Vec<LabelTree>, out: &mut Vec<String>)
    ensures
        strs_view(final(out)@) == strs_view(old(out)@) + flatten_forest(forest_view(forest@)),
    decreases forest@,
{
    let mut i: usize = 0;
    proof {
        assert(forest@.subrange(0, 0) =~= Seq::<LabelTree>::empty());
    }
    while i < forest.len()
        invariant
            i <= forest@.len(),
            strs_view(out@) == strs_view(old(out)@) + flatten_forest(
                forest_view(forest@.subrange(0, i as int)),
            ),
        decreases forest@.len() - i,
    {
        proof {
            assert(decreases_to!(forest@ => forest@[i as int]));
        }
        flatten_node_append(&forest[i], out);
        proof {
            lemma_forest_view(forest@);
            let sub1 = forest@.subrange(0, i + 1);
            assert(sub1.drop_last() =~= forest@.subrange(0, i as int));
            assert(sub1.last() == forest@[i as int]);
            let fv1 = forest_view(sub1);
            assert(fv1.drop_last() =~= forest_view(forest@.subrange(0, i as int)));
            assert(fv1.last() == tree_view(forest@[i as int]));
            assert(flatten_forest(fv1) == flatten_forest(fv1.drop_last()) + flatten_node(fv1.last()));
            assert(strs_view(out@) =~= strs_view(old(out)@) + flatten_forest(fv1));
        }
        i = i + 1;
    }
    proof {
        assert(forest@.subrange(0, forest@.len() as int) =~= forest@);
    }
}

/// Builds the label index of the whole snapshot sequence: sorted GPU rows
/// first, then the pre-order flattening of the label forest.
pub fn build_index(snaps: &Vec<Snapshot>) -> (ix: LabelIndex)
    ensures
        ix.matches(snaps@),
{
    let ids = sorted_gpu_ids(snaps);
    let mut labels: Vec<String> = Vec::new();
    let mut k: usize = 0;
    while k < ids.len()
        invariant
            k <= ids@.len(),
            labels@.len() == k,
            forall|a: int| 0 <= a < k ==> labels@[a]@ == gpu_label(ids@[a]),
        decreases ids@.len() - k,
    {
        labels.push(render_gpu_label(ids[k]));
        k = k + 1;
    }
    let ghost gpu_part = labels@;
    let mut forest: Vec<LabelTree> = Vec::new();
    let empty_indent = String::new();
    let mut i: usize = 0;
    proof {
        assert(snaps@.subrange(0, 0) =~= Seq::<Snapshot>::empty());
    }
    while i < snaps.len()
        invariant
            i <= snaps@.len(),
            empty_indent@ == indent_str(0),
            labels@ == gpu_part,
            forest_view(forest@) == forest_of_snaps(snaps@.subrange(0, i as int)),
        decreases snaps@.len() - i,
    {
        insert_proc_exec(&mut forest, &snaps[i].process_tree, &empty_indent, true, Ghost(0nat));
        proof {
            let sub1 = snaps@.subrange(0, i + 1);
            assert(sub1.drop_last() =~= snaps@.subrange(0, i as int));
            assert(sub1.last() == snaps@[i as int]);
        }
        i = i + 1;
    }
    proof {
        assert(snaps@.subrange(0, snaps@.len() as int) =~= snaps@);
    }
    flatten_forest_append_inner(&forest, &mut labels);
    let gpu_rows = ids.len();
    proof {
        assert(strs_view(gpu_part) =~= gpu_labels_of(ids@));
        assert(strs_view(labels@) =~= label_rows(snaps@, ids@));
    }
    LabelIndex { labels, gpu_ids: ids, gpu_rows }
}

} // verus!
