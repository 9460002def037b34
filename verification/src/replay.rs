//! Replay absorption: inserting a process tree into the label forest a
//! second time changes nothing, so a snapshot sequence whose last snapshot
//! is replayed yields the identical row ordering. The proof goes through a
//! containment predicate: a forest that already contains a tree's labels
//! absorbs its insertion, insertion establishes containment, and later
//! insertions preserve it.

use vstd::prelude::*;
use crate::labels::{
    find_node, forest_of_snaps, insert_leaf, insert_proc, insert_procs, insert_threads, LabelNode,
};
use crate::model::{opt_str_view, proc_label, thread_label, Process, Snapshot, Thread};

verus! {

/// Some node of the forest carries this label.
pub open spec fn has_label(cs: Seq<LabelNode>, l: Seq<char>) -> bool {
    exists|j: int| 0 <= j < cs.len() && cs[j].label == l
}

/// The forest carries every thread label of `ts`.
pub open spec fn contains_threads(cs: Seq<LabelNode>, ts: Seq<Thread>, d: nat) -> bool {
    forall|k: int|
        0 <= k < ts.len() ==> has_label(
            cs,
            thread_label(opt_str_view(ts[k].name), ts[k].tid, d),
        )
}

/// The forest already holds everything that inserting `p` would add.
pub open spec fn contains_proc(cs: Seq<LabelNode>, p: Process, d: nat) -> bool
    decreases p, 1int,
{
    match find_node(cs, proc_label(p.name@, p.pid, d), 0) {
        None => false,
        Some(i) => contains_threads(cs[i].children, p.threads@, d) && contains_procs(
            cs[i].children,
            p.children@,
            (d + 1) as nat,
        ),
    }
}

/// The forest already holds everything that inserting each of `ps` would
/// add.
pub open spec fn contains_procs(cs: Seq<LabelNode>, ps: Seq<Process>, d: nat) -> bool
    decreases ps, 0int,
{
    if ps.len() == 0 {
        true
    } else {
        contains_procs(cs, ps.drop_last(), d) && contains_proc(cs, ps.last(), d)
    }
}

/// `b` keeps every node position and label of `a`, possibly appending more.
pub open spec fn extends(a: Seq<LabelNode>, b: Seq<LabelNode>) -> bool {
    a.len() <= b.len() && (forall|j: int| 0 <= j < a.len() ==> b[j].label == a[j].label)
}

proof fn lemma_find_props(cs: Seq<LabelNode>, l: Seq<char>, j: int)
    requires
        0 <= j,
    ensures
        match find_node(cs, l, j) {
            Some(i) => j <= i < cs.len() && cs[i].label == l && (forall|k: int|
                j <= k < i ==> cs[k].label != l),
            None => forall|k: int| j <= k < cs.len() ==> cs[k].label != l,
        },
    decreases cs.len() - j,
{
    if j < cs.len() && cs[j].label != l {
        lemma_find_props(cs, l, j + 1);
    }
}

proof fn lemma_find_from(cs: Seq<LabelNode>, l: Seq<char>, j: int, i: int)
    requires
        0 <= j <= i < cs.len(),
        cs[i].label == l,
        forall|k: int| j <= k < i ==> cs[k].label != l,
    ensures
        find_node(cs, l, j) == Some(i),
    decreases i - j,
{
    if j < i {
        lemma_find_from(cs, l, j + 1, i);
    }
}

proof fn lemma_has_find(cs: Seq<LabelNode>, l: Seq<char>)
    ensures
        has_label(cs, l) <==> find_node(cs, l, 0) is Some,
{
    lemma_find_props(cs, l, 0);
    if has_label(cs, l) {
        let j = choose|j: int| 0 <= j < cs.len() && cs[j].label == l;
        if find_node(cs, l, 0) is None {
            assert(cs[j].label != l);
        }
    }
}

proof fn lemma_has_label_mono(a: Seq<LabelNode>, b: Seq<LabelNode>, l: Seq<char>)
    requires
        extends(a, b),
        has_label(a, l),
    ensures
        has_label(b, l),
{
    let j = choose|j: int| 0 <= j < a.len() && a[j].label == l;
    assert(b[j].label == l);
}

proof fn lemma_insert_leaf_extends(cs: Seq<LabelNode>, l: Seq<char>)
    ensures
        extends(cs, insert_leaf(cs, l)),
        has_label(insert_leaf(cs, l), l),
{
    lemma_find_props(cs, l, 0);
    match find_node(cs, l, 0) {
        Some(i) => {
            assert(cs[i].label == l);
        },
        None => {
            assert(insert_leaf(cs, l)[cs.len() as int].label == l);
        },
    }
}

proof fn lemma_insert_proc_extends(cs: Seq<LabelNode>, p: Process, d: nat)
    ensures
        extends(cs, insert_proc(cs, p, d)),
{
    lemma_find_props(cs, proc_label(p.name@, p.pid, d), 0);
}

proof fn lemma_insert_threads_extends(cs: Seq<LabelNode>, ts: Seq<Thread>, d: nat)
    ensures
        extends(cs, insert_threads(cs, ts, d)),
    decreases ts.len(),
{
    if ts.len() > 0 {
        lemma_insert_threads_extends(cs, ts.drop_last(), d);
        lemma_insert_leaf_extends(
            insert_threads(cs, ts.drop_last(), d),
            thread_label(opt_str_view(ts.last().name), ts.last().tid, d),
        );
    }
}

proof fn lemma_insert_procs_extends(cs: Seq<LabelNode>, ps: Seq<Process>, d: nat)
    ensures
        extends(cs, insert_procs(cs, ps, d)),
    decreases ps,
{
    if ps.len() > 0 {
        lemma_insert_procs_extends(cs, ps.drop_last(), d);
        lemma_insert_proc_extends(insert_procs(cs, ps.drop_last(), d), ps.last(), d);
    }
}

proof fn lemma_find_stable(a: Seq<LabelNode>, b: Seq<LabelNode>, l: Seq<char>)
    requires
        extends(a, b),
        find_node(a, l, 0) is Some,
    ensures
        find_node(b, l, 0) == find_node(a, l, 0),
{
    lemma_find_props(a, l, 0);
    let i = find_node(a, l, 0)->Some_0;
    assert(b[i].label == l);
    assert forall|k: int| 0 <= k < i implies b[k].label != l by {
        assert(b[k].label == a[k].label);
    }
    lemma_find_from(b, l, 0, i);
}

/// A forest that carries all of `ts`'s labels absorbs their insertion.
proof fn lemma_threads_absorbed(cs: Seq<LabelNode>, ts: Seq<Thread>, d: nat)
    requires
        contains_threads(cs, ts, d),
    ensures
        insert_threads(cs, ts, d) == cs,
    decreases ts.len(),
{
    if ts.len() > 0 {
        assert forall|k: int|
            0 <= k < ts.drop_last().len() implies has_label(
            cs,
            thread_label(opt_str_view(ts.drop_last()[k].name), ts.drop_last()[k].tid, d),
        ) by {
            assert(ts.drop_last()[k] == ts[k]);
        }
        lemma_threads_absorbed(cs, ts.drop_last(), d);
        let l = thread_label(opt_str_view(ts.last().name), ts.last().tid, d);
        assert(has_label(cs, l)) by {
            assert(ts.last() == ts[ts.len() - 1]);
        }
        lemma_has_find(cs, l);
    }
}

/// Inserting thread labels establishes their containment.
proof fn lemma_insert_threads_establish(cs: Seq<LabelNode>, ts: Seq<Thread>, d: nat)
    ensures
        contains_threads(insert_threads(cs, ts, d), ts, d),
    decreases ts.len(),
{
    if ts.len() > 0 {
        lemma_insert_threads_establish(cs, ts.drop_last(), d);
        let mid = insert_threads(cs, ts.drop_last(), d);
        let l = thread_label(opt_str_view(ts.last().name), ts.last().tid, d);
        lemma_insert_leaf_extends(mid, l);
        assert forall|k: int|
            0 <= k < ts.len() implies has_label(
            insert_threads(cs, ts, d),
            thread_label(opt_str_view(ts[k].name), ts[k].tid, d),
        ) by {
            if k < ts.len() - 1 {
                assert(ts.drop_last()[k] == ts[k]);
                lemma_has_label_mono(
                    mid,
                    insert_leaf(mid, l),
                    thread_label(opt_str_view(ts[k].name), ts[k].tid, d),
                );
            } else {
                assert(ts[k] == ts.last());
            }
        }
    }
}

/// Containment of one tree survives a leaf insertion.
proof fn lemma_proc_preserved_leaf(cs: Seq<LabelNode>, p: Process, d: nat, l2: Seq<char>)
    requires
        contains_proc(cs, p, d),
    ensures
        contains_proc(insert_leaf(cs, l2), p, d),
{
    let lp = proc_label(p.name@, p.pid, d);
    lemma_insert_leaf_extends(cs, l2);
    lemma_find_stable(cs, insert_leaf(cs, l2), lp);
    let i = find_node(cs, lp, 0)->Some_0;
    lemma_find_props(cs, lp, 0);
    assert(insert_leaf(cs, l2)[i] == cs[i]);
}

/// Containment of several trees survives a leaf insertion.
proof fn lemma_procs_preserved_leaf(cs: Seq<LabelNode>, ps: Seq<Process>, d: nat, l2: Seq<char>)
    requires
        contains_procs(cs, ps, d),
    ensures
        contains_procs(insert_leaf(cs, l2), ps, d),
    decreases ps,
{
    if ps.len() > 0 {
        lemma_procs_preserved_leaf(cs, ps.drop_last(), d, l2);
        lemma_proc_preserved_leaf(cs, ps.last(), d, l2);
    }
}

/// Containment of several trees survives inserting thread labels.
proof fn lemma_procs_preserved_threads(
    cs: Seq<LabelNode>,
    ps: Seq<Process>,
    d: nat,
    ts: Seq<Thread>,
    e: nat,
)
    requires
        contains_procs(cs, ps, d),
    ensures
        contains_procs(insert_threads(cs, ts, e), ps, d),
    decreases ts.len(),
{
    if ts.len() > 0 {
        lemma_procs_preserved_threads(cs, ps, d, ts.drop_last(), e);
        lemma_procs_preserved_leaf(
            insert_threads(cs, ts.drop_last(), e),
            ps,
            d,
            thread_label(opt_str_view(ts.last().name), ts.last().tid, e),
        );
    }
}

/// Containment of one tree survives inserting another process tree.
proof fn lemma_proc_preserved(cs: Seq<LabelNode>, p: Process, d: nat, q: Process, e: nat)
    requires
        contains_proc(cs, p, d),
    ensures
        contains_proc(insert_proc(cs, q, e), p, d),
    decreases p, q,
{
    let lp = proc_label(p.name@, p.pid, d);
    let lq = proc_label(q.name@, q.pid, e);
    let ip = find_node(cs, lp, 0)->Some_0;
    lemma_find_props(cs, lp, 0);
    let r = insert_proc(cs, q, e);
    lemma_insert_proc_extends(cs, q, e);
    lemma_find_stable(cs, r, lp);
    lemma_find_props(cs, lq, 0);
    let fq = find_node(cs, lq, 0);
    let cs1 = if fq is Some {
        cs
    } else {
        cs.push(LabelNode { label: lq, children: Seq::<LabelNode>::empty() })
    };
    let iq = if fq is Some {
        fq->Some_0
    } else {
        cs.len() as int
    };
    if iq != ip {
        assert(r[ip] == cs[ip]);
    } else {
        let c0 = cs[ip].children;
        let kids1 = insert_threads(c0, q.threads@, e);
        let kids2 = insert_procs(kids1, q.children@, (e + 1) as nat);
        assert(r[ip].children == kids2);
        lemma_insert_threads_extends(c0, q.threads@, e);
        lemma_insert_procs_extends(kids1, q.children@, (e + 1) as nat);
        assert(extends(c0, kids2));
        assert forall|k: int|
            0 <= k < p.threads@.len() implies has_label(
            kids2,
            thread_label(opt_str_view(p.threads@[k].name), p.threads@[k].tid, d),
        ) by {
            lemma_has_label_mono(
                c0,
                kids2,
                thread_label(opt_str_view(p.threads@[k].name), p.threads@[k].tid, d),
            );
        }
        lemma_procs_preserved_threads(c0, p.children@, (d + 1) as nat, q.threads@, e);
        lemma_procs_preserved_procs(kids1, p.children@, (d + 1) as nat, q.children@, (e + 1) as nat);
    }
}

/// Containment of several trees survives inserting another process tree.
proof fn lemma_procs_preserved(cs: Seq<LabelNode>, ps: Seq<Process>, d: nat, q: Process, e: nat)
    requires
        contains_procs(cs, ps, d),
    ensures
        contains_procs(insert_proc(cs, q, e), ps, d),
    decreases ps, q,
{
    if ps.len() > 0 {
        lemma_procs_preserved(cs, ps.drop_last(), d, q, e);
        lemma_proc_preserved(cs, ps.last(), d, q, e);
    }
}

/// Containment of several trees survives inserting a sequence of process
/// trees.
proof fn lemma_procs_preserved_procs(
    cs: Seq<LabelNode>,
    ps: Seq<Process>,
    d: nat,
    qs: Seq<Process>,
    e: nat,
)
    requires
        contains_procs(cs, ps, d),
    ensures
        contains_procs(insert_procs(cs, qs, e), ps, d),
    decreases ps, qs,
{
    if qs.len() > 0 {
        lemma_procs_preserved_procs(cs, ps, d, qs.drop_last(), e);
        lemma_procs_preserved(insert_procs(cs, qs.drop_last(), e), ps, d, qs.last(), e);
    }
}

/// Inserting a process tree establishes its containment.
proof fn lemma_insert_establishes(cs: Seq<LabelNode>, p: Process, d: nat)
    ensures
        contains_proc(insert_proc(cs, p, d), p, d),
    decreases p, 0int,
{
    let l = proc_label(p.name@, p.pid, d);
    lemma_find_props(cs, l, 0);
    let f = find_node(cs, l, 0);
    let cs1 = if f is Some {
        cs
    } else {
        cs.push(LabelNode { label: l, children: Seq::<LabelNode>::empty() })
    };
    let idx = if f is Some {
        f->Some_0
    } else {
        cs.len() as int
    };
    let c0 = cs1[idx].children;
    let kids1 = insert_threads(c0, p.threads@, d);
    let kids2 = insert_procs(kids1, p.children@, (d + 1) as nat);
    let r = insert_proc(cs, p, d);
    assert(r == cs1.update(idx, LabelNode { label: cs1[idx].label, children: kids2 }));
    assert forall|k: int| 0 <= k < idx implies r[k].label != l by {
        assert(r[k].label == cs[k].label);
    }
    assert(r[idx].label == l);
    lemma_find_from(r, l, 0, idx);
    lemma_insert_threads_establish(c0, p.threads@, d);
    lemma_insert_procs_extends(kids1, p.children@, (d + 1) as nat);
    assert forall|k: int|
        0 <= k < p.threads@.len() implies has_label(
        kids2,
        thread_label(opt_str_view(p.threads@[k].name), p.threads@[k].tid, d),
    ) by {
        lemma_has_label_mono(
            kids1,
            kids2,
            thread_label(opt_str_view(p.threads@[k].name), p.threads@[k].tid, d),
        );
    }
    lemma_inserts_establish(kids1, p.children@, (d + 1) as nat);
    assert(r[idx].children == kids2);
}

/// Inserting a sequence of process trees establishes their containment.
proof fn lemma_inserts_establish(cs: Seq<LabelNode>, ps: Seq<Process>, d: nat)
    ensures
        contains_procs(insert_procs(cs, ps, d), ps, d),
    decreases ps, 1int,
{
    if ps.len() > 0 {
        lemma_inserts_establish(cs, ps.drop_last(), d);
        let y = insert_procs(cs, ps.drop_last(), d);
        lemma_insert_establishes(y, ps.last(), d);
        lemma_procs_preserved(y, ps.drop_last(), d, ps.last(), d);
    }
}

/// A forest that contains a process tree absorbs its insertion unchanged.
proof fn lemma_absorb_proc(cs: Seq<LabelNode>, p: Process, d: nat)
    requires
        contains_proc(cs, p, d),
    ensures
        insert_proc(cs, p, d) == cs,
    decreases p, 0int,
{
    let l = proc_label(p.name@, p.pid, d);
    let i = find_node(cs, l, 0)->Some_0;
    lemma_find_props(cs, l, 0);
    let node = cs[i];
    lemma_threads_absorbed(node.children, p.threads@, d);
    lemma_absorb_procs(node.children, p.children@, (d + 1) as nat);
    assert(insert_proc(cs, p, d) == cs.update(i, LabelNode {
        label: node.label,
        children: node.children,
    }));
    assert(LabelNode { label: node.label, children: node.children } == node);
    assert(cs.update(i, node) =~= cs);
}

/// A forest that contains a sequence of process trees absorbs their
/// insertion unchanged.
proof fn lemma_absorb_procs(cs: Seq<LabelNode>, ps: Seq<Process>, d: nat)
    requires
        contains_procs(cs, ps, d),
    ensures
        insert_procs(cs, ps, d) == cs,
    decreases ps, 1int,
{
    if ps.len() > 0 {
        lemma_absorb_procs(cs, ps.drop_last(), d);
        lemma_absorb_proc(cs, ps.last(), d);
    }
}

/// Inserting the same process tree twice is the same as inserting it once:
/// a duplicate contributes no new row and reorders nothing.
pub proof fn lemma_insert_proc_idempotent(cs: Seq<LabelNode>, p: Process, d: nat)
    ensures
        insert_proc(insert_proc(cs, p, d), p, d) == insert_proc(cs, p, d),
{
    lemma_insert_establishes(cs, p, d);
    lemma_absorb_proc(insert_proc(cs, p, d), p, d);
}

/// Replaying the last snapshot of a sequence leaves the label forest — and
/// with it every process and thread row — exactly as it was.
pub proof fn lemma_replay_last_snapshot(snaps: Seq<Snapshot>)
    requires
        snaps.len() > 0,
    ensures
        forest_of_snaps(snaps.push(snaps.last())) == forest_of_snaps(snaps),
{
    let ext = snaps.push(snaps.last());
    assert(ext.drop_last() =~= snaps);
    assert(ext.last() == snaps.last());
    assert(snaps.drop_last().push(snaps.last()) =~= snaps);
    lemma_insert_proc_idempotent(
        forest_of_snaps(snaps.drop_last()),
        snaps.last().process_tree,
        0,
    );
}

} // verus!
