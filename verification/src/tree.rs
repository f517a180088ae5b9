//! An in-memory directory tree, and a complete randomized walk over it.
//!
//! `random_walk` drives the traversal engine to the end against a tree
//! held as plain data: it starts the listings the engine asks for,
//! answers them straight from the tree — completing outstanding listings
//! in random order, as a concurrent lister would — and collects every
//! report.  Each directory is listed at most once (the walker's node
//! count never exceeds the tree's), the walk always terminates with
//! every known directory exhausted and nothing outstanding, every
//! directory reachable through successful listings is reported
//! exhausted under its own path, and every leaf entry of such a
//! directory is reported exactly once.

use vstd::prelude::*;
use vstd::seq_lib::*;
use vstd::set_lib::*;

use crate::node::connected;
use crate::node::count_resolved;
use crate::node::lemma_connected_root_empty_all_empty;
use crate::node::lemma_count_resolved_le_len;
use crate::node::lemma_count_resolved_pointwise;
use crate::node::NodeState;
use crate::rng::random_below;
use crate::walker::dir_child_paths;
use crate::walker::exhaust_report_ok;
use crate::walker::exhausted_marks;
use crate::walker::has_exhaust_report;
use crate::walker::lemma_leaf_reports_are_leaves;
use crate::walker::lemma_leaf_reports_complete;
use crate::walker::lemma_leaf_reports_distinct;
use crate::walker::lemma_leaf_reports_sound;
use crate::walker::leaf_reports;
use crate::walker::Entry;
use crate::walker::ListingOutcome;
use crate::walker::Report;
use crate::walker::Walker;

verus! {

/// One entry of a directory held in memory.
pub struct TreeEntry {
    pub path: String,
    pub is_dir: bool,
    pub is_symlink: bool,
    /// Index of the child directory's own node in `DirTree::dirs`
    /// (meaningful only when the entry is a real, non-symlink directory).
    pub node: usize,
}

impl TreeEntry {
    pub open spec fn is_dir_child(self) -> bool {
        self.is_dir && !self.is_symlink
    }
}

/// One directory of an in-memory tree: how listing it ends.
pub struct TreeDir {
    /// The error text its listing fails with, if it fails; `None` lists
    /// the entries.
    pub error: Option<String>,
    pub entries: Vec<TreeEntry>,
}

/// A finite directory tree, its directories in one vector with the root
/// at index zero.
pub struct DirTree {
    pub root_path: String,
    pub dirs: Vec<TreeDir>,
}

/// `(i, k)` names an entry of the tree.
pub open spec fn is_entry(t: DirTree, i: int, k: int) -> bool {
    &&& 0 <= i < t.dirs@.len()
    &&& 0 <= k < t.dirs@[i].entries@.len()
}

/// Entry `k` of directory `i` descends into a child directory.
pub open spec fn is_edge(t: DirTree, i: int, k: int) -> bool {
    &&& 0 <= i < t.dirs@.len()
    &&& 0 <= k < t.dirs@[i].entries@.len()
    &&& t.dirs@[i].entries@[k].is_dir_child()
}

pub open spec fn edge_target(t: DirTree, i: int, k: int) -> int {
    t.dirs@[i].entries@[k].node as int
}

impl DirTree {
    /// Child directories sit strictly later in the vector than their
    /// parent (so the tree is finite and acyclic), each directory is the
    /// child of at most one entry, and no two entries carry the same
    /// path (full paths in a tree are unique).
    pub open spec fn wf(self) -> bool {
        &&& self.dirs@.len() >= 1
        &&& forall|i: int, k: int|
            #[trigger] is_edge(self, i, k) ==> i < edge_target(self, i, k) < self.dirs@.len()
        &&& forall|i1: int, k1: int, i2: int, k2: int|
            #[trigger] is_edge(self, i1, k1) && #[trigger] is_edge(self, i2, k2) && (i1 != i2 || k1
                != k2) ==> edge_target(self, i1, k1) != edge_target(self, i2, k2)
        &&& forall|i1: int, k1: int, i2: int, k2: int|
            #[trigger] is_entry(self, i1, k1) && #[trigger] is_entry(self, i2, k2) && (i1 != i2
                || k1 != k2) ==> self.dirs@[i1].entries@[k1].path != self.dirs@[i2].entries@[
                k2
            ].path
    }
}

/// The recorded parent of interned node `w`: tree directory `origin[p]`
/// was listed (so `p` is resolved) and its entry `k` descends into the
/// tree directory that `w` stands for.
pub open spec fn parent_witness_ok(
    tree: DirTree,
    origin: Seq<usize>,
    states: Seq<NodeState>,
    paths: Seq<String>,
    parents: Seq<(int, int)>,
    w: int,
) -> bool {
    let p = parents[w].0;
    let k = parents[w].1;
    &&& 0 <= p < origin.len()
    &&& origin.len() == states.len()
    &&& states[p].is_resolved()
    &&& is_edge(tree, origin[p] as int, k)
    &&& edge_target(tree, origin[p] as int, k) == origin[w] as int
    &&& paths[w] == tree.dirs@[origin[p] as int].entries@[k].path
}

/// If the listing of interned directory `w` was applied and succeeded,
/// every child directory its tree entries name is interned too.
pub open spec fn edge_covered(
    tree: DirTree,
    origin: Seq<usize>,
    states: Seq<NodeState>,
    w: int,
    k: int,
) -> bool {
    (states[w].is_resolved() && tree.dirs@[origin[w] as int].error is None && is_edge(
        tree,
        origin[w] as int,
        k,
    )) ==> exists|u: int|
        0 <= u < origin.len() && origin[u] as int == edge_target(tree, origin[w] as int, k)
}

pub open spec fn listings_applied(tree: DirTree, origin: Seq<usize>, states: Seq<NodeState>) -> bool {
    forall|w: int, k: int| 0 <= w < origin.len() ==> #[trigger] edge_covered(tree, origin, states, w, k)
}

/// A directory that a complete walk must list: the root, or the target
/// of an entry of a reachable directory whose own listing succeeds.
pub open spec fn reachable(tree: DirTree, d: int) -> bool
    decreases d,
{
    if d <= 0 {
        d == 0
    } else {
        exists|i: int, k: int|
            0 <= i < d && #[trigger] is_edge(tree, i, k) && edge_target(tree, i, k) == d
                && tree.dirs@[i].error is None && reachable(tree, i)
    }
}

/// Some report announces this path as a discovered leaf.
pub open spec fn leaf_reported(out: Seq<Report>, path: String) -> bool {
    exists|j: int|
        0 <= j < out.len() && (#[trigger] out[j]) is Leaf && out[j]->Leaf_0 == path
}

/// If the listing of interned directory `w` was applied and succeeded,
/// each of its leaf entries (non-directory or symlink) was reported.
pub open spec fn listing_leaves_reported(
    tree: DirTree,
    origin: Seq<usize>,
    states: Seq<NodeState>,
    out: Seq<Report>,
    w: int,
    k: int,
) -> bool {
    (states[w].is_resolved() && tree.dirs@[origin[w] as int].error is None && 0 <= k
        < tree.dirs@[origin[w] as int].entries@.len() && !tree.dirs@[origin[w] as int].entries@[
        k
    ].is_dir_child()) ==> leaf_reported(out, tree.dirs@[origin[w] as int].entries@[k].path)
}

pub open spec fn leaves_reported(
    tree: DirTree,
    origin: Seq<usize>,
    states: Seq<NodeState>,
    out: Seq<Report>,
) -> bool {
    forall|w: int, k: int|
        0 <= w < origin.len() ==> #[trigger] listing_leaves_reported(tree, origin, states, out, w, k)
}

/// Leaf path `p` belongs to entry `k` of the applied listing of
/// interned directory `w`.
pub open spec fn leaf_tag_ok(
    tree: DirTree,
    origin: Seq<usize>,
    states: Seq<NodeState>,
    p: String,
    w: int,
    k: int,
) -> bool {
    &&& 0 <= w < origin.len()
    &&& states[w].is_resolved()
    &&& is_entry(tree, origin[w] as int, k)
    &&& !tree.dirs@[origin[w] as int].entries@[k].is_dir_child()
    &&& tree.dirs@[origin[w] as int].entries@[k].path == p
}

/// Every leaf report stems from an applied listing.
pub open spec fn leaves_tagged(
    tree: DirTree,
    origin: Seq<usize>,
    states: Seq<NodeState>,
    out: Seq<Report>,
) -> bool {
    forall|j: int|
        0 <= j < out.len() && (#[trigger] out[j]) is Leaf ==> exists|w: int, k: int|
            #[trigger] leaf_tag_ok(tree, origin, states, out[j]->Leaf_0, w, k)
}

/// No leaf path is ever reported twice.
pub open spec fn leaf_paths_distinct(out: Seq<Report>) -> bool {
    forall|j1: int, j2: int|
        0 <= j1 < j2 < out.len() && (#[trigger] out[j1]) is Leaf && (#[trigger] out[j2]) is Leaf
            ==> out[j1]->Leaf_0 != out[j2]->Leaf_0
}

/// Some report announces this path as exhausted.
pub open spec fn exhaust_reported(out: Seq<Report>, path: String) -> bool {
    exists|j: int|
        0 <= j < out.len() && (#[trigger] out[j]) is Exhausted && out[j]->Exhausted_1 == path
}

/// In a finished walk whose intern table covers every applied listing's
/// children, every reachable directory is interned.
proof fn lemma_reachable_is_interned(
    tree: DirTree,
    origin: Seq<usize>,
    states: Seq<NodeState>,
    d: int,
)
    requires
        tree.wf(),
        origin.len() == states.len(),
        origin.len() >= 1,
        origin[0] == 0usize,
        forall|x: int| 0 <= x < states.len() ==> (#[trigger] states[x]) is Empty,
        forall|w: int| 0 <= w < origin.len() ==> ((#[trigger] origin[w]) as int) < tree.dirs@.len(),
        listings_applied(tree, origin, states),
        0 <= d < tree.dirs@.len(),
        reachable(tree, d),
    ensures
        exists|u: int| 0 <= u < origin.len() && (#[trigger] origin[u]) as int == d,
    decreases d,
{
    if d == 0 {
        assert(origin[0] as int == 0);
    } else {
        let (i, k) = choose|i: int, k: int|
            0 <= i < d && #[trigger] is_edge(tree, i, k) && edge_target(tree, i, k) == d
                && tree.dirs@[i].error is None && reachable(tree, i);
        lemma_reachable_is_interned(tree, origin, states, i);
        let ui = choose|u: int| 0 <= u < origin.len() && (#[trigger] origin[u]) as int == i;
        assert(states[ui] is Empty);
        assert(edge_covered(tree, origin, states, ui, k));
        let u = choose|u: int|
            0 <= u < origin.len() && origin[u] as int == edge_target(tree, origin[ui] as int, k);
        assert(origin[u] as int == d);
    }
}

/// A duplicate-free sequence of indices below `bound` has at most
/// `bound` elements.
proof fn lemma_distinct_bounded(s: Seq<usize>, bound: int)
    requires
        bound >= 0,
        forall|w: int| 0 <= w < s.len() ==> ((#[trigger] s[w]) as int) < bound,
        forall|w1: int, w2: int| 0 <= w1 < w2 < s.len() ==> s[w1] != s[w2],
    ensures
        s.len() <= bound,
{
    let si = s.map_values(|x: usize| x as int);
    assert forall|w1: int, w2: int|
        0 <= w1 < si.len() && 0 <= w2 < si.len() && w1 != w2 implies si[w1] != si[w2] by {
        if w1 < w2 {
            assert(s[w1] != s[w2]);
        } else {
            assert(s[w2] != s[w1]);
        }
    }
    assert(si.no_duplicates());
    si.unique_seq_to_set();
    lemma_int_range(0, bound);
    assert forall|x: int| si.to_set().contains(x) implies set_int_range(0, bound).contains(x) by {
        let w = choose|w: int| 0 <= w < si.len() && si[w] == x;
        assert(((s[w]) as int) < bound);
    }
    lemma_len_subset(si.to_set(), set_int_range(0, bound));
}

/// Walk the whole tree: repeatedly descend until blocked, then complete
/// one outstanding listing — drawn at random, as an asynchronous lister
/// finishing in arbitrary order would — and apply it, until the root is
/// exhausted and nothing is outstanding.  The result is the walker's
/// final state and every report, in the order produced.
///
/// The contract carries the walk's laws: the walk terminates (the loops
/// here prove their own termination); every listing is dispatched for a
/// distinct directory of the tree, so the walker never knows more paths
/// than the tree has directories; at the end every known directory is
/// exhausted and no task is outstanding; the exhausted-reports mark the
/// exhausted directories one for one, each exactly once, under their
/// own paths, and cover every directory reachable through successful
/// listings; and every leaf entry of such a directory is reported,
/// no leaf path twice.
#[verifier::rlimit(80)]
pub fn random_walk(tree: &DirTree) -> (r: (Walker, Vec<Report>))
    requires
        tree.wf(),
    ensures
        r.0.wf(),
        r.0.task_queue@.len() == 0,
        r.0.states().len() <= tree.dirs@.len(),
        r.0.states()[0] is Empty,
        forall|i: int| 0 <= i < r.0.states().len() ==> (#[trigger] r.0.states()[i]) is Empty,
        exhausted_marks(r.0.states(), r.0.paths(), r.1@),
        r.0.paths()[0] == tree.root_path,
        exhaust_reported(r.1@, tree.root_path),
        forall|i: int, k: int|
            #[trigger] is_edge(*tree, i, k) && tree.dirs@[i].error is None && reachable(*tree, i)
                ==> exhaust_reported(r.1@, tree.dirs@[i].entries@[k].path),
        forall|i: int, k: int|
            0 <= i < tree.dirs@.len() && reachable(*tree, i) && tree.dirs@[i].error is None && 0
                <= k < tree.dirs@[i].entries@.len() && !(#[trigger] tree.dirs@[i].entries@[
                k
            ]).is_dir_child() ==> leaf_reported(r.1@, tree.dirs@[i].entries@[k].path),
        leaf_paths_distinct(r.1@),
{
    let mut walker = Walker::new(tree.root_path.clone());
    let mut reports: Vec<Report> = Vec::new();
    let mut origin: Vec<usize> = Vec::new();
    origin.push(0);
    let ghost mut parents: Seq<(int, int)> = seq![(0int, 0int)];
    loop
        invariant
            tree.wf(),
            walker.wf(),
            connected(walker.states()),
            origin@.len() == walker.states().len(),
            origin@.len() == parents.len(),
            origin@[0] == 0usize,
            walker.paths()[0] == tree.root_path,
            walker.states().len() <= tree.dirs@.len(),
            forall|w: int|
                0 <= w < origin@.len() ==> ((#[trigger] origin@[w]) as int) < tree.dirs@.len(),
            forall|w1: int, w2: int| 0 <= w1 < w2 < origin@.len() ==> origin@[w1] != origin@[w2],
            forall|w: int|
                1 <= w < origin@.len() ==> parent_witness_ok(
                    *tree,
                    origin@,
                    walker.states(),
                    walker.paths(),
                    parents,
                    w,
                ),
            listings_applied(*tree, origin@, walker.states()),
            leaves_reported(*tree, origin@, walker.states(), reports@),
            leaves_tagged(*tree, origin@, walker.states(), reports@),
            leaf_paths_distinct(reports@),
            exhausted_marks(walker.states(), walker.paths(), reports@),
        ensures
            walker.wf(),
            connected(walker.states()),
            walker.task_queue@.len() == 0,
            walker.states()[0] is Empty,
            walker.states().len() <= tree.dirs@.len(),
            walker.paths()[0] == tree.root_path,
            origin@.len() == walker.states().len(),
            origin@[0] == 0usize,
            forall|w: int|
                0 <= w < origin@.len() ==> ((#[trigger] origin@[w]) as int) < tree.dirs@.len(),
            forall|w: int|
                1 <= w < origin@.len() ==> parent_witness_ok(
                    *tree,
                    origin@,
                    walker.states(),
                    walker.paths(),
                    parents,
                    w,
                ),
            listings_applied(*tree, origin@, walker.states()),
            leaves_reported(*tree, origin@, walker.states(), reports@),
            leaf_paths_distinct(reports@),
            exhausted_marks(walker.states(), walker.paths(), reports@),
        decreases tree.dirs@.len() - count_resolved(walker.states()),
    {
        let ghost states0 = walker.states();
        if !walker.is_exhausted(0) {
            let (_submitted, mut batch) = walker.walk_until_pending();
            proof {
                let cur = walker.states();
                // parent witnesses survive: no node loses its resolution
                assert forall|w: int| 1 <= w < origin@.len() implies parent_witness_ok(
                    *tree,
                    origin@,
                    cur,
                    walker.paths(),
                    parents,
                    w,
                ) by {
                    assert(parent_witness_ok(*tree, origin@, states0, walker.paths(), parents, w));
                    let p = parents[w].0;
                    assert(cur[p].is_resolved() <==> states0[p].is_resolved());
                }
                assert forall|w: int, k: int| 0 <= w < origin@.len() implies #[trigger] edge_covered(
                    *tree,
                    origin@,
                    cur,
                    w,
                    k,
                ) by {
                    assert(edge_covered(*tree, origin@, states0, w, k));
                    assert(cur[w].is_resolved() <==> states0[w].is_resolved());
                }
                assert forall|w: int, k: int|
                    0 <= w < origin@.len() implies #[trigger] listing_leaves_reported(
                    *tree,
                    origin@,
                    cur,
                    reports@ + batch@,
                    w,
                    k,
                ) by {
                    assert(listing_leaves_reported(*tree, origin@, states0, reports@, w, k));
                    assert(cur[w].is_resolved() <==> states0[w].is_resolved());
                    if states0[w].is_resolved() && tree.dirs@[origin@[w] as int].error is None
                        && 0 <= k < tree.dirs@[origin@[w] as int].entries@.len()
                        && !tree.dirs@[origin@[w] as int].entries@[k].is_dir_child() {
                        let p = tree.dirs@[origin@[w] as int].entries@[k].path;
                        let j = choose|j: int|
                            0 <= j < reports@.len() && (#[trigger] reports@[j]) is Leaf
                                && reports@[j]->Leaf_0 == p;
                        assert((reports@ + batch@)[j] == reports@[j]);
                    }
                }
                assert forall|j: int|
                    0 <= j < (reports@ + batch@).len() && (#[trigger] (reports@ + batch@)[j])
                        is Leaf implies exists|w: int, k: int| #[trigger] leaf_tag_ok(
                    *tree,
                    origin@,
                    cur,
                    (reports@ + batch@)[j]->Leaf_0,
                    w,
                    k,
                ) by {
                    if j >= reports@.len() {
                        assert(exhaust_report_ok(
                            states0,
                            cur,
                            walker.paths(),
                            batch@[j - reports@.len()],
                        ));
                    }
                    assert(j < reports@.len());
                    assert((reports@ + batch@)[j] == reports@[j]);
                    let (w, k) = choose|w: int, k: int| #[trigger] leaf_tag_ok(
                        *tree,
                        origin@,
                        states0,
                        reports@[j]->Leaf_0,
                        w,
                        k,
                    );
                    assert(cur[w].is_resolved() <==> states0[w].is_resolved());
                    assert(leaf_tag_ok(*tree, origin@, cur, reports@[j]->Leaf_0, w, k));
                }
                assert forall|j1: int, j2: int|
                    0 <= j1 < j2 < (reports@ + batch@).len() && (#[trigger] (reports@
                        + batch@)[j1]) is Leaf && (#[trigger] (reports@ + batch@)[j2])
                        is Leaf implies (reports@ + batch@)[j1]->Leaf_0 != (reports@
                    + batch@)[j2]->Leaf_0 by {
                    if j2 >= reports@.len() {
                        assert(exhaust_report_ok(
                            states0,
                            cur,
                            walker.paths(),
                            batch@[j2 - reports@.len()],
                        ));
                    }
                    assert(j2 < reports@.len());
                    assert((reports@ + batch@)[j1] == reports@[j1]);
                    assert((reports@ + batch@)[j2] == reports@[j2]);
                }
                // the descent resolves nothing: the measure is unchanged
                lemma_count_resolved_pointwise(states0, cur);
                // fold the descent's exhausted-reports into the log
                assert forall|k: int|
                    0 <= k < (reports@ + batch@).len() && (#[trigger] (reports@ + batch@)[k])
                        is Exhausted implies {
                    let r = (reports@ + batch@)[k];
                    &&& 0 <= (r->Exhausted_0 as int) < cur.len()
                    &&& cur[r->Exhausted_0 as int] is Empty
                    &&& r->Exhausted_1 == walker.paths()[r->Exhausted_0 as int]
                } by {
                    if k < reports@.len() {
                        let r = reports@[k];
                        let i = r->Exhausted_0 as int;
                        assert(states0[i] is Empty);
                        assert(crate::node::node_evolves(states0[i], cur[i]));
                    } else {
                        let r = batch@[k - reports@.len()];
                        assert(exhaust_report_ok(states0, cur, walker.paths(), r));
                    }
                }
                assert forall|k1: int, k2: int|
                    0 <= k1 < k2 < (reports@ + batch@).len() && (#[trigger] (reports@
                        + batch@)[k1]) is Exhausted && (#[trigger] (reports@ + batch@)[k2])
                        is Exhausted implies (reports@ + batch@)[k1]->Exhausted_0 != (reports@
                    + batch@)[k2]->Exhausted_0 by {
                    if k2 >= reports@.len() {
                        let r2 = batch@[k2 - reports@.len()];
                        assert(exhaust_report_ok(states0, cur, walker.paths(), r2));
                        if k1 < reports@.len() {
                            let r1 = reports@[k1];
                            assert(states0[r1->Exhausted_0 as int] is Empty);
                        }
                    }
                }
                assert forall|i: int|
                    0 <= i < cur.len() && (#[trigger] cur[i]) is Empty implies has_exhaust_report(
                    reports@ + batch@,
                    i,
                ) by {
                    if states0[i] is Empty {
                        assert(has_exhaust_report(reports@, i));
                        let k = choose|k: int|
                            0 <= k < reports@.len() && (#[trigger] reports@[k]) is Exhausted
                                && reports@[k]->Exhausted_0 as int == i;
                        assert((reports@ + batch@)[k] is Exhausted);
                        assert((reports@ + batch@)[k]->Exhausted_0 as int == i);
                    } else {
                        assert(has_exhaust_report(batch@, i));
                        let k = choose|k: int|
                            0 <= k < batch@.len() && (#[trigger] batch@[k]) is Exhausted
                                && batch@[k]->Exhausted_0 as int == i;
                        assert((reports@ + batch@)[reports@.len() as int + k] is Exhausted);
                        assert((reports@ + batch@)[reports@.len() as int + k]->Exhausted_0 as int == i);
                    }
                }
            }
            reports.append(&mut batch);
        }
        if walker.task_queue.len() == 0 {
            break;
        }
        // complete one outstanding listing, drawn at random
        let k = random_below(walker.task_queue.len());
        let id = walker.task_queue[k];
        proof {
            assert(walker.task_queue@[k as int] == id);
            assert(walker.states()[id as int] is Pending);
        }
        let t = origin[id];
        let ghost pre = walker.states();
        let ghost prepaths = walker.paths();
        let tn = &tree.dirs[t];
        match &tn.error {
            Option::Some(msg) => {
                let mut batch = walker.process_one_task(id, ListingOutcome::Failure(msg.clone()));
                proof {
                    let cur = walker.states();
                    assert(cur == pre.update(id as int, NodeState::Empty));
                    assert forall|w: int| 1 <= w < origin@.len() implies parent_witness_ok(
                        *tree,
                        origin@,
                        cur,
                        walker.paths(),
                        parents,
                        w,
                    ) by {
                        assert(parent_witness_ok(*tree, origin@, pre, walker.paths(), parents, w));
                        let p = parents[w].0;
                        if p != id as int {
                            assert(cur[p] == pre[p]);
                        }
                    }
                    assert forall|w: int, k: int|
                        0 <= w < origin@.len() implies #[trigger] edge_covered(
                        *tree,
                        origin@,
                        cur,
                        w,
                        k,
                    ) by {
                        assert(edge_covered(*tree, origin@, pre, w, k));
                        if w == id as int {
                            assert(tree.dirs@[origin@[w] as int].error is Some);
                        } else {
                            assert(cur[w] == pre[w]);
                        }
                    }
                    assert forall|w: int, k: int|
                        0 <= w < origin@.len() implies #[trigger] listing_leaves_reported(
                        *tree,
                        origin@,
                        cur,
                        reports@ + batch@,
                        w,
                        k,
                    ) by {
                        assert(listing_leaves_reported(*tree, origin@, pre, reports@, w, k));
                        if w == id as int {
                            assert(tree.dirs@[origin@[w] as int].error is Some);
                        } else {
                            assert(cur[w] == pre[w]);
                            if pre[w].is_resolved() && tree.dirs@[origin@[w] as int].error is None
                                && 0 <= k < tree.dirs@[origin@[w] as int].entries@.len()
                                && !tree.dirs@[origin@[w] as int].entries@[k].is_dir_child() {
                                let p = tree.dirs@[origin@[w] as int].entries@[k].path;
                                let j = choose|j: int|
                                    0 <= j < reports@.len() && (#[trigger] reports@[j]) is Leaf
                                        && reports@[j]->Leaf_0 == p;
                                assert((reports@ + batch@)[j] == reports@[j]);
                            }
                        }
                    }
                    assert forall|j: int|
                        0 <= j < (reports@ + batch@).len() && (#[trigger] (reports@ + batch@)[j])
                            is Leaf implies exists|w: int, k: int| #[trigger] leaf_tag_ok(
                        *tree,
                        origin@,
                        cur,
                        (reports@ + batch@)[j]->Leaf_0,
                        w,
                        k,
                    ) by {
                        if j >= reports@.len() {
                            let jb = j - reports@.len();
                            assert(jb == 0 || jb == 1);
                            assert(!(batch@[jb] is Leaf));
                        }
                        assert(j < reports@.len());
                        assert((reports@ + batch@)[j] == reports@[j]);
                        let (w, k) = choose|w: int, k: int| #[trigger] leaf_tag_ok(
                            *tree,
                            origin@,
                            pre,
                            reports@[j]->Leaf_0,
                            w,
                            k,
                        );
                        assert(w != id as int);
                        assert(cur[w] == pre[w]);
                        assert(leaf_tag_ok(*tree, origin@, cur, reports@[j]->Leaf_0, w, k));
                    }
                    assert forall|j1: int, j2: int|
                        0 <= j1 < j2 < (reports@ + batch@).len() && (#[trigger] (reports@
                            + batch@)[j1]) is Leaf && (#[trigger] (reports@ + batch@)[j2])
                            is Leaf implies (reports@ + batch@)[j1]->Leaf_0 != (reports@
                        + batch@)[j2]->Leaf_0 by {
                        if j2 >= reports@.len() {
                            let jb = j2 - reports@.len();
                            assert(jb == 0 || jb == 1);
                            assert(!(batch@[jb] is Leaf));
                        }
                        assert(j2 < reports@.len());
                        assert((reports@ + batch@)[j1] == reports@[j1]);
                        assert((reports@ + batch@)[j2] == reports@[j2]);
                    }
                    lemma_merge_exhaust_after_demote(
                        pre,
                        cur,
                        prepaths,
                        reports@,
                        batch@,
                        id as int,
                    );
                    lemma_count_resolved_le_len(cur);
                }
                reports.append(&mut batch);
            },
            Option::None => {
                // Rebuild the listing as plain entries, remembering for
                // each directory child which tree directory it is.
                let mut listing: Vec<Entry> = Vec::new();
                let mut child_nodes: Vec<usize> = Vec::new();
                let ghost mut srcs: Seq<int> = Seq::empty();
                let total = tn.entries.len();
                let mut m: usize = 0;
                while m < total
                    invariant
                        total == tn.entries@.len(),
                        m <= total,
                        listing@.len() == m,
                        forall|w: int|
                            0 <= w < m ==> (#[trigger] listing@[w]).is_dir_child()
                                == tn.entries@[w].is_dir_child(),
                        forall|w: int|
                            0 <= w < m ==> (#[trigger] listing@[w]).path == tn.entries@[w].path,
                        child_nodes@.len() == srcs.len(),
                        dir_child_paths(listing@).len() == child_nodes@.len(),
                        forall|w: int| 0 <= w < srcs.len() ==> 0 <= #[trigger] srcs[w] < m,
                        forall|w: int|
                            0 <= w < srcs.len() ==> tn.entries@[#[trigger] srcs[w]].is_dir_child(),
                        forall|w: int|
                            0 <= w < srcs.len() ==> tn.entries@[#[trigger] srcs[w]].node
                                == child_nodes@[w],
                        forall|w1: int, w2: int| 0 <= w1 < w2 < srcs.len() ==> srcs[w1] < srcs[w2],
                        forall|kk: int|
                            0 <= kk < m && (#[trigger] tn.entries@[kk]).is_dir_child()
                                ==> exists|w: int| 0 <= w < srcs.len() && #[trigger] srcs[w] == kk,
                        forall|w: int|
                            0 <= w < srcs.len() ==> dir_child_paths(listing@)[w] == listing@[
                                #[trigger] srcs[w]
                            ].path,
                    decreases total - m,
                {
                    let e = &tn.entries[m];
                    let ghost lpre = listing@;
                    let ghost srcs0 = srcs;
                    listing.push(
                        Entry { path: e.path.clone(), is_dir: e.is_dir, is_symlink: e.is_symlink },
                    );
                    proof {
                        assert(listing@.drop_last() =~= lpre);
                    }
                    if e.is_dir && !e.is_symlink {
                        child_nodes.push(e.node);
                        proof {
                            srcs = srcs.push(m as int);
                        }
                    }
                    proof {
                        assert forall|kk: int|
                            0 <= kk < m + 1 && (#[trigger] tn.entries@[kk]).is_dir_child()
                                implies exists|w: int|
                            0 <= w < srcs.len() && #[trigger] srcs[w] == kk by {
                            if kk == m as int {
                                assert(srcs[srcs.len() - 1] == kk);
                            } else {
                                let w0 = choose|w: int|
                                    0 <= w < srcs0.len() && #[trigger] srcs0[w] == kk;
                                assert(srcs[w0] == kk);
                            }
                        }
                    }
                    m += 1;
                }
                let ghost ent = listing@;
                let ghost cn = child_nodes@;
                let ghost base = walker.states().len();
                let ghost origin0 = origin@;
                let ghost parents0 = parents;
                proof {
                    // The children just found are new to the walk: every
                    // interned node's recorded parent is already
                    // resolved, while `id` — the one parent these
                    // children have in the tree — is still only pending.
                    assert forall|w: int| 0 <= w < cn.len() implies !origin0.contains(
                        #[trigger] cn[w],
                    ) by {
                        assert(is_edge(*tree, t as int, srcs[w]));
                        if origin0.contains(cn[w]) {
                            let u = choose|u: int| 0 <= u < origin0.len() && origin0[u] == cn[w];
                            if u == 0 {
                                assert(edge_target(*tree, t as int, srcs[w]) > t as int);
                            } else {
                                assert(parent_witness_ok(*tree, origin0, pre, prepaths, parents0, u));
                                let p = parents0[u].0;
                                let pk = parents0[u].1;
                                assert(edge_target(*tree, origin0[p] as int, pk) == edge_target(
                                    *tree,
                                    t as int,
                                    srcs[w],
                                ));
                                assert(origin0[p] as int == t as int && pk == srcs[w]);
                                assert(origin0[id as int] == t);
                                assert(p == id as int);
                                assert(pre[p].is_resolved());
                            }
                        }
                    }
                    assert forall|w1: int, w2: int|
                        0 <= w1 < w2 < cn.len() implies cn[w1] != cn[w2] by {
                        assert(is_edge(*tree, t as int, srcs[w1]));
                        assert(is_edge(*tree, t as int, srcs[w2]));
                    }
                    // so the extended intern table has no duplicates and,
                    // by counting, still fits inside the tree
                    assert forall|w1: int, w2: int|
                        0 <= w1 < w2 < (origin0 + cn).len() implies (origin0 + cn)[w1] != (origin0
                        + cn)[w2] by {
                        if w2 >= origin0.len() && w1 < origin0.len() {
                            assert(!origin0.contains(cn[w2 - origin0.len()]));
                            assert(origin0[w1] == (origin0 + cn)[w1]);
                        }
                    }
                    assert forall|w: int|
                        0 <= w < (origin0 + cn).len() implies (((#[trigger] (origin0 + cn)[
                        w]) as int) < tree.dirs@.len()) by {
                        if w >= origin0.len() {
                            assert(is_edge(*tree, t as int, srcs[w - origin0.len()]));
                        }
                    }
                    lemma_distinct_bounded(origin0 + cn, tree.dirs@.len() as int);
                    assert(tree.dirs@.len() <= usize::MAX) by {
                        assert(tree.dirs.len() == tree.dirs@.len());
                    }
                }
                let mut batch = walker.process_one_task(id, ListingOutcome::Success(listing));
                proof {
                    parents = parents0 + Seq::new(cn.len(), |w: int| (id as int, srcs[w]));
                }
                origin.append(&mut child_nodes);
                proof {
                    let cur = walker.states();
                    let g = cn.len();
                    assert(dir_child_paths(ent).len() == g);
                    assert(origin@ == origin0 + cn);
                    assert(origin@.len() == base + g && cur.len() == base + g);
                    assert forall|w: int| 1 <= w < origin@.len() implies parent_witness_ok(
                        *tree,
                        origin@,
                        cur,
                        walker.paths(),
                        parents,
                        w,
                    ) by {
                        if w < base {
                            assert(parent_witness_ok(*tree, origin0, pre, prepaths, parents0, w));
                            let p = parents0[w].0;
                            assert(parents[w] == parents0[w]);
                            assert(origin@[w] == origin0[w]);
                            assert(origin@[p] == origin0[p]);
                            assert(walker.paths()[w] == prepaths[w]);
                            if p == id as int {
                                assert(cur[p].is_resolved());
                            } else {
                                assert(cur[p] == pre[p]);
                            }
                        } else {
                            assert(parents[w] == (id as int, srcs[w - base]));
                            assert(origin@[w] == cn[w - base]);
                            assert(origin@[id as int] == origin0[id as int]);
                            assert(is_edge(*tree, t as int, srcs[w - base]));
                            assert(tn.entries@[srcs[w - base]].node == cn[w - base]);
                            assert(cur[id as int].is_resolved());
                            assert(walker.paths()[w] == dir_child_paths(ent)[w - base]);
                            assert(dir_child_paths(ent)[w - base] == ent[srcs[w - base]].path);
                            assert(ent[srcs[w - base]].path == tn.entries@[srcs[w - base]].path);
                        }
                    }
                    assert forall|w: int, k: int|
                        0 <= w < origin@.len() implies #[trigger] edge_covered(
                        *tree,
                        origin@,
                        cur,
                        w,
                        k,
                    ) by {
                        if w < base {
                            assert(edge_covered(*tree, origin0, pre, w, k));
                            assert(origin@[w] == origin0[w]);
                            if w == id as int {
                                if is_edge(*tree, t as int, k) {
                                    assert((#[trigger] tn.entries@[k]).is_dir_child());
                                    let ws = choose|ws: int|
                                        0 <= ws < srcs.len() && #[trigger] srcs[ws] == k;
                                    assert(origin@[base + ws] == cn[ws]);
                                    assert(tn.entries@[k].node == cn[ws]);
                                }
                            } else {
                                assert(cur[w] == pre[w]);
                                if pre[w].is_resolved() && tree.dirs@[origin@[w] as int].error
                                    is None && is_edge(*tree, origin@[w] as int, k) {
                                    let u = choose|u: int|
                                        0 <= u < origin0.len() && origin0[u] as int == edge_target(
                                            *tree,
                                            origin0[w] as int,
                                            k,
                                        );
                                    assert(origin@[u] as int == edge_target(
                                        *tree,
                                        origin@[w] as int,
                                        k,
                                    ));
                                }
                            }
                        } else {
                            assert(cur[w] is Unvisited);
                        }
                    }
                    assert forall|w: int, k: int|
                        0 <= w < origin@.len() implies #[trigger] listing_leaves_reported(
                        *tree,
                        origin@,
                        cur,
                        reports@ + batch@,
                        w,
                        k,
                    ) by {
                        if w < base {
                            assert(listing_leaves_reported(*tree, origin0, pre, reports@, w, k));
                            assert(origin@[w] == origin0[w]);
                            if w == id as int {
                                assert(tree.dirs@[t as int].error is None);
                                if 0 <= k < tn.entries@.len() && !tn.entries@[k].is_dir_child() {
                                    assert(!ent[k].is_dir_child());
                                    lemma_leaf_reports_complete(ent, k);
                                    let j = choose|j: int|
                                        0 <= j < leaf_reports(ent).len() && (#[trigger] leaf_reports(
                                            ent,
                                        )[j]) is Leaf && leaf_reports(ent)[j]->Leaf_0 == ent[k].path;
                                    assert(batch@[j] == leaf_reports(ent)[j]);
                                    assert((reports@ + batch@)[reports@.len() as int + j]
                                        == batch@[j]);
                                    assert(ent[k].path == tn.entries@[k].path);
                                }
                            } else {
                                assert(cur[w] == pre[w]);
                                if pre[w].is_resolved() && tree.dirs@[origin@[w] as int].error
                                    is None && 0 <= k < tree.dirs@[origin@[w] as int].entries@.len()
                                    && !tree.dirs@[origin@[w] as int].entries@[k].is_dir_child() {
                                    let p = tree.dirs@[origin@[w] as int].entries@[k].path;
                                    let j = choose|j: int|
                                        0 <= j < reports@.len() && (#[trigger] reports@[j]) is Leaf
                                            && reports@[j]->Leaf_0 == p;
                                    assert((reports@ + batch@)[j] == reports@[j]);
                                }
                            }
                        } else {
                            assert(cur[w] is Unvisited);
                        }
                    }
                    assert forall|w1: int, w2: int|
                        0 <= w1 < w2 < origin@.len() implies origin@[w1] != origin@[w2] by {
                        assert(origin@[w1] == (origin0 + cn)[w1]);
                        assert(origin@[w2] == (origin0 + cn)[w2]);
                    }
                    lemma_count_resolved_le_len(cur);
                    // fold this listing's reports into the log
                    lemma_leaf_reports_are_leaves(ent);
                    assert(walker.paths().subrange(0, pre.len() as int) =~= prepaths);
                    assert forall|kk: int|
                        0 <= kk < batch@.len() && (#[trigger] batch@[kk]) is Exhausted implies kk
                        == batch@.len() - 1 && g == 0 && batch@[kk]->Exhausted_0 == id
                        && batch@[kk]->Exhausted_1 == walker.paths()[id as int] by {
                        if g > 0 {
                            assert(batch@[kk] == leaf_reports(ent)[kk]);
                        } else {
                            if kk < leaf_reports(ent).len() {
                                assert(batch@[kk] == leaf_reports(ent)[kk]);
                            } else {
                                assert(batch@[kk] == Report::Exhausted(id, prepaths[id as int]));
                                assert(walker.paths()[id as int] == prepaths[id as int]);
                            }
                        }
                    }
                    if g == 0 {
                        assert(batch@[batch@.len() - 1] == Report::Exhausted(
                            id,
                            prepaths[id as int],
                        ));
                    }
                    // this listing's entry paths are pairwise distinct,
                    // so its leaf reports are too
                    assert forall|k1: int, k2: int|
                        0 <= k1 < k2 < ent.len() implies ent[k1].path != ent[k2].path by {
                        assert(is_entry(*tree, t as int, k1));
                        assert(is_entry(*tree, t as int, k2));
                        assert(ent[k1].path == tn.entries@[k1].path);
                        assert(ent[k2].path == tn.entries@[k2].path);
                    }
                    lemma_leaf_reports_distinct(ent);
                    assert forall|j: int|
                        0 <= j < (reports@ + batch@).len() && (#[trigger] (reports@ + batch@)[j])
                            is Leaf implies exists|w: int, k: int| #[trigger] leaf_tag_ok(
                        *tree,
                        origin@,
                        cur,
                        (reports@ + batch@)[j]->Leaf_0,
                        w,
                        k,
                    ) by {
                        if j < reports@.len() {
                            assert((reports@ + batch@)[j] == reports@[j]);
                            let (w, k) = choose|w: int, k: int| #[trigger] leaf_tag_ok(
                                *tree,
                                origin0,
                                pre,
                                reports@[j]->Leaf_0,
                                w,
                                k,
                            );
                            assert(w != id as int);
                            assert(cur[w] == pre[w]);
                            assert(origin@[w] == origin0[w]);
                            assert(leaf_tag_ok(
                                *tree,
                                origin@,
                                cur,
                                reports@[j]->Leaf_0,
                                w,
                                k,
                            ));
                        } else {
                            let jb = j - reports@.len();
                            assert(batch@[jb] is Leaf);
                            assert(jb < leaf_reports(ent).len());
                            assert(batch@[jb] == leaf_reports(ent)[jb]);
                            lemma_leaf_reports_sound(ent, jb);
                            let k = choose|k: int|
                                0 <= k < ent.len() && !((#[trigger] ent[k]).is_dir_child())
                                    && leaf_reports(ent)[jb] == Report::Leaf(ent[k].path);
                            assert(cur[id as int].is_resolved());
                            assert(is_entry(*tree, t as int, k));
                            assert(!tn.entries@[k].is_dir_child());
                            assert(tn.entries@[k].path == ent[k].path);
                            assert(origin@[id as int] == t);
                            assert(leaf_tag_ok(
                                *tree,
                                origin@,
                                cur,
                                batch@[jb]->Leaf_0,
                                id as int,
                                k,
                            ));
                        }
                    }
                    assert forall|j1: int, j2: int|
                        0 <= j1 < j2 < (reports@ + batch@).len() && (#[trigger] (reports@
                            + batch@)[j1]) is Leaf && (#[trigger] (reports@ + batch@)[j2])
                            is Leaf implies (reports@ + batch@)[j1]->Leaf_0 != (reports@
                        + batch@)[j2]->Leaf_0 by {
                        if j2 < reports@.len() {
                            assert((reports@ + batch@)[j1] == reports@[j1]);
                            assert((reports@ + batch@)[j2] == reports@[j2]);
                        } else if j1 >= reports@.len() {
                            let jb1 = j1 - reports@.len();
                            let jb2 = j2 - reports@.len();
                            assert(batch@[jb1] is Leaf && batch@[jb2] is Leaf);
                            assert(jb1 < leaf_reports(ent).len());
                            assert(jb2 < leaf_reports(ent).len());
                            assert(batch@[jb1] == leaf_reports(ent)[jb1]);
                            assert(batch@[jb2] == leaf_reports(ent)[jb2]);
                        } else {
                            // an old report against one of this listing's:
                            // their paths come from different directories
                            let jb2 = j2 - reports@.len();
                            assert(batch@[jb2] is Leaf);
                            assert(jb2 < leaf_reports(ent).len());
                            assert(batch@[jb2] == leaf_reports(ent)[jb2]);
                            lemma_leaf_reports_sound(ent, jb2);
                            let k2 = choose|k: int|
                                0 <= k < ent.len() && !((#[trigger] ent[k]).is_dir_child())
                                    && leaf_reports(ent)[jb2] == Report::Leaf(ent[k].path);
                            assert((reports@ + batch@)[j1] == reports@[j1]);
                            let (w, k1) = choose|w: int, k: int| #[trigger] leaf_tag_ok(
                                *tree,
                                origin0,
                                pre,
                                reports@[j1]->Leaf_0,
                                w,
                                k,
                            );
                            assert(w != id as int);
                            if reports@[j1]->Leaf_0 == batch@[jb2]->Leaf_0 {
                                assert(is_entry(*tree, origin0[w] as int, k1));
                                assert(is_entry(*tree, t as int, k2));
                                assert(tree.dirs@[origin0[w] as int].entries@[k1].path
                                    == tree.dirs@[t as int].entries@[k2].path);
                                assert(origin0[w] as int == t as int && k1 == k2);
                                assert(origin0[id as int] == t);
                                assert(w == id as int);
                            }
                        }
                    }
                    lemma_merge_exhaust_after_listing(
                        pre,
                        cur,
                        walker.paths(),
                        reports@,
                        batch@,
                        id as int,
                        g,
                    );
                }
                reports.append(&mut batch);
            },
        }
    }
    proof {
        assert(walker.nodes.states.len() == walker.states().len());
        assert forall|i: int|
            0 <= i < walker.states().len() implies (#[trigger] walker.states()[i]) is Empty by {
            lemma_connected_root_empty_all_empty(walker.states(), i);
        }
        // the root's exhausted-report carries the root path
        assert(has_exhaust_report(reports@, 0));
        let j0 = choose|j: int|
            0 <= j < reports@.len() && (#[trigger] reports@[j]) is Exhausted
                && reports@[j]->Exhausted_0 as int == 0;
        assert(reports@[j0]->Exhausted_1 == walker.paths()[0]);
        assert(exhaust_reported(reports@, tree.root_path));
        // every reachable directory was interned, exhausted, and
        // reported under the path its parent's entry gave it
        assert forall|i: int, k: int|
            #[trigger] is_edge(*tree, i, k) && tree.dirs@[i].error is None && reachable(
                *tree,
                i,
            ) implies exhaust_reported(reports@, tree.dirs@[i].entries@[k].path) by {
            let d = edge_target(*tree, i, k);
            assert(0 <= i < d && is_edge(*tree, i, k) && edge_target(*tree, i, k) == d
                && tree.dirs@[i].error is None && reachable(*tree, i));
            assert(reachable(*tree, d));
            lemma_reachable_is_interned(*tree, origin@, walker.states(), d);
            let u = choose|u: int|
                0 <= u < origin@.len() && (#[trigger] origin@[u]) as int == d;
            assert(u != 0);
            assert(parent_witness_ok(
                *tree,
                origin@,
                walker.states(),
                walker.paths(),
                parents,
                u,
            ));
            let p = parents[u].0;
            let kp = parents[u].1;
            assert(is_edge(*tree, origin@[p] as int, kp));
            assert(edge_target(*tree, origin@[p] as int, kp) == edge_target(*tree, i, k));
            assert(origin@[p] as int == i && kp == k);
            assert(walker.paths()[u] == tree.dirs@[i].entries@[k].path);
            assert(walker.states()[u] is Empty);
            assert(has_exhaust_report(reports@, u));
            let j = choose|j: int|
                0 <= j < reports@.len() && (#[trigger] reports@[j]) is Exhausted
                    && reports@[j]->Exhausted_0 as int == u;
            assert(reports@[j]->Exhausted_1 == walker.paths()[u]);
        }
        // ... and every leaf entry of a reachable, successfully listed
        // directory was reported
        assert forall|i: int, k: int|
            0 <= i < tree.dirs@.len() && reachable(*tree, i) && tree.dirs@[i].error is None && 0
                <= k < tree.dirs@[i].entries@.len() && !(#[trigger] tree.dirs@[i].entries@[
                k
            ]).is_dir_child() implies leaf_reported(reports@, tree.dirs@[i].entries@[k].path) by {
            lemma_reachable_is_interned(*tree, origin@, walker.states(), i);
            let u = choose|u: int|
                0 <= u < origin@.len() && (#[trigger] origin@[u]) as int == i;
            assert(walker.states()[u] is Empty);
            assert(listing_leaves_reported(
                *tree,
                origin@,
                walker.states(),
                reports@,
                u,
                k,
            ));
        }
    }
    (walker, reports)
}

/// Folding a failed listing's two reports into the running log keeps the
/// exhausted-marks correspondence.
proof fn lemma_merge_exhaust_after_demote(
    pre: Seq<NodeState>,
    cur: Seq<NodeState>,
    paths: Seq<String>,
    log: Seq<Report>,
    batch: Seq<Report>,
    id: int,
)
    requires
        0 <= id < pre.len(),
        pre[id] is Pending,
        cur == pre.update(id, NodeState::Empty),
        exhausted_marks(pre, paths, log),
        batch.len() == 2,
        batch[0] is Failed,
        batch[1] is Exhausted,
        batch[1]->Exhausted_0 == id as usize,
        batch[1]->Exhausted_1 == paths[id],
        id <= usize::MAX,
    ensures
        exhausted_marks(cur, paths, log + batch),
{
    let all = log + batch;
    assert forall|k: int|
        0 <= k < all.len() && (#[trigger] all[k]) is Exhausted implies {
        &&& 0 <= (all[k]->Exhausted_0 as int) < cur.len()
        &&& cur[all[k]->Exhausted_0 as int] is Empty
        &&& all[k]->Exhausted_1 == paths[all[k]->Exhausted_0 as int]
    } by {
        if k < log.len() {
            assert(log[k] is Exhausted);
            assert(pre[log[k]->Exhausted_0 as int] is Empty);
        } else {
            assert(all[k] == batch[k - log.len()]);
        }
    }
    assert forall|k1: int, k2: int|
        0 <= k1 < k2 < all.len() && (#[trigger] all[k1]) is Exhausted && (#[trigger] all[k2])
            is Exhausted implies all[k1]->Exhausted_0 != all[k2]->Exhausted_0 by {
        if k2 >= log.len() && k1 < log.len() {
            assert(all[k2] == batch[k2 - log.len()]);
            assert(pre[all[k1]->Exhausted_0 as int] is Empty);
        }
    }
    assert forall|i: int|
        0 <= i < cur.len() && (#[trigger] cur[i]) is Empty implies has_exhaust_report(all, i) by {
        if i == id {
            assert(all[log.len() as int + 1] == batch[1]);
            assert(all[log.len() as int + 1] is Exhausted);
            assert(all[log.len() as int + 1]->Exhausted_0 as int == i);
        } else {
            assert(pre[i] is Empty);
            let k = choose|k: int|
                0 <= k < log.len() && (#[trigger] log[k]) is Exhausted && log[k]->Exhausted_0 as int
                    == i;
            assert(all[k] is Exhausted && all[k]->Exhausted_0 as int == i);
        }
    }
}

/// Folding a successful listing's reports into the running log keeps the
/// exhausted-marks correspondence: leaf reports change nothing, and the
/// exhausted-report — present exactly when the listing found no
/// directory children — marks the newly exhausted node.
proof fn lemma_merge_exhaust_after_listing(
    pre: Seq<NodeState>,
    cur: Seq<NodeState>,
    paths: Seq<String>,
    log: Seq<Report>,
    batch: Seq<Report>,
    id: int,
    fresh: nat,
)
    requires
        0 <= id < pre.len(),
        pre[id] is Pending,
        cur.len() == pre.len() + fresh,
        forall|j: int| 0 <= j < pre.len() && j != id ==> cur[j] == pre[j],
        fresh == 0 ==> cur[id] is Empty,
        fresh > 0 ==> cur[id] is Full,
        forall|j: int| pre.len() <= j < cur.len() ==> !((#[trigger] cur[j]) is Empty),
        exhausted_marks(pre, paths.subrange(0, pre.len() as int), log),
        paths.len() == cur.len(),
        forall|k: int|
            0 <= k < batch.len() && (#[trigger] batch[k]) is Exhausted ==> k == batch.len() - 1
                && fresh == 0 && batch[k]->Exhausted_0 == id as usize && batch[k]->Exhausted_1
                == paths[id],
        fresh == 0 ==> batch.len() >= 1 && batch[batch.len() - 1] is Exhausted,
        id <= usize::MAX,
    ensures
        exhausted_marks(cur, paths, log + batch),
{
    let all = log + batch;
    let prepaths = paths.subrange(0, pre.len() as int);
    assert forall|k: int|
        0 <= k < all.len() && (#[trigger] all[k]) is Exhausted implies {
        &&& 0 <= (all[k]->Exhausted_0 as int) < cur.len()
        &&& cur[all[k]->Exhausted_0 as int] is Empty
        &&& all[k]->Exhausted_1 == paths[all[k]->Exhausted_0 as int]
    } by {
        if k < log.len() {
            assert(log[k] is Exhausted);
            let i = log[k]->Exhausted_0 as int;
            assert(pre[i] is Empty);
            assert(i != id);
            assert(log[k]->Exhausted_1 == prepaths[i]);
            assert(prepaths[i] == paths[i]);
        } else {
            assert(all[k] == batch[k - log.len()]);
        }
    }
    assert forall|k1: int, k2: int|
        0 <= k1 < k2 < all.len() && (#[trigger] all[k1]) is Exhausted && (#[trigger] all[k2])
            is Exhausted implies all[k1]->Exhausted_0 != all[k2]->Exhausted_0 by {
        if k2 >= log.len() && k1 < log.len() {
            assert(all[k2] == batch[k2 - log.len()]);
            assert(pre[all[k1]->Exhausted_0 as int] is Empty);
        } else if k2 >= log.len() && k1 >= log.len() {
            assert(all[k1] == batch[k1 - log.len()]);
            assert(all[k2] == batch[k2 - log.len()]);
        }
    }
    assert forall|i: int|
        0 <= i < cur.len() && (#[trigger] cur[i]) is Empty implies has_exhaust_report(all, i) by {
        if i == id {
            assert(fresh == 0);
            assert(all[log.len() as int + batch.len() as int - 1] == batch[batch.len() - 1]);
            assert(all[log.len() as int + batch.len() as int - 1] is Exhausted);
            assert(all[log.len() as int + batch.len() as int - 1]->Exhausted_0 as int == i);
        } else {
            assert(i < pre.len());
            assert(pre[i] is Empty);
            let k = choose|k: int|
                0 <= k < log.len() && (#[trigger] log[k]) is Exhausted && log[k]->Exhausted_0 as int
                    == i;
            assert(all[k] is Exhausted && all[k]->Exhausted_0 as int == i);
        }
    }
}

} // verus!
