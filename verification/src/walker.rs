//! The traversal engine.
//!
//! A `Walker` owns the node map and the record of outstanding listing
//! tasks.  `walk_until_pending` descends from the root at random,
//! dispatching a listing task for every unvisited directory it reaches and
//! exhausting directories whose children have all been pruned, until it is
//! blocked on a pending listing (or the root itself is exhausted).
//! `process_one_task` applies one completed listing.  The caller runs the
//! listings — concurrently if it likes, completing in any order — and
//! feeds every result back exactly once.

use vstd::pervasive::unreached;
use vstd::prelude::*;

use crate::node::child_in_range;
use crate::node::connected;
use crate::node::lemma_connected_make_empty;
use crate::node::lemma_connected_mark_pending;
use crate::node::lemma_connected_prune;
use crate::node::lemma_connected_resolve;
use crate::node::count_nonempty;
use crate::node::count_resolved;
use crate::node::count_unvisited;
use crate::node::evolves;
use crate::node::lemma_count_nonempty_update;
use crate::node::lemma_count_resolved_update;
use crate::node::lemma_count_unvisited_update;
use crate::node::lemma_evolves_transitive;
use crate::node::lemma_total_entries_update;
use crate::node::total_entries;
use crate::node::NodeMap;
use crate::node::NodeState;
use crate::rng::random_below;

verus! {

/// One entry of a completed directory listing, as the lister saw it.
pub struct Entry {
    pub path: String,
    pub is_dir: bool,
    pub is_symlink: bool,
}

impl Entry {
    /// Only a real (non-symlink) directory is descended into; everything
    /// else is a leaf, reported once on discovery and never stored.
    pub open spec fn is_dir_child(self) -> bool {
        self.is_dir && !self.is_symlink
    }
}

/// What one listing task came back with: the entries it enumerated, or
/// the text of the I/O error that stopped it.
pub enum ListingOutcome {
    Success(Vec<Entry>),
    Failure(String),
}

/// One observable event of the walk, in the order produced.
#[derive(Debug, PartialEq, Eq)]
pub enum Report {
    /// A leaf entry (non-directory or symlink), reported once on
    /// discovery.
    Leaf(String),
    /// The path with this node index is fully exhausted.
    Exhausted(usize, String),
    /// Listing the path with this node index failed with the given error
    /// text; the path is demoted to exhausted right after.
    Failed(usize, String, String),
}

/// The paths of the directory children of a listing, in listing order.
pub open spec fn dir_child_paths(entries: Seq<Entry>) -> Seq<String>
    decreases entries.len(),
{
    if entries.len() == 0 {
        Seq::empty()
    } else {
        dir_child_paths(entries.drop_last()) + if entries.last().is_dir_child() {
            seq![entries.last().path]
        } else {
            Seq::empty()
        }
    }
}

/// The leaf reports a listing produces, in listing order.
pub open spec fn leaf_reports(entries: Seq<Entry>) -> Seq<Report>
    decreases entries.len(),
{
    if entries.len() == 0 {
        Seq::empty()
    } else {
        leaf_reports(entries.drop_last()) + if entries.last().is_dir_child() {
            Seq::empty()
        } else {
            seq![Report::Leaf(entries.last().path)]
        }
    }
}

/// The outstanding-task record lists exactly the `Pending` nodes, each
/// once.
pub open spec fn queue_wf(q: Seq<usize>, s: Seq<NodeState>) -> bool {
    &&& forall|k: int| 0 <= k < q.len() ==> ((#[trigger] q[k]) as int) < s.len()
    &&& forall|k: int| 0 <= k < q.len() ==> s[(#[trigger] q[k]) as int] is Pending
    &&& forall|k1: int, k2: int| 0 <= k1 < k2 < q.len() ==> q[k1] != q[k2]
    &&& forall|i: int| 0 <= i < s.len() && (#[trigger] s[i]) is Pending ==> q.contains(i as usize)
}

/// `r` reports as exhausted a node that indeed went `Empty` between `pre`
/// and `post`, under its own path text.
pub open spec fn exhaust_report_ok(
    pre: Seq<NodeState>,
    post: Seq<NodeState>,
    paths: Seq<String>,
    r: Report,
) -> bool {
    &&& r is Exhausted
    &&& 0 <= (r->Exhausted_0 as int) < pre.len()
    &&& !(pre[r->Exhausted_0 as int] is Empty)
    &&& post[r->Exhausted_0 as int] is Empty
    &&& r->Exhausted_1 == paths[r->Exhausted_0 as int]
}

pub open spec fn has_exhaust_report(out: Seq<Report>, i: int) -> bool {
    exists|k: int|
        0 <= k < out.len() && (#[trigger] out[k]) is Exhausted && out[k]->Exhausted_0 as int == i
}

/// `out` consists of exhausted-reports that match, one for one, the nodes
/// that went `Empty` between `pre` and `post`.
pub open spec fn exhaust_log(
    pre: Seq<NodeState>,
    post: Seq<NodeState>,
    paths: Seq<String>,
    out: Seq<Report>,
) -> bool {
    &&& forall|k: int| 0 <= k < out.len() ==> exhaust_report_ok(pre, post, paths, #[trigger] out[k])
    &&& forall|k1: int, k2: int|
        0 <= k1 < k2 < out.len() ==> out[k1]->Exhausted_0 != out[k2]->Exhausted_0
    &&& forall|i: int|
        0 <= i < pre.len() && !((#[trigger] pre[i]) is Empty) && post[i] is Empty
            ==> has_exhaust_report(out, i)
}

/// Every report a listing's entries produce directly is a leaf report.
pub proof fn lemma_leaf_reports_are_leaves(entries: Seq<Entry>)
    ensures
        forall|k: int|
            0 <= k < leaf_reports(entries).len() ==> (#[trigger] leaf_reports(entries)[k]) is Leaf,
    decreases entries.len(),
{
    if entries.len() > 0 {
        lemma_leaf_reports_are_leaves(entries.drop_last());
    }
}

/// Every entry that is not a directory child contributes its leaf
/// report.
pub proof fn lemma_leaf_reports_complete(entries: Seq<Entry>, k: int)
    requires
        0 <= k < entries.len(),
        !entries[k].is_dir_child(),
    ensures
        exists|j: int|
            0 <= j < leaf_reports(entries).len() && (#[trigger] leaf_reports(entries)[j]) is Leaf
                && leaf_reports(entries)[j]->Leaf_0 == entries[k].path,
    decreases entries.len(),
{
    let lr = leaf_reports(entries);
    if k == entries.len() - 1 {
        assert(lr[lr.len() - 1] == Report::Leaf(entries.last().path));
    } else {
        lemma_leaf_reports_complete(entries.drop_last(), k);
        let prev = leaf_reports(entries.drop_last());
        let j = choose|j: int|
            0 <= j < prev.len() && (#[trigger] prev[j]) is Leaf && prev[j]->Leaf_0
                == entries.drop_last()[k].path;
        assert(lr[j] == prev[j]);
        assert(entries.drop_last()[k] == entries[k]);
    }
}

/// Which entry a leaf report came from.
pub proof fn lemma_leaf_reports_sound(entries: Seq<Entry>, j: int)
    requires
        0 <= j < leaf_reports(entries).len(),
    ensures
        exists|k: int|
            0 <= k < entries.len() && !((#[trigger] entries[k]).is_dir_child()) && leaf_reports(
                entries,
            )[j] == Report::Leaf(entries[k].path),
    decreases entries.len(),
{
    if entries.len() > 0 {
        let lr = leaf_reports(entries);
        let prev = leaf_reports(entries.drop_last());
        if j < prev.len() {
            lemma_leaf_reports_sound(entries.drop_last(), j);
            let k = choose|k: int|
                0 <= k < entries.drop_last().len() && !((#[trigger] entries.drop_last()[
                    k
                ]).is_dir_child()) && prev[j] == Report::Leaf(entries.drop_last()[k].path);
            assert(entries.drop_last()[k] == entries[k]);
            assert(lr[j] == prev[j]);
        } else {
            assert(!entries.last().is_dir_child());
            assert(lr[j] == Report::Leaf(entries[entries.len() - 1].path));
        }
    }
}

/// A listing with pairwise distinct entry paths produces pairwise
/// distinct leaf reports.
pub proof fn lemma_leaf_reports_distinct(entries: Seq<Entry>)
    requires
        forall|k1: int, k2: int|
            0 <= k1 < k2 < entries.len() ==> entries[k1].path != entries[k2].path,
    ensures
        forall|j1: int, j2: int|
            0 <= j1 < j2 < leaf_reports(entries).len() ==> leaf_reports(entries)[j1]->Leaf_0
                != leaf_reports(entries)[j2]->Leaf_0,
    decreases entries.len(),
{
    if entries.len() > 0 {
        let lr = leaf_reports(entries);
        let prev = leaf_reports(entries.drop_last());
        assert forall|k1: int, k2: int|
            0 <= k1 < k2 < entries.drop_last().len() implies entries.drop_last()[k1].path
            != entries.drop_last()[k2].path by {
            assert(entries[k1].path != entries[k2].path);
        }
        lemma_leaf_reports_distinct(entries.drop_last());
        assert forall|j1: int, j2: int|
            0 <= j1 < j2 < lr.len() implies lr[j1]->Leaf_0 != lr[j2]->Leaf_0 by {
            if j2 < prev.len() {
                assert(lr[j1] == prev[j1] && lr[j2] == prev[j2]);
            } else {
                assert(lr[j2] == Report::Leaf(entries.last().path));
                lemma_leaf_reports_sound(entries.drop_last(), j1);
                let k = choose|k: int|
                    0 <= k < entries.drop_last().len() && !((#[trigger] entries.drop_last()[
                        k
                    ]).is_dir_child()) && prev[j1] == Report::Leaf(entries.drop_last()[k].path);
                assert(entries[k].path != entries[entries.len() - 1].path);
                assert(lr[j1] == prev[j1]);
            }
        }
    }
}

/// Over a whole walk: the `Exhausted` reports among `out` mark exactly
/// the `Empty` nodes, each exactly once, under its own path text.
pub open spec fn exhausted_marks(states: Seq<NodeState>, paths: Seq<String>, out: Seq<Report>) -> bool {
    &&& forall|k: int|
        0 <= k < out.len() && (#[trigger] out[k]) is Exhausted ==> {
            &&& 0 <= (out[k]->Exhausted_0 as int) < states.len()
            &&& states[out[k]->Exhausted_0 as int] is Empty
            &&& out[k]->Exhausted_1 == paths[out[k]->Exhausted_0 as int]
        }
    &&& forall|k1: int, k2: int|
        0 <= k1 < k2 < out.len() && (#[trigger] out[k1]) is Exhausted && (#[trigger] out[k2])
            is Exhausted ==> out[k1]->Exhausted_0 != out[k2]->Exhausted_0
    &&& forall|i: int|
        0 <= i < states.len() && (#[trigger] states[i]) is Empty ==> has_exhaust_report(out, i)
}

/// The traversal engine's whole state: the node map and the outstanding
/// listing tasks, in dispatch order (the order carries no meaning).
pub struct Walker {
    pub nodes: NodeMap,
    pub task_queue: Vec<usize>,
}

impl Walker {
    pub open spec fn states(self) -> Seq<NodeState> {
        self.nodes.states@
    }

    pub open spec fn paths(self) -> Seq<String> {
        self.nodes.paths@
    }

    pub open spec fn wf(self) -> bool {
        &&& self.nodes.wf()
        &&& self.states().len() >= 1
        &&& queue_wf(self.task_queue@, self.states())
    }

    /// A walker poised at `root_path`, with nothing dispatched yet.
    pub fn new(root_path: String) -> (w: Walker)
        ensures
            w.wf(),
            w.states().len() == 1,
            w.states()[0] is Unvisited,
            w.paths()[0] == root_path,
            w.task_queue@.len() == 0,
            connected(w.states()),
    {
        let w = Walker { nodes: NodeMap::new(root_path), task_queue: Vec::new() };
        proof {
            reveal(connected);
        }
        w
    }

    pub fn len(&self) -> (n: usize)
        ensures
            n == self.states().len(),
    {
        self.nodes.len()
    }

    pub fn is_exhausted(&self, i: usize) -> (r: bool)
        requires
            (i as int) < self.states().len(),
        ensures
            r == (self.states()[i as int] is Empty),
    {
        match self.nodes.lookup(i) {
            NodeState::Empty => true,
            _ => false,
        }
    }

    pub fn path_of(&self, i: usize) -> (r: &String)
        requires
            self.wf(),
            (i as int) < self.states().len(),
        ensures
            *r == self.paths()[i as int],
    {
        self.nodes.path_of(i)
    }

    pub fn is_pending(&self, i: usize) -> (r: bool)
        requires
            (i as int) < self.states().len(),
        ensures
            r == (self.states()[i as int] is Pending),
    {
        match self.nodes.lookup(i) {
            NodeState::Pending => true,
            _ => false,
        }
    }

    /// Descend from the root, at random, as far as the known state
    /// permits: dispatch a listing task for every unvisited directory
    /// reached (restarting from the root after each dispatch, so one pass
    /// can seed several independent branches), prune children found
    /// exhausted, and exhaust directories whose child list has run empty.
    /// Returns the newly dispatched node indices — the caller must start
    /// one listing for each — and the exhausted-reports produced on the
    /// way.  On return either the root has just been exhausted or at
    /// least one listing task is outstanding.
    #[verifier::rlimit(80)]
    pub fn walk_until_pending(&mut self) -> (r: (Vec<usize>, Vec<Report>))
        requires
            old(self).wf(),
            connected(old(self).states()),
            !(old(self).states()[0] is Empty),
        ensures
            final(self).wf(),
            connected(final(self).states()),
            final(self).states().len() == old(self).states().len(),
            final(self).paths() == old(self).paths(),
            evolves(old(self).states(), final(self).states()),
            forall|i: int|
                0 <= i < old(self).states().len() ==> (#[trigger] final(self).states()[i].is_resolved() <==> old(self).states()[i].is_resolved()),
            forall|k: int|
                0 <= k < r.0@.len() ==> {
                    &&& ((#[trigger] r.0@[k]) as int) < old(self).states().len()
                    &&& old(self).states()[r.0@[k] as int] is Unvisited
                    &&& final(self).states()[r.0@[k] as int] is Pending
                },
            final(self).task_queue@ == old(self).task_queue@ + r.0@,
            exhaust_log(old(self).states(), final(self).states(), old(self).paths(), r.1@),
            final(self).states()[0] is Empty || final(self).task_queue@.len() > 0,
    {
        let mut submitted: Vec<usize> = Vec::new();
        let mut out: Vec<Report> = Vec::new();
        let mut cursor: usize = 0;
        loop
            invariant
                self.wf(),
                connected(self.states()),
                self.states().len() == old(self).states().len(),
                self.paths() == old(self).paths(),
                (cursor as int) < self.states().len(),
                !(self.states()[0] is Empty),
                !(self.states()[cursor as int] is Empty),
                evolves(old(self).states(), self.states()),
                forall|i: int|
                    0 <= i < old(self).states().len() ==> (#[trigger] self.states()[
                        i
                    ].is_resolved() <==> old(self).states()[i].is_resolved()),
                forall|k: int|
                    0 <= k < submitted@.len() ==> {
                        &&& ((#[trigger] submitted@[k]) as int) < old(self).states().len()
                        &&& old(self).states()[submitted@[k] as int] is Unvisited
                        &&& self.states()[submitted@[k] as int] is Pending
                    },
                self.task_queue@ == old(self).task_queue@ + submitted@,
                exhaust_log(old(self).states(), self.states(), old(self).paths(), out@),
            decreases
                    count_nonempty(self.states()),
                    count_unvisited(self.states()),
                    total_entries(self.states()),
                    self.states().len() - cursor,
        {
            let ghost pre = self.states();
            match self.nodes.lookup(cursor) {
                NodeState::Unvisited => {
                    let ghost qpre = self.task_queue@;
                    self.nodes.mark_pending(cursor);
                    self.task_queue.push(cursor);
                    submitted.push(cursor);
                    proof {
                        let cur = self.states();
                        lemma_evolves_transitive(old(self).states(), pre, cur);
                        lemma_count_nonempty_update(pre, cursor as int, NodeState::Pending);
                        lemma_count_unvisited_update(pre, cursor as int, NodeState::Pending);
                        lemma_total_entries_update(pre, cursor as int, NodeState::Pending);
                        lemma_connected_mark_pending(pre, cursor as int);
                        assert forall|i: int|
                            0 <= i < old(self).states().len() implies (#[trigger] cur[
                            i
                        ].is_resolved() <==> old(self).states()[i].is_resolved()) by {
                            if i != cursor as int {
                                assert(cur[i] == pre[i]);
                            } else {
                                assert(pre[i].is_resolved() <==> old(self).states()[i].is_resolved());
                            }
                        }
                        assert(self.task_queue@ == qpre.push(cursor));
                        assert(self.task_queue@ =~= old(self).task_queue@ + submitted@);
                        assert forall|k: int|
                            0 <= k < self.task_queue@.len() implies s_pending_at(
                            cur,
                            #[trigger] self.task_queue@[k],
                        ) by {
                            if k < qpre.len() {
                                assert(s_pending_at(pre, qpre[k]));
                            }
                        }
                        assert forall|k1: int, k2: int|
                            0 <= k1 < k2 < self.task_queue@.len() implies self.task_queue@[k1]
                            != self.task_queue@[k2] by {
                            if k2 == self.task_queue@.len() - 1 {
                                assert(s_pending_at(pre, qpre[k1]));
                            }
                        }
                        assert forall|i: int|
                            0 <= i < cur.len() && (#[trigger] cur[i]) is Pending implies self
                            .task_queue@.contains(i as usize) by {
                            if i == cursor as int {
                                assert(self.task_queue@[self.task_queue@.len() - 1] == cursor);
                            } else {
                                assert(pre[i] is Pending);
                                assert(qpre.contains(i as usize));
                                let k = choose|k: int| 0 <= k < qpre.len() && qpre[k] == i as usize;
                                assert(self.task_queue@[k] == i as usize);
                            }
                        }
                        assert forall|k: int| 0 <= k < out@.len() implies exhaust_report_ok(
                            old(self).states(),
                            cur,
                            old(self).paths(),
                            #[trigger] out@[k],
                        ) by {
                            let id = out@[k]->Exhausted_0 as int;
                            assert(exhaust_report_ok(old(self).states(), pre, old(self).paths(), out@[k]));
                            assert(pre[id] is Empty);
                            assert(id != cursor as int);
                        }
                    }
                    cursor = 0;
                },
                NodeState::Pending => {
                    proof {
                        assert(self.task_queue@.contains(cursor));
                        assert(self.task_queue@.len() > 0);
                    }
                    return (submitted, out);
                },
                NodeState::Empty => {
                    return unreached();
                },
                NodeState::Full(cs) => {
                    let n = cs.len();
                    if n == 0 {
                        let path = self.nodes.path_of(cursor).clone();
                        let ghost opre = out@;
                        self.nodes.exhaust(cursor);
                        out.push(Report::Exhausted(cursor, path));
                        proof {
                            let cur = self.states();
                            assert(out@ == opre.push(Report::Exhausted(cursor, path)));
                            lemma_evolves_transitive(old(self).states(), pre, cur);
                            lemma_count_nonempty_update(pre, cursor as int, NodeState::Empty);
                            lemma_connected_make_empty(pre, cursor as int);
                            assert forall|i: int|
                                0 <= i < old(self).states().len() implies (#[trigger] cur[
                                i
                            ].is_resolved() <==> old(self).states()[i].is_resolved()) by {
                                if i != cursor as int {
                                    assert(cur[i] == pre[i]);
                                } else {
                                    assert(pre[i].is_resolved() <==> old(self).states()[i].is_resolved());
                                }
                            }
                            assert forall|k: int|
                                0 <= k < self.task_queue@.len() implies s_pending_at(
                                cur,
                                #[trigger] self.task_queue@[k],
                            ) by {
                                assert(s_pending_at(pre, self.task_queue@[k]));
                                assert(self.task_queue@[k] != cursor);
                            }
                            assert forall|i: int|
                                0 <= i < cur.len() && (#[trigger] cur[i]) is Pending implies self
                                .task_queue@.contains(i as usize) by {
                                assert(pre[i] is Pending);
                            }
                            assert forall|k: int| 0 <= k < out@.len() implies exhaust_report_ok(
                                old(self).states(),
                                cur,
                                old(self).paths(),
                                #[trigger] out@[k],
                            ) by {
                                if k < out@.len() - 1 {
                                    assert(out@[k] == opre[k]);
                                    assert(exhaust_report_ok(
                                        old(self).states(),
                                        pre,
                                        old(self).paths(),
                                        opre[k],
                                    ));
                                    assert(pre[out@[k]->Exhausted_0 as int] is Empty);
                                }
                            }
                            assert forall|k1: int, k2: int|
                                0 <= k1 < k2 < out@.len() implies out@[k1]->Exhausted_0
                                != out@[k2]->Exhausted_0 by {
                                if k2 == out@.len() - 1 {
                                    assert(out@[k1] == opre[k1]);
                                    assert(exhaust_report_ok(
                                        old(self).states(),
                                        pre,
                                        old(self).paths(),
                                        opre[k1],
                                    ));
                                    assert(pre[out@[k1]->Exhausted_0 as int] is Empty);
                                }
                            }
                            assert forall|i: int|
                                0 <= i < old(self).states().len() && !((#[trigger] old(self).states()[i]) is Empty) && cur[i] is Empty implies has_exhaust_report(
                                out@,
                                i,
                            ) by {
                                if i == cursor as int {
                                    assert(out@[out@.len() - 1] is Exhausted);
                                    assert(out@[out@.len() - 1]->Exhausted_0 as int == i);
                                } else {
                                    assert(pre[i] is Empty);
                                    assert(has_exhaust_report(opre, i));
                                    let k = choose|k: int|
                                        0 <= k < opre.len() && (#[trigger] opre[k]) is Exhausted
                                            && opre[k]->Exhausted_0 as int == i;
                                    assert(out@[k] is Exhausted && out@[k]->Exhausted_0 as int == i);
                                }
                            }
                        }
                        if cursor == 0 {
                            return (submitted, out);
                        }
                        cursor = 0;
                    } else {
                        let k = random_below(n);
                        let c = cs[k];
                        proof {
                            assert(child_in_range(
                                pre[cursor as int].children()[k as int],
                                cursor as int,
                                pre.len() as int,
                            ));
                        }
                        match self.nodes.lookup(c) {
                            NodeState::Pending => {
                                proof {
                                    assert(self.task_queue@.contains(c));
                                    assert(self.task_queue@.len() > 0);
                                }
                                return (submitted, out);
                            },
                            NodeState::Empty => {
                                self.nodes.prune_child(cursor, k);
                                proof {
                                    let cur = self.states();
                                    lemma_evolves_transitive(old(self).states(), pre, cur);
                                    let v = cur[cursor as int];
                                    lemma_count_nonempty_update(pre, cursor as int, v);
                                    lemma_count_unvisited_update(pre, cursor as int, v);
                                    lemma_total_entries_update(pre, cursor as int, v);
                                    assert(v.entry_count() == n - 1);
                                    assert(cur == pre.update(cursor as int, v));
                                    assert(self.nodes.states.len() == cur.len());
                                    lemma_connected_prune(pre, cur, cursor as int, k as int);
                                    assert forall|i: int|
                                        0 <= i < old(self).states().len() implies (#[trigger] cur[
                                        i
                                    ].is_resolved() <==> old(self).states()[i].is_resolved()) by {
                                        if i != cursor as int {
                                            assert(cur[i] == pre[i]);
                                        } else {
                                            assert(pre[i].is_resolved() <==> old(self).states()[i].is_resolved());
                                        }
                                    }

                                    assert forall|w: int|
                                        0 <= w < self.task_queue@.len() implies s_pending_at(
                                        cur,
                                        #[trigger] self.task_queue@[w],
                                    ) by {
                                        assert(s_pending_at(pre, self.task_queue@[w]));
                                        assert(self.task_queue@[w] != cursor);
                                    }
                                    assert forall|i: int|
                                        0 <= i < cur.len() && (#[trigger] cur[i])
                                            is Pending implies self.task_queue@.contains(i as usize) by {
                                        assert(pre[i] is Pending);
                                    }
                                    assert forall|w: int|
                                        0 <= w < out@.len() implies exhaust_report_ok(
                                        old(self).states(),
                                        cur,
                                        old(self).paths(),
                                        #[trigger] out@[w],
                                    ) by {
                                        assert(exhaust_report_ok(
                                            old(self).states(),
                                            pre,
                                            old(self).paths(),
                                            out@[w],
                                        ));
                                        assert(pre[out@[w]->Exhausted_0 as int] is Empty);
                                    }
                                    assert forall|i: int|
                                        0 <= i < old(self).states().len() && !((#[trigger] old(self).states()[i]) is Empty) && cur[i]
                                            is Empty implies has_exhaust_report(out@, i) by {
                                        assert(pre[i] is Empty);
                                    }
                                }
                            },
                            NodeState::Unvisited => {
                                cursor = c;
                            },
                            NodeState::Full(_) => {
                                cursor = c;
                            },
                        }
                    }
                },
            }
        }
    }

    /// Apply the completed listing of the `Pending` node `id`: report its
    /// leaves, intern its directory children (none on failure), resolve
    /// its state, and report it exhausted at once when nothing is left to
    /// explore under it.  Every dispatched task must be fed back exactly
    /// once; completion order is free.
    #[verifier::rlimit(80)]
    pub fn process_one_task(&mut self, id: usize, outcome: ListingOutcome) -> (out: Vec<Report>)
        requires
            old(self).wf(),
            connected(old(self).states()),
            (id as int) < old(self).states().len(),
            old(self).states()[id as int] is Pending,
            outcome matches ListingOutcome::Success(entries) ==> old(self).states().len()
                + dir_child_paths(entries@).len() <= usize::MAX,
        ensures
            final(self).wf(),
            connected(final(self).states()),
            evolves(old(self).states(), final(self).states()),
            final(self).task_queue@.len() == old(self).task_queue@.len() - 1,
            forall|x: usize|
                #[trigger] final(self).task_queue@.contains(x) <==> old(self).task_queue@.contains(x) && x != id,
            count_resolved(final(self).states()) == count_resolved(old(self).states()) + 1,
            forall|j: int|
                0 <= j < old(self).states().len() && j != id ==> final(self).states()[j] == old(self).states()[j],
            outcome matches ListingOutcome::Failure(msg) ==> {
                &&& final(self).states() == old(self).states().update(
                    id as int,
                    NodeState::Empty,
                )
                &&& final(self).paths() == old(self).paths()
                &&& out@ =~= seq![
                    Report::Failed(id, old(self).paths()[id as int], msg),
                    Report::Exhausted(id, old(self).paths()[id as int]),
                ]
            },
            outcome matches ListingOutcome::Success(entries) ==> {
                let fresh = dir_child_paths(entries@).len();
                &&& final(self).paths() == old(self).paths() + dir_child_paths(entries@)
                &&& final(self).states().len() == old(self).states().len() + fresh
                &&& (fresh == 0 ==> final(self).states()[id as int] is Empty && out@
                    =~= leaf_reports(entries@) + seq![
                        Report::Exhausted(id, old(self).paths()[id as int]),
                    ])
                &&& (fresh > 0 ==> final(self).states()[id as int] is Full && final(self).states()[id as int].children() == Seq::new(
                    fresh,
                    |m: int| (old(self).states().len() + m) as usize,
                ) && out@ =~= leaf_reports(entries@))
                &&& forall|m: int|
                    old(self).states().len() <= m < final(self).states().len()
                        ==> (#[trigger] final(self).states()[m]) is Unvisited
            },
    {
        // Take `id` out of the outstanding-task record; it is there,
        // exactly once, because `id` is `Pending`.
        let ghost q0 = self.task_queue@;
        proof {
            assert(q0.contains(id));
        }
        let ql = self.task_queue.len();
        let mut j: usize = 0;
        while self.task_queue[j] != id
            invariant
                self == old(self),
                q0 == self.task_queue@,
                ql == q0.len(),
                j < ql,
                forall|w: int| 0 <= w < j ==> q0[w] != id,
                exists|w: int| j <= w < q0.len() && q0[w] == id,
            decreases q0.len() - j,
        {
            proof {
                let w = choose|w: int| j <= w < q0.len() && q0[w] == id;
                assert(w != j as int);
                assert(j + 1 <= w < q0.len() && q0[w] == id);
            }
            j += 1;
        }
        self.task_queue.swap_remove(j);
        proof {
            lemma_swap_remove_queue(q0, j as int);
        }
        match outcome {
            ListingOutcome::Failure(msg) => {
                let path = self.nodes.path_of(id).clone();
                proof {
                    lemma_connected_make_empty(self.states(), id as int);
                }
                self.nodes.mark_empty(id);
                let mut out: Vec<Report> = Vec::new();
                out.push(Report::Failed(id, path.clone(), msg));
                out.push(Report::Exhausted(id, path));
                proof {
                    let cur = self.states();
                    assert forall|k: int|
                        0 <= k < self.task_queue@.len() implies s_pending_at(
                        cur,
                        #[trigger] self.task_queue@[k],
                    ) by {
                        assert(q0[j as int] == id);
                        assert(q0.contains(self.task_queue@[k]));
                        assert(self.task_queue@[k] != id);
                        assert(s_pending_at(old(self).states(), self.task_queue@[k]));
                    }
                    assert forall|i: int|
                        0 <= i < cur.len() && (#[trigger] cur[i]) is Pending implies self
                        .task_queue@.contains(i as usize) by {
                        assert(q0[j as int] == id);
                        assert(cur[id as int] is Empty);
                        assert(i != id as int);
                        assert(old(self).states()[i] is Pending);
                        assert(q0.contains(i as usize));
                        assert(self.nodes.states.len() == cur.len());
                        assert((i as usize) as int == i);
                    }
                }
                out
            },
            ListingOutcome::Success(entries) => {
                let mut dirs: Vec<String> = Vec::new();
                let mut out: Vec<Report> = Vec::new();
                let mut m: usize = 0;
                let total = entries.len();
                while m < total
                    invariant
                        total == entries@.len(),
                        m <= total,
                        dirs@ == dir_child_paths(entries@.take(m as int)),
                        out@ == leaf_reports(entries@.take(m as int)),
                    decreases total - m,
                {
                    let e = &entries[m];
                    proof {
                        assert(entries@.take(m + 1 as int).drop_last() =~= entries@.take(m as int));
                        assert(entries@.take(m + 1 as int).last() == entries@[m as int]);
                    }
                    if e.is_dir && !e.is_symlink {
                        dirs.push(e.path.clone());
                    } else {
                        out.push(Report::Leaf(e.path.clone()));
                    }
                    m += 1;
                }
                proof {
                    assert(entries@.take(total as int) =~= entries@);
                }
                let fresh = dirs.len();
                proof {
                    lemma_dir_child_paths_len(entries@);
                }
                let path = self.nodes.path_of(id).clone();
                let ghost before = self.states();
                self.nodes.resolve(id, dirs);
                proof {
                    lemma_connected_resolve(
                        before,
                        self.states(),
                        id as int,
                        dir_child_paths(entries@).len(),
                    );
                }
                if fresh == 0 {
                    out.push(Report::Exhausted(id, path));
                }
                proof {
                    let cur = self.states();
                    assert forall|k: int|
                        0 <= k < self.task_queue@.len() implies s_pending_at(
                        cur,
                        #[trigger] self.task_queue@[k],
                    ) by {
                        assert(q0.contains(self.task_queue@[k]));
                        assert(self.task_queue@[k] != id);
                        assert(s_pending_at(old(self).states(), self.task_queue@[k]));
                        assert(cur[self.task_queue@[k] as int] == old(self).states()[self.task_queue@[k] as int]);
                    }
                    assert forall|i: int|
                        0 <= i < cur.len() && (#[trigger] cur[i]) is Pending implies self
                        .task_queue@.contains(i as usize) by {
                        assert(q0[j as int] == id);
                        if i < old(self).states().len() {
                            assert(i != id as int);
                            assert(old(self).states()[i] is Pending);
                            assert(q0.contains(i as usize));
                            assert(self.nodes.states.len() == cur.len());
                            assert((i as usize) as int == i);
                        } else {
                            assert(cur[i] is Unvisited);
                        }
                    }
                }
                out
            },
        }
    }
}

/// Node `c` is a `Pending` node of `s`.
pub open spec fn s_pending_at(s: Seq<NodeState>, c: usize) -> bool {
    (c as int) < s.len() && s[c as int] is Pending
}

/// A listing has at least as many entries as directory children.
proof fn lemma_dir_child_paths_len(entries: Seq<Entry>)
    ensures
        dir_child_paths(entries).len() <= entries.len(),
    decreases entries.len(),
{
    if entries.len() > 0 {
        lemma_dir_child_paths_len(entries.drop_last());
    }
}

/// What swap-removing position `j` does to a duplicate-free record: the
/// value at `j` leaves, everything else stays, and no duplicate appears.
proof fn lemma_swap_remove_queue(q: Seq<usize>, j: int)
    requires
        0 <= j < q.len(),
        forall|k1: int, k2: int| 0 <= k1 < k2 < q.len() ==> q[k1] != q[k2],
    ensures
        ({
            let q2 = q.update(j, q.last()).drop_last();
            &&& q2.len() == q.len() - 1
            &&& forall|k1: int, k2: int| 0 <= k1 < k2 < q2.len() ==> q2[k1] != q2[k2]
            &&& forall|x: usize| #[trigger] q2.contains(x) <==> q.contains(x) && x != q[j]
        }),
{
    let q2 = q.update(j, q.last()).drop_last();
    assert forall|k1: int, k2: int| 0 <= k1 < k2 < q2.len() implies q2[k1] != q2[k2] by {
        let a1: int = if k1 == j {
            q.len() - 1
        } else {
            k1
        };
        let a2: int = if k2 == j {
            q.len() - 1
        } else {
            k2
        };
        assert(q2[k1] == q[a1] && q2[k2] == q[a2]);
    }
    assert forall|x: usize| #[trigger] q2.contains(x) implies q.contains(x) && x != q[j] by {
        let w = choose|w: int| 0 <= w < q2.len() && q2[w] == x;
        if w == j && j < q.len() - 1 {
            assert(q[q.len() - 1] == x);
        } else {
            assert(q[w] == x);
        }
    }
    assert forall|x: usize| q.contains(x) && x != q[j] implies #[trigger] q2.contains(x) by {
        let w = choose|w: int| 0 <= w < q.len() && q[w] == x;
        assert(w != j);
        if w == q.len() - 1 {
            assert(j < q.len() - 1);
            assert(q2[j] == x);
        } else {
            assert(q2[w] == x);
        }
    }
}

} // verus!
