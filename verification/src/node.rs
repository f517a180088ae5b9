//! The per-path node state machine and the map that holds it.
//!
//! Every directory the walk has heard of is interned once and identified by
//! its index into the map.  A node moves through its states in one
//! direction only: `Unvisited -> Pending -> Empty`, or
//! `Unvisited -> Pending -> Full -> Empty`; the `evolves` relation below
//! captures that monotonicity, and the public lemmas state the laws that
//! follow from it (no duplicate dispatch, `Empty` is terminal, a pruned
//! child never reappears).

use vstd::pervasive::unreached;
use vstd::prelude::*;

verus! {

/// Traversal state of one known path.
///
/// * `Unvisited`: no decision has been made about this path yet (it was
///   interned when its parent's listing resolved, but no listing task for
///   it exists).
/// * `Pending`: a listing task for this path has been dispatched and has
///   not completed; no second task may be dispatched meanwhile.
/// * `Empty`: the path's whole directory subtree is exhausted (or its
///   listing failed and the subtree was demoted).  Terminal.
/// * `Full(children)`: the path has directory children not yet known to be
///   exhausted, given by their indices in the map.
pub enum NodeState {
    Unvisited,
    Pending,
    Empty,
    Full(Vec<usize>),
}

impl NodeState {
    /// Position of a state along the one-way life of a node.
    pub open spec fn rank(self) -> int {
        match self {
            NodeState::Unvisited => 0,
            NodeState::Pending => 1,
            NodeState::Full(_) => 2,
            NodeState::Empty => 3,
        }
    }

    /// A node is resolved once its listing has been applied (or its
    /// subtree demoted after a listing failure).
    pub open spec fn is_resolved(self) -> bool {
        self.rank() >= 2
    }

    /// How many child entries the state holds.
    pub open spec fn entry_count(self) -> nat {
        match self {
            NodeState::Full(cs) => cs@.len(),
            _ => 0,
        }
    }

    /// The child list of a `Full` state (empty otherwise).
    pub open spec fn children(self) -> Seq<usize> {
        match self {
            NodeState::Full(cs) => cs@,
            _ => Seq::empty(),
        }
    }
}

/// Number of `Unvisited` entries of `s`.
pub open spec fn count_unvisited(s: Seq<NodeState>) -> nat
    decreases s.len(),
{
    if s.len() == 0 {
        0
    } else {
        count_unvisited(s.drop_last()) + if s.last() is Unvisited {
            1nat
        } else {
            0nat
        }
    }
}

/// Number of entries of `s` that are not `Empty`.
pub open spec fn count_nonempty(s: Seq<NodeState>) -> nat
    decreases s.len(),
{
    if s.len() == 0 {
        0
    } else {
        count_nonempty(s.drop_last()) + if s.last() is Empty {
            0nat
        } else {
            1nat
        }
    }
}

/// Number of resolved entries of `s`.
pub open spec fn count_resolved(s: Seq<NodeState>) -> nat
    decreases s.len(),
{
    if s.len() == 0 {
        0
    } else {
        count_resolved(s.drop_last()) + if s.last().is_resolved() {
            1nat
        } else {
            0nat
        }
    }
}

/// Total number of child entries held across all `Full` nodes of `s`.
pub open spec fn total_entries(s: Seq<NodeState>) -> nat
    decreases s.len(),
{
    if s.len() == 0 {
        0
    } else {
        total_entries(s.drop_last()) + s.last().entry_count()
    }
}

pub proof fn lemma_count_unvisited_update(s: Seq<NodeState>, i: int, v: NodeState)
    requires
        0 <= i < s.len(),
    ensures
        count_unvisited(s.update(i, v)) + (if s[i] is Unvisited {
            1nat
        } else {
            0nat
        }) == count_unvisited(s) + (if v is Unvisited {
            1nat
        } else {
            0nat
        }),
    decreases s.len(),
{
    let t = s.update(i, v);
    if i == s.len() - 1 {
        assert(t.drop_last() =~= s.drop_last());
    } else {
        assert(t.drop_last() =~= s.drop_last().update(i, v));
        assert(t.last() == s.last());
        lemma_count_unvisited_update(s.drop_last(), i, v);
    }
}

pub proof fn lemma_count_nonempty_update(s: Seq<NodeState>, i: int, v: NodeState)
    requires
        0 <= i < s.len(),
    ensures
        count_nonempty(s.update(i, v)) + (if s[i] is Empty {
            0nat
        } else {
            1nat
        }) == count_nonempty(s) + (if v is Empty {
            0nat
        } else {
            1nat
        }),
    decreases s.len(),
{
    let t = s.update(i, v);
    if i == s.len() - 1 {
        assert(t.drop_last() =~= s.drop_last());
    } else {
        assert(t.drop_last() =~= s.drop_last().update(i, v));
        assert(t.last() == s.last());
        lemma_count_nonempty_update(s.drop_last(), i, v);
    }
}

pub proof fn lemma_count_resolved_update(s: Seq<NodeState>, i: int, v: NodeState)
    requires
        0 <= i < s.len(),
    ensures
        count_resolved(s.update(i, v)) + (if s[i].is_resolved() {
            1nat
        } else {
            0nat
        }) == count_resolved(s) + (if v.is_resolved() {
            1nat
        } else {
            0nat
        }),
    decreases s.len(),
{
    let t = s.update(i, v);
    if i == s.len() - 1 {
        assert(t.drop_last() =~= s.drop_last());
    } else {
        assert(t.drop_last() =~= s.drop_last().update(i, v));
        assert(t.last() == s.last());
        lemma_count_resolved_update(s.drop_last(), i, v);
    }
}

pub proof fn lemma_total_entries_update(s: Seq<NodeState>, i: int, v: NodeState)
    requires
        0 <= i < s.len(),
    ensures
        total_entries(s.update(i, v)) + s[i].entry_count() == total_entries(s) + v.entry_count(),
    decreases s.len(),
{
    let t = s.update(i, v);
    if i == s.len() - 1 {
        assert(t.drop_last() =~= s.drop_last());
    } else {
        assert(t.drop_last() =~= s.drop_last().update(i, v));
        assert(t.last() == s.last());
        lemma_total_entries_update(s.drop_last(), i, v);
    }
}

pub proof fn lemma_count_resolved_push(s: Seq<NodeState>, v: NodeState)
    ensures
        count_resolved(s.push(v)) == count_resolved(s) + (if v.is_resolved() {
            1nat
        } else {
            0nat
        }),
{
    assert(s.push(v).drop_last() =~= s);
}

pub proof fn lemma_count_resolved_le_len(s: Seq<NodeState>)
    ensures
        count_resolved(s) <= s.len(),
    decreases s.len(),
{
    if s.len() > 0 {
        lemma_count_resolved_le_len(s.drop_last());
    }
}

pub proof fn lemma_count_resolved_pointwise(s1: Seq<NodeState>, s2: Seq<NodeState>)
    requires
        s1.len() == s2.len(),
        forall|i: int|
            0 <= i < s1.len() ==> (#[trigger] s1[i].is_resolved() <==> #[trigger] s2[
                i
            ].is_resolved()),
    ensures
        count_resolved(s1) == count_resolved(s2),
    decreases s1.len(),
{
    if s1.len() > 0 {
        assert(s1[s1.len() - 1].is_resolved() <==> s2[s1.len() - 1].is_resolved());
        lemma_count_resolved_pointwise(s1.drop_last(), s2.drop_last());
    }
}

/// How one node's state may change over time: its rank never goes back,
/// and while it stays `Full` its child list only loses entries.
pub open spec fn node_evolves(pre: NodeState, post: NodeState) -> bool {
    &&& pre.rank() <= post.rank()
    &&& (pre is Full && post is Full ==> forall|x: usize|
        post.children().contains(x) ==> pre.children().contains(x))
}

/// How the whole map may change over time: nodes are only added, each node
/// evolves one way, and a child list that comes into being after `pre` only
/// ever holds indices that `pre` did not know.
pub open spec fn evolves(pre: Seq<NodeState>, post: Seq<NodeState>) -> bool {
    &&& pre.len() <= post.len()
    &&& forall|i: int| 0 <= i < pre.len() ==> node_evolves(#[trigger] pre[i], #[trigger] post[i])
    &&& forall|i: int|
        0 <= i < post.len() && !(i < pre.len() && pre[i] is Full) && (#[trigger] post[i]) is Full
            ==> forall|x: usize| post[i].children().contains(x) ==> x as int >= pre.len()
}

pub proof fn lemma_evolves_reflexive(s: Seq<NodeState>)
    ensures
        evolves(s, s),
{
}

pub proof fn lemma_evolves_transitive(s1: Seq<NodeState>, s2: Seq<NodeState>, s3: Seq<NodeState>)
    requires
        evolves(s1, s2),
        evolves(s2, s3),
    ensures
        evolves(s1, s3),
{
    assert forall|i: int| 0 <= i < s1.len() implies node_evolves(
        #[trigger] s1[i],
        #[trigger] s3[i],
    ) by {
        assert(node_evolves(s1[i], s2[i]));
        assert(node_evolves(s2[i], s3[i]));
        if s1[i] is Full && s3[i] is Full {
            assert(s2[i].rank() == 2);
        }
    }
    assert forall|i: int|
        0 <= i < s3.len() && !(i < s1.len() && s1[i] is Full) && (#[trigger] s3[i])
            is Full implies forall|x: usize|
        s3[i].children().contains(x) ==> x as int >= s1.len() by {
        if i < s2.len() && s2[i] is Full {
            assert(node_evolves(s2[i], s3[i]));
            assert forall|x: usize| s3[i].children().contains(x) implies x as int >= s1.len() by {
                assert(s2[i].children().contains(x));
            }
        }
    }
}

/// No duplicate dispatch: a listing task is dispatched for a path only
/// while the path is `Unvisited`, and once a path has left `Unvisited` it
/// never returns there.  So over the whole life of a walk at most one task
/// is ever dispatched per path.
pub proof fn lemma_no_duplicate_dispatch(pre: Seq<NodeState>, post: Seq<NodeState>, i: int)
    requires
        evolves(pre, post),
        0 <= i < pre.len(),
        !(pre[i] is Unvisited),
    ensures
        !(post[i] is Unvisited),
{
    assert(node_evolves(pre[i], post[i]));
}

/// Monotonic pruning, first half: once a path is `Empty` it stays `Empty`
/// forever, so it can never be re-submitted or re-resolved.
pub proof fn lemma_empty_is_terminal(pre: Seq<NodeState>, post: Seq<NodeState>, i: int)
    requires
        evolves(pre, post),
        0 <= i < pre.len(),
        pre[i] is Empty,
    ensures
        post[i] is Empty,
{
    assert(node_evolves(pre[i], post[i]));
}

/// Monotonic pruning, second half: an index that is out of a node's child
/// list (in particular one that was pruned from it) never reappears in
/// that list, nor in any other list, later on.
pub proof fn lemma_pruned_stays_pruned(pre: Seq<NodeState>, post: Seq<NodeState>, x: usize, j: int)
    requires
        evolves(pre, post),
        0 <= j < post.len(),
        (x as int) < pre.len(),
        !(j < pre.len() && pre[j] is Full && pre[j].children().contains(x)),
    ensures
        !(post[j] is Full && post[j].children().contains(x)),
{
    if post[j] is Full {
        if j < pre.len() && pre[j] is Full {
            assert(node_evolves(pre[j], post[j]));
        }
    }
}

/// The map from paths to node states.  Each known path is interned at a
/// fixed index; `paths` and `states` run in parallel.
pub struct NodeMap {
    pub states: Vec<NodeState>,
    pub paths: Vec<String>,
}

pub open spec fn child_in_range(c: usize, parent: int, len: int) -> bool {
    parent < c as int && (c as int) < len
}

/// A `Full` node's child list points strictly past its parent (children
/// are interned after the parent was) and into the map, without
/// duplicates.
pub open spec fn child_list_wf(cs: Seq<usize>, parent: int, len: int) -> bool {
    &&& forall|k: int| 0 <= k < cs.len() ==> child_in_range(#[trigger] cs[k], parent, len)
    &&& forall|k1: int, k2: int| 0 <= k1 < k2 < cs.len() ==> cs[k1] != cs[k2]
}

/// Every `Full` node of `s` has a well-formed child list.
pub open spec fn states_wf(s: Seq<NodeState>) -> bool {
    forall|i: int|
        0 <= i < s.len() && (#[trigger] s[i]) is Full ==> child_list_wf(
            s[i].children(),
            i,
            s.len() as int,
        )
}

proof fn lemma_states_wf_update(s: Seq<NodeState>, i: int, v: NodeState)
    requires
        states_wf(s),
        0 <= i < s.len(),
        v is Full ==> child_list_wf(v.children(), i, s.len() as int),
    ensures
        states_wf(s.update(i, v)),
{
    let t = s.update(i, v);
    assert forall|j: int| 0 <= j < t.len() && (#[trigger] t[j]) is Full implies child_list_wf(
        t[j].children(),
        j,
        t.len() as int,
    ) by {
        if j != i {
            assert(t[j] == s[j]);
        }
    }
}

proof fn lemma_states_wf_grow(s: Seq<NodeState>, t: Seq<NodeState>)
    requires
        states_wf(s),
        s.len() <= t.len(),
        forall|j: int| 0 <= j < s.len() ==> t[j] == s[j],
        forall|j: int| s.len() <= j < t.len() ==> !((#[trigger] t[j]) is Full),
    ensures
        states_wf(t),
{
    assert forall|j: int| 0 <= j < t.len() && (#[trigger] t[j]) is Full implies child_list_wf(
        t[j].children(),
        j,
        t.len() as int,
    ) by {
        assert(t[j] == s[j]);
        assert(child_list_wf(s[j].children(), j, s.len() as int));
        assert forall|k: int| 0 <= k < t[j].children().len() implies child_in_range(
            #[trigger] t[j].children()[k],
            j,
            t.len() as int,
        ) by {
            assert(child_in_range(s[j].children()[k], j, s.len() as int));
        }
    }
}

impl NodeMap {
    pub open spec fn wf(self) -> bool {
        &&& self.paths@.len() == self.states@.len()
        &&& states_wf(self.states@)
    }

    /// A fresh map knowing only the root path, about which nothing has
    /// been decided yet.
    pub fn new(root_path: String) -> (r: NodeMap)
        ensures
            r.wf(),
            r.states@.len() == 1,
            r.states@[0] is Unvisited,
            r.paths@[0] == root_path,
    {
        let mut states: Vec<NodeState> = Vec::new();
        let mut paths: Vec<String> = Vec::new();
        states.push(NodeState::Unvisited);
        paths.push(root_path);
        NodeMap { states, paths }
    }

    pub fn len(&self) -> (n: usize)
        ensures
            n == self.states@.len(),
    {
        self.states.len()
    }

    /// Look one path up; `Unvisited` stands for "no decision yet".
    pub fn lookup(&self, i: usize) -> (r: &NodeState)
        requires
            (i as int) < self.states@.len(),
        ensures
            *r == self.states@[i as int],
    {
        &self.states[i]
    }

    pub fn path_of(&self, i: usize) -> (r: &String)
        requires
            self.wf(),
            (i as int) < self.states@.len(),
        ensures
            *r == self.paths@[i as int],
    {
        &self.paths[i]
    }

    /// Record that a listing task was dispatched for path `i`.  Only an
    /// `Unvisited` path may be dispatched: this is what makes duplicate
    /// dispatch impossible.
    pub fn mark_pending(&mut self, i: usize)
        requires
            old(self).wf(),
            (i as int) < old(self).states@.len(),
            old(self).states@[i as int] is Unvisited,
        ensures
            final(self).wf(),
            final(self).states@ == old(self).states@.update(i as int, NodeState::Pending),
            final(self).paths@ == old(self).paths@,
            evolves(old(self).states@, final(self).states@),
    {
        proof {
            lemma_states_wf_update(self.states@, i as int, NodeState::Pending);
        }
        self.states.set(i, NodeState::Pending);
    }

    /// Error fallback: demote a `Pending` path whose listing failed to
    /// `Empty`, treating its subtree as exhausted.
    pub fn mark_empty(&mut self, i: usize)
        requires
            old(self).wf(),
            (i as int) < old(self).states@.len(),
            old(self).states@[i as int] is Pending,
        ensures
            final(self).wf(),
            final(self).states@ == old(self).states@.update(i as int, NodeState::Empty),
            final(self).paths@ == old(self).paths@,
            evolves(old(self).states@, final(self).states@),
            count_resolved(final(self).states@) == count_resolved(old(self).states@) + 1,
    {
        proof {
            lemma_states_wf_update(self.states@, i as int, NodeState::Empty);
            lemma_count_resolved_update(self.states@, i as int, NodeState::Empty);
        }
        self.states.set(i, NodeState::Empty);
    }

    /// A `Full` node whose child list has run empty is exhausted.
    pub fn exhaust(&mut self, i: usize)
        requires
            old(self).wf(),
            (i as int) < old(self).states@.len(),
            old(self).states@[i as int] is Full,
            old(self).states@[i as int].children().len() == 0,
        ensures
            final(self).wf(),
            final(self).states@ == old(self).states@.update(i as int, NodeState::Empty),
            final(self).paths@ == old(self).paths@,
            evolves(old(self).states@, final(self).states@),
    {
        proof {
            lemma_states_wf_update(self.states@, i as int, NodeState::Empty);
        }
        self.states.set(i, NodeState::Empty);
    }

    /// Apply a completed listing to `Pending` path `i`: with no directory
    /// children the path is exhausted at once; otherwise the children are
    /// interned (each `Unvisited`) and the path becomes `Full` of them.
    pub fn resolve(&mut self, i: usize, children: Vec<String>)
        requires
            old(self).wf(),
            (i as int) < old(self).states@.len(),
            old(self).states@[i as int] is Pending,
            old(self).states@.len() + children@.len() <= usize::MAX,
        ensures
            final(self).wf(),
            final(self).states@.len() == old(self).states@.len() + children@.len(),
            final(self).paths@ == old(self).paths@ + children@,
            forall|j: int|
                0 <= j < old(self).states@.len() && j != i ==> final(self).states@[j] == old(self).states@[j],
            children@.len() == 0 ==> final(self).states@[i as int] is Empty,
            children@.len() > 0 ==> final(self).states@[i as int] is Full
                && final(self).states@[i as int].children() == Seq::new(
                children@.len(),
                |m: int| (old(self).states@.len() + m) as usize,
            ),
            forall|m: int|
                old(self).states@.len() <= m < final(self).states@.len()
                    ==> (#[trigger] final(self).states@[m]) is Unvisited,
            evolves(old(self).states@, final(self).states@),
            count_resolved(final(self).states@) == count_resolved(old(self).states@) + 1,
    {
        let g = children.len();
        let base = self.states.len();
        let mut m: usize = 0;
        while m < g
            invariant
                g == children@.len(),
                base + g <= usize::MAX,
                m <= g,
                base == old(self).states@.len(),
                self.states@.len() == base + m,
                self.paths@.len() == old(self).paths@.len() + m,
                old(self).paths@.len() == base,
                forall|j: int| 0 <= j < base ==> self.states@[j] == old(self).states@[j],
                forall|j: int| 0 <= j < base ==> self.paths@[j] == old(self).paths@[j],
                forall|j: int| base <= j < base + m ==> !((#[trigger] self.states@[j]) is Full),
                forall|j: int| base <= j < base + m ==> self.states@[j] is Unvisited,
                forall|j: int| base <= j < base + m ==> self.paths@[j] == children@[j - base],
                count_resolved(self.states@) == count_resolved(old(self).states@),
            decreases g - m,
        {
            let p = children[m].clone();
            let ghost prev = self.states@;
            self.states.push(NodeState::Unvisited);
            self.paths.push(p);
            proof {
                lemma_count_resolved_push(prev, NodeState::Unvisited);
            }
            m += 1;
        }
        proof {
            lemma_states_wf_grow(old(self).states@, self.states@);
            assert(self.paths@ =~= old(self).paths@ + children@);
        }
        if g == 0 {
            proof {
                lemma_states_wf_update(self.states@, i as int, NodeState::Empty);
                lemma_count_resolved_update(self.states@, i as int, NodeState::Empty);
                assert(self.states@.update(i as int, NodeState::Empty).len() == base);
            }
            self.states.set(i, NodeState::Empty);
        } else {
            let mut ids: Vec<usize> = Vec::new();
            let mut k: usize = 0;
            while k < g
                invariant
                    g == children@.len(),
                    base + g <= usize::MAX,
                    k <= g,
                    ids@.len() == k,
                    forall|j: int| 0 <= j < k ==> ids@[j] == (base + j) as usize,
                decreases g - k,
            {
                ids.push(base + k);
                k += 1;
            }
            proof {
                assert(ids@ =~= Seq::new(children@.len(), |m: int| (base + m) as usize));
                let v = NodeState::Full(ids);
                assert forall|w: int| 0 <= w < v.children().len() implies child_in_range(
                    #[trigger] v.children()[w],
                    i as int,
                    self.states@.len() as int,
                ) by {
                    assert(v.children()[w] == (base + w) as usize);
                }
                lemma_states_wf_update(self.states@, i as int, v);
                lemma_count_resolved_update(self.states@, i as int, v);
            }
            self.states.set(i, NodeState::Full(ids));
        }
    }

    /// Remove the `k`-th entry of `Full` node `i`'s child list (used when
    /// the entry was found `Empty`); the order of the survivors may
    /// change.
    pub fn prune_child(&mut self, i: usize, k: usize)
        requires
            old(self).wf(),
            (i as int) < old(self).states@.len(),
            old(self).states@[i as int] is Full,
            (k as int) < old(self).states@[i as int].children().len(),
        ensures
            final(self).wf(),
            final(self).paths@ == old(self).paths@,
            final(self).states@.len() == old(self).states@.len(),
            forall|j: int|
                0 <= j < old(self).states@.len() && j != i ==> final(self).states@[j] == old(self).states@[j],
            final(self).states@[i as int] is Full,
            final(self).states@[i as int].children() == old(self).states@[i as int].children()
                .update(k as int, old(self).states@[i as int].children().last()).drop_last(),
            evolves(old(self).states@, final(self).states@),
    {
        let ghost a = old(self).states@[i as int].children();
        let mut taken = NodeState::Unvisited;
        self.states.set_and_swap(i, &mut taken);
        let mut cs = match taken {
            NodeState::Full(cs) => cs,
            _ => unreached(),
        };
        cs.swap_remove(k);
        proof {
            let b = cs@;
            assert(b == a.update(k as int, a.last()).drop_last());
            assert forall|x: usize| b.contains(x) implies a.contains(x) by {
                let w = choose|w: int| 0 <= w < b.len() && b[w] == x;
                if w == k as int {
                    assert(a[a.len() - 1] == x);
                } else {
                    assert(a[w] == x);
                }
            }
            let v = NodeState::Full(cs);
            let mid = self.states@;
            assert(mid == old(self).states@.update(i as int, NodeState::Unvisited));
            assert(child_list_wf(a, i as int, old(self).states@.len() as int));
            assert forall|w: int| 0 <= w < b.len() implies child_in_range(
                #[trigger] b[w],
                i as int,
                mid.len() as int,
            ) by {
                if w == k as int {
                    assert(b[w] == a[a.len() - 1]);
                    assert(child_in_range(a[a.len() - 1], i as int, mid.len() as int));
                } else {
                    assert(b[w] == a[w]);
                    assert(child_in_range(a[w], i as int, mid.len() as int));
                }
            }
            assert forall|w1: int, w2: int| 0 <= w1 < w2 < b.len() implies b[w1] != b[w2] by {
                let a1: int = if w1 == k as int {
                    a.len() - 1
                } else {
                    w1
                };
                let a2: int = if w2 == k as int {
                    a.len() - 1
                } else {
                    w2
                };
                assert(b[w1] == a[a1] && b[w2] == a[a2]);
            }
            lemma_states_wf_update(mid, i as int, v);
            assert(mid.update(i as int, v) =~= old(self).states@.update(i as int, v));
        }
        self.states.set(i, NodeState::Full(cs));
    }
}


/// Every node that is not yet exhausted hangs off some `Full` node's
/// child list (the root excepted): the walk can always reach it again.
/// Opaque: it is established and carried through the lemmas below.
#[verifier::opaque]
pub open spec fn connected(s: Seq<NodeState>) -> bool {
    forall|x: int|
        1 <= x < s.len() && !((#[trigger] s[x]) is Empty) ==> exists|j: int|
            0 <= j < s.len() && (#[trigger] s[j]) is Full && s[j].children().contains(x as usize)
}

/// Dispatching a task keeps the map connected: the path was already a
/// known, unexhausted node.
pub proof fn lemma_connected_mark_pending(s: Seq<NodeState>, i: int)
    requires
        connected(s),
        0 <= i < s.len(),
        s[i] is Unvisited,
    ensures
        connected(s.update(i, NodeState::Pending)),
{
    reveal(connected);
    let t = s.update(i, NodeState::Pending);
    assert forall|x: int| 1 <= x < t.len() && !((#[trigger] t[x]) is Empty) implies exists|j: int|
        0 <= j < t.len() && (#[trigger] t[j]) is Full && t[j].children().contains(x as usize) by {
        assert(!(s[x] is Empty));
        let j = choose|j: int|
            0 <= j < s.len() && (#[trigger] s[j]) is Full && s[j].children().contains(x as usize);
        assert(j != i);
        assert(t[j] is Full && t[j].children().contains(x as usize));
    }
}

/// Exhausting a node whose child list is empty keeps the map connected:
/// no unexhausted node was hanging off it.
pub proof fn lemma_connected_make_empty(s: Seq<NodeState>, i: int)
    requires
        connected(s),
        0 <= i < s.len(),
        s[i].children().len() == 0,
    ensures
        connected(s.update(i, NodeState::Empty)),
{
    reveal(connected);
    let t = s.update(i, NodeState::Empty);
    assert forall|x: int| 1 <= x < t.len() && !((#[trigger] t[x]) is Empty) implies exists|j: int|
        0 <= j < t.len() && (#[trigger] t[j]) is Full && t[j].children().contains(x as usize) by {
        assert(!(s[x] is Empty));
        let j = choose|j: int|
            0 <= j < s.len() && (#[trigger] s[j]) is Full && s[j].children().contains(x as usize);
        assert(j != i);
        assert(t[j] is Full && t[j].children().contains(x as usize));
    }
}

/// Applying a listing keeps the map connected: the freshly interned
/// children all hang off the newly `Full` node.
pub proof fn lemma_connected_resolve(s: Seq<NodeState>, t: Seq<NodeState>, i: int, g: nat)
    requires
        connected(s),
        0 <= i < s.len(),
        s[i] is Pending,
        t.len() == s.len() + g,
        forall|j: int| 0 <= j < s.len() && j != i ==> t[j] == s[j],
        g == 0 ==> t[i] is Empty,
        g > 0 ==> t[i] is Full && t[i].children() == Seq::new(g, |m: int| (s.len() + m) as usize),
        forall|m: int| s.len() <= m < t.len() ==> (#[trigger] t[m]) is Unvisited,
    ensures
        connected(t),
{
    reveal(connected);
    assert forall|x: int| 1 <= x < t.len() && !((#[trigger] t[x]) is Empty) implies exists|j: int|
        0 <= j < t.len() && (#[trigger] t[j]) is Full && t[j].children().contains(x as usize) by {
        if x < s.len() && x != i {
            assert(!(s[x] is Empty));
            let j = choose|j: int|
                0 <= j < s.len() && (#[trigger] s[j]) is Full && s[j].children().contains(
                    x as usize,
                );
            assert(j != i);
            assert(t[j] is Full && t[j].children().contains(x as usize));
        } else if x == i {
            assert(t[i] is Full);
            assert(!(s[x] is Empty));
            let j = choose|j: int|
                0 <= j < s.len() && (#[trigger] s[j]) is Full && s[j].children().contains(
                    x as usize,
                );
            assert(j != i);
            assert(t[j] is Full && t[j].children().contains(x as usize));
        } else {
            assert(t[i] is Full);
            assert(t[i].children()[x - s.len()] == x as usize);
            assert(t[i].children().contains(x as usize));
        }
    }
}

/// Pruning an exhausted child keeps the map connected: only an `Empty`
/// node leaves the list.
pub proof fn lemma_connected_prune(s: Seq<NodeState>, t: Seq<NodeState>, i: int, k: int)
    requires
        connected(s),
        0 <= i < s.len(),
        s[i] is Full,
        0 <= k < s[i].children().len(),
        s[s[i].children()[k] as int] is Empty,
        child_list_wf(s[i].children(), i, s.len() as int),
        s.len() <= usize::MAX,
        t.len() == s.len(),
        forall|j: int| 0 <= j < s.len() && j != i ==> t[j] == s[j],
        t[i] is Full,
        t[i].children() == s[i].children().update(k, s[i].children().last()).drop_last(),
    ensures
        connected(t),
{
    reveal(connected);
    let a = s[i].children();
    let b = t[i].children();
    assert forall|x: int| 1 <= x < t.len() && !((#[trigger] t[x]) is Empty) implies exists|j: int|
        0 <= j < t.len() && (#[trigger] t[j]) is Full && t[j].children().contains(x as usize) by {
        assert(!(s[x] is Empty));
        let j = choose|j: int|
            0 <= j < s.len() && (#[trigger] s[j]) is Full && s[j].children().contains(x as usize);
        if j != i {
            assert(t[j] is Full && t[j].children().contains(x as usize));
        } else {
            let w = choose|w: int| 0 <= w < a.len() && a[w] == x as usize;
            assert((x as usize) as int == x);
            assert(s[a[k] as int] is Empty);
            assert(a[w] as int == x);
            assert(a[w] != a[k]);
            assert(w != k);
            if w == a.len() - 1 {
                assert(k < a.len() - 1);
                assert(b[k] == x as usize);
            } else {
                assert(b[w] == x as usize);
            }
            assert(t[i].children().contains(x as usize));
        }
    }
}


/// When the map is connected and the root is exhausted, every node is:
/// an unexhausted node would hang off an unexhausted `Full` parent at a
/// strictly smaller index, and so on down to the root, which is
/// exhausted.
pub proof fn lemma_connected_root_empty_all_empty(s: Seq<NodeState>, x: int)
    requires
        connected(s),
        states_wf(s),
        1 <= s.len() <= usize::MAX,
        s[0] is Empty,
        0 <= x < s.len(),
    ensures
        s[x] is Empty,
    decreases x,
{
    reveal(connected);
    if x > 0 && !(s[x] is Empty) {
        let j = choose|j: int|
            0 <= j < s.len() && (#[trigger] s[j]) is Full && s[j].children().contains(x as usize);
        let w = choose|w: int| 0 <= w < s[j].children().len() && s[j].children()[w] == x as usize;
        assert(child_in_range(s[j].children()[w], j, s.len() as int));
        assert((x as usize) as int == x);
        assert(j < x);
        lemma_connected_root_empty_all_empty(s, j);
    }
}

} // verus!
