//! Depth-first traversal: a LIFO frontier yields each subtree before the
//! next sibling.  Neighbors are pushed in reverse list order so that the
//! stack pops them in their left-to-right list order.

use vstd::prelude::*;

use crate::graph::Graph;
use crate::reach::{
    dist, lemma_dist_lt_count, lemma_dist_self, lemma_reachable_step, reachable,
};
use crate::visit::{
    discover, initial_state, lemma_discover_all_fresh, lemma_exhausted_complete,
    lemma_mark_discover, lemma_push_contains, lemma_remove_at_contains, lemma_reverse_contains,
    lemma_step_inv, mark, push_unvisited, reversed, traversal_inv, visited_at,
};

verus! {

/// The reachable part of the graph is a tree rooted at `s`: every edge
/// from a reachable node leads exactly one layer further out (so there is
/// no back, cross or forward edge), no reachable node has two parents, and
/// no neighbor list repeats a child.
pub open spec fn tree_from(g: Graph, s: usize) -> bool {
    &&& s < g.node_count()
    &&& (forall|u: usize, c: usize|
        reachable(g, s, u) && #[trigger] g.edge(u, c) ==> dist(g, s, c) == dist(g, s, u) + 1)
    &&& (forall|u: usize, w: usize, c: usize|
        reachable(g, s, u) && reachable(g, s, w) && #[trigger] g.edge(u, c)
            && #[trigger] g.edge(w, c) ==> u == w)
    &&& (forall|u: usize| #[trigger]
        reachable(g, s, u) ==> g.nodes@[u as int].neighbors@.no_duplicates())
}

/// The preorder walk of the subtree rooted at `u`: the node itself, then
/// each child's subtree, in neighbor-list order.  `fuel` bounds the
/// recursion depth; a subtree is reproduced whole once `fuel` exceeds its
/// depth.
pub open spec fn preorder_node(g: Graph, u: usize, fuel: nat) -> Seq<usize>
    decreases fuel, 0int,
{
    if fuel == 0 {
        seq![u]
    } else {
        seq![u] + preorder_list(g, g.nodes@[u as int].neighbors@, (fuel - 1) as nat)
    }
}

/// The concatenated preorder walks of the subtrees rooted at `cs`, left to
/// right, all under one depth bound.
pub open spec fn preorder_list(g: Graph, cs: Seq<usize>, fuel: nat) -> Seq<usize>
    decreases fuel, cs.len() + 1,
{
    if cs.len() == 0 {
        Seq::empty()
    } else {
        preorder_node(g, cs[0], fuel) + preorder_list(g, cs.drop_first(), fuel)
    }
}

/// The traversal's outstanding work: the preorder walk still owed for each
/// pending position, nearest the stack top first, each with the depth
/// budget its layer leaves.
pub open spec fn pending(g: Graph, s: usize, rest: Seq<usize>) -> Seq<usize>
    decreases rest.len(),
{
    if rest.len() == 0 {
        Seq::empty()
    } else {
        preorder_node(g, rest[0], (g.node_count() - dist(g, s, rest[0])) as nat) + pending(
            g,
            s,
            rest.drop_first(),
        )
    }
}

/// The preorder discipline of depth-first search on a tree: what has been
/// yielded, followed by the outstanding subtree walks, is the preorder
/// walk of the whole tree; and the parent of every visited non-root has
/// already been yielded.
pub open spec fn preorder_inv(
    g: Graph,
    s: usize,
    vis: Seq<bool>,
    stack: Seq<usize>,
    y: Seq<usize>,
) -> bool {
    &&& y + pending(g, s, stack.reverse()) == preorder_node(g, s, g.node_count())
    &&& (forall|u: usize, c: usize|
        visited_at(vis, c) && c != s && reachable(g, s, u) && #[trigger] g.edge(u, c)
            ==> y.contains(u))
}

/// Outstanding walks concatenate segment by segment.
proof fn lemma_pending_concat(g: Graph, s: usize, a: Seq<usize>, b: Seq<usize>)
    ensures
        pending(g, s, a + b) == pending(g, s, a) + pending(g, s, b),
    decreases a.len(),
{
    if a.len() == 0 {
        assert(a + b =~= b);
        assert(pending(g, s, a) + pending(g, s, b) =~= pending(g, s, b));
    } else {
        assert((a + b)[0] == a[0]);
        assert((a + b).drop_first() =~= a.drop_first() + b);
        lemma_pending_concat(g, s, a.drop_first(), b);
        let h = preorder_node(g, a[0], (g.node_count() - dist(g, s, a[0])) as nat);
        assert(pending(g, s, a + b) == h + (pending(g, s, a.drop_first()) + pending(g, s, b)));
        assert(h + (pending(g, s, a.drop_first()) + pending(g, s, b)) =~= (h + pending(
            g,
            s,
            a.drop_first(),
        )) + pending(g, s, b));
    }
}

/// When every root in `cs` sits on one layer, the outstanding walks form
/// one uniform-depth preorder list.
proof fn lemma_pending_uniform(g: Graph, s: usize, cs: Seq<usize>, fuel: nat)
    requires
        forall|j: int|
            0 <= j < cs.len() ==> dist(g, s, #[trigger] cs[j]) < g.node_count() && g.node_count()
                - dist(g, s, cs[j]) == fuel,
    ensures
        pending(g, s, cs) == preorder_list(g, cs, fuel),
    decreases cs.len(),
{
    if cs.len() == 0 {
        assert(pending(g, s, cs) =~= preorder_list(g, cs, fuel));
    } else {
        assert forall|j: int|
            0 <= j < cs.drop_first().len() implies dist(g, s, #[trigger] cs.drop_first()[j])
            < g.node_count() && g.node_count() - dist(g, s, cs.drop_first()[j]) == fuel by {
            assert(cs.drop_first()[j] == cs[j + 1]);
        }
        lemma_pending_uniform(g, s, cs.drop_first(), fuel);
    }
}

/// One depth-first step keeps the preorder discipline on a tree: the
/// popped position's children are all fresh, so their whole subtrees
/// replace it at the head of the outstanding work.
#[verifier::rlimit(60)]
proof fn lemma_step_preorder(
    g: Graph,
    start: usize,
    vis: Seq<bool>,
    stack: Seq<usize>,
    y: Seq<usize>,
    p: usize,
)
    requires
        traversal_inv(g, start, vis, stack, y),
        tree_from(g, start),
        preorder_inv(g, start, vis, stack, y),
        stack.len() > 0,
        p == stack.last(),
    ensures
        preorder_inv(
            g,
            start,
            mark(vis, g.nodes@[p as int].neighbors@.reverse()),
            stack.drop_last() + discover(vis, g.nodes@[p as int].neighbors@.reverse()),
            y.push(p),
        ),
{
    let nb = g.nodes@[p as int].neighbors@;
    let nbrev = nb.reverse();
    let y2 = y.push(p);
    lemma_push_contains(y, p);
    lemma_reverse_contains(nb);
    assert(stack.contains(p));
    assert(visited_at(vis, p));
    assert(reachable(g, start, p));
    lemma_dist_self(g, start);
    lemma_dist_lt_count(g, start, p);
    let dp = dist(g, start, p);
    let fp = (g.node_count() - dp) as nat;
    assert forall|j: int| 0 <= j < nb.len() implies g.edge(p, #[trigger] nb[j]) by {
        assert(g.nodes@[p as int].neighbors@[j] == nb[j]);
    }
    assert forall|j: int| 0 <= j < nb.len() implies (#[trigger] nb[j]) < vis.len()
        && !visited_at(vis, nb[j]) by {
        let c = nb[j];
        assert(g.edge(p, c));
        assert(g.nodes@[p as int].neighbors@[j] < g.nodes@.len());
        assert(dist(g, start, c) == dp + 1);
        if visited_at(vis, c) {
            assert(c != start);
            assert(y.contains(p));
            assert(!(y.contains(p) && stack.contains(p)));
            assert(false);
        }
    }
    assert(nb.no_duplicates());
    assert(nbrev.no_duplicates()) by {
        assert forall|i: int, j: int|
            0 <= i < nbrev.len() && 0 <= j < nbrev.len() && i != j implies nbrev[i] != nbrev[j] by {
            assert(nbrev[i] == nb[nb.len() - 1 - i] && nbrev[j] == nb[nb.len() - 1 - j]);
        }
    }
    assert forall|j: int| 0 <= j < nbrev.len() implies (#[trigger] nbrev[j]) < vis.len()
        && !visited_at(vis, nbrev[j]) by {
        assert(nbrev[j] == nb[nb.len() - 1 - j]);
    }
    lemma_discover_all_fresh(vis, nbrev);
    assert(discover(vis, nbrev) == nbrev);
    let rest_rev = stack.drop_last().reverse();
    let stack2 = stack.drop_last() + nbrev;
    assert(stack.reverse() =~= seq![p] + rest_rev) by {
        assert forall|i: int| 0 <= i < stack.len() implies stack.reverse()[i] == (seq![p]
            + rest_rev)[i] by {
            if i > 0 {
                assert(rest_rev[i - 1] == stack.drop_last()[stack.len() - 1 - i]);
            }
        }
    }
    assert(stack2.reverse() =~= nb + rest_rev) by {
        assert forall|i: int| 0 <= i < stack2.len() implies stack2.reverse()[i] == (nb
            + rest_rev)[i] by {
            if i < nb.len() {
                assert(stack2[stack2.len() - 1 - i] == nbrev[nb.len() - 1 - i]);
                assert(nbrev[nb.len() - 1 - i] == nb[i]);
            } else {
                assert(stack2[stack2.len() - 1 - i] == stack.drop_last()[stack2.len() - 1 - i]);
                assert(rest_rev[i - nb.len()] == stack.drop_last()[stack.len() - 2 - (i
                    - nb.len())]);
            }
        }
    }
    // the popped subtree unfolds into the node and its children's subtrees
    assert(fp >= 1);
    assert(preorder_node(g, p, fp) == seq![p] + preorder_list(g, nb, (fp - 1) as nat));
    assert forall|j: int| 0 <= j < nb.len() implies dist(g, start, #[trigger] nb[j])
        < g.node_count() && g.node_count() - dist(g, start, nb[j]) == (fp - 1) as nat by {
        let c = nb[j];
        assert(g.edge(p, c));
        lemma_reachable_step(g, start, p, c);
        lemma_dist_lt_count(g, start, c);
        assert(dist(g, start, c) == dp + 1);
    }
    lemma_pending_uniform(g, start, nb, (fp - 1) as nat);
    lemma_pending_concat(g, start, seq![p], rest_rev);
    lemma_pending_concat(g, start, nb, rest_rev);
    assert(pending(g, start, seq![p]) =~= preorder_node(g, p, fp)) by {
        assert(seq![p].drop_first() =~= Seq::<usize>::empty());
        assert(pending(g, start, Seq::<usize>::empty()) =~= Seq::<usize>::empty());
        assert(preorder_node(g, p, fp) + Seq::<usize>::empty() =~= preorder_node(g, p, fp));
    }
    let plist = preorder_list(g, nb, (fp - 1) as nat);
    let tail = pending(g, start, rest_rev);
    assert(pending(g, start, stack.reverse()) == preorder_node(g, p, fp) + tail);
    assert(pending(g, start, stack2.reverse()) == plist + tail);
    assert(y2 =~= y + seq![p]);
    assert(y2 + (plist + tail) =~= y + ((seq![p] + plist) + tail)) by {
        assert((y + seq![p]) + (plist + tail) =~= y + ((seq![p] + plist) + tail));
    }
    assert(y + (preorder_node(g, p, fp) + tail) == y + pending(g, start, stack.reverse()));
    assert(y2 + pending(g, start, stack2.reverse()) == preorder_node(g, start, g.node_count()));
    // the parent of every newly visited node is the popped position
    lemma_mark_discover(vis, nbrev);
    assert forall|u: usize, c: usize|
        visited_at(mark(vis, nbrev), c) && c != start && reachable(g, start, u)
            && #[trigger] g.edge(u, c) implies y2.contains(u) by {
        if visited_at(vis, c) {
            assert(y.contains(u));
        } else {
            assert(discover(vis, nbrev).contains(c));
            assert(nbrev.contains(c));
            assert(nb.contains(c));
            assert(g.edge(p, c));
            assert(u == p);
        }
    }
}

/// A pull-based depth-first cursor over the nodes reachable from a start
/// position.  The traversal borrows the graph and owns its frontier stack
/// and visited table; a position is marked visited when it enters the
/// stack, so each reachable node is yielded exactly once.
pub struct DfsIterator<'a> {
    pub graph: &'a Graph,
    pub stack: Vec<usize>,
    pub visited: Vec<bool>,
    pub start: Ghost<usize>,
    pub yielded: Ghost<Seq<usize>>,
}

impl<'a> DfsIterator<'a> {
    /// The cursor's invariant, established by `new` and kept by `next`.
    pub open spec fn wf(self) -> bool {
        &&& traversal_inv(*self.graph, self.start@, self.visited@, self.stack@, self.yielded@)
        &&& (tree_from(*self.graph, self.start@) ==> preorder_inv(
            *self.graph,
            self.start@,
            self.visited@,
            self.stack@,
            self.yielded@,
        ))
    }

    /// Starts a depth-first traversal at `start`.  An in-range start makes
    /// a one-element frontier; an out-of-range start makes an empty,
    /// already exhausted traversal.
    pub fn new(graph: &'a Graph, start: usize) -> (it: Self)
        requires
            graph.wf(),
        ensures
            it.wf(),
            it.graph == graph,
            it.start@ == start,
            it.yielded@ == Seq::<usize>::empty(),
            start < graph.node_count() ==> it.stack@ == seq![start],
            start >= graph.node_count() ==> it.stack@ == Seq::<usize>::empty(),
    {
        let (visited, stack) = initial_state(graph, start);
        proof {
            if tree_from(*graph, start) {
                lemma_dist_self(*graph, start);
                assert(stack@ == seq![start]);
                assert(stack@.reverse() =~= seq![start]);
                assert(seq![start].drop_first() =~= Seq::<usize>::empty());
                assert(pending(*graph, start, Seq::<usize>::empty()) =~= Seq::<usize>::empty());
                assert(((graph.node_count() - dist(*graph, start, start)) as nat)
                    == graph.node_count()) by {
                    assert(dist(*graph, start, start) == 0);
                }
                assert(Seq::<usize>::empty() + pending(*graph, start, stack@.reverse())
                    =~= pending(*graph, start, stack@.reverse()));
                assert(pending(*graph, start, seq![start]) =~= preorder_node(
                    *graph,
                    start,
                    graph.node_count(),
                ));
                assert forall|u: usize, c: usize|
                    visited_at(visited@, c) && c != start && reachable(*graph, start, u)
                        && #[trigger] (*graph).edge(u, c) implies Seq::<usize>::empty().contains(
                    u,
                ) by {
                    assert(Seq::<usize>::empty().contains(c) || stack@.contains(c));
                    let i = choose|i: int| 0 <= i < stack@.len() && stack@[i] == c;
                    assert(c == start);
                }
            }
        }
        DfsIterator { graph, stack, visited, start: Ghost(start), yielded: Ghost(Seq::empty()) }
    }

    /// Advances the traversal: yields the position of the next node in
    /// depth-first order, or `None` once the stack is exhausted.  The
    /// yielded position is the stack's top; its not-yet-visited neighbors
    /// are marked and pushed in reverse neighbor-list order, so the first
    /// neighbor is visited first.
    pub fn next(&mut self) -> (r: Option<usize>)
        requires
            old(self).wf(),
        ensures
            final(self).wf(),
            final(self).graph == old(self).graph,
            final(self).start == old(self).start,
            r is None <==> old(self).stack@.len() == 0,
            r is None ==> final(self).stack@ == old(self).stack@ && final(self).visited@ == old(
                self,
            ).visited@ && final(self).yielded@ == old(self).yielded@,
            r matches Some(p) ==> p == old(self).stack@.last() && p < old(self).graph.node_count()
                && final(self).yielded@ == old(self).yielded@.push(p) && final(self).stack@ == old(
                self,
            ).stack@.drop_last() + discover(
                old(self).visited@,
                old(self).graph.nodes@[p as int].neighbors@.reverse(),
            ) && final(self).visited@ == mark(
                old(self).visited@,
                old(self).graph.nodes@[p as int].neighbors@.reverse(),
            ),
    {
        if self.stack.len() == 0 {
            return None;
        }
        let top = self.stack.len() - 1;
        let p = self.stack.remove(top);
        proof {
            assert(old(self).stack@.contains(p));
            assert(visited_at(old(self).visited@, p));
        }
        let g: &Graph = self.graph;
        let node = &g.nodes[p];
        let rev = reversed(&node.neighbors);
        proof {
            assert forall|j: int| 0 <= j < rev@.len() implies (#[trigger] rev@[j])
                < self.visited@.len() by {
                let nb = g.nodes@[p as int].neighbors@;
                assert(rev@[j] == nb[nb.len() - 1 - j]);
                assert(nb[nb.len() - 1 - j] < g.nodes@.len());
            }
        }
        push_unvisited(&mut self.visited, &mut self.stack, &rev);
        self.yielded = Ghost(self.yielded@.push(p));
        proof {
            let q = old(self).stack@;
            let nb = g.nodes@[p as int].neighbors@;
            lemma_remove_at_contains(q, q.len() - 1);
            assert(q.drop_last() =~= q.remove(q.len() - 1));
            lemma_reverse_contains(nb);
            assert forall|x: usize| #[trigger] nb.reverse().contains(x) <==> g.edge(p, x) by {}
            if tree_from(*g, self.start@) {
                lemma_step_preorder(*g, self.start@, old(self).visited@, q, old(self).yielded@, p);
            }
            lemma_step_inv(
                *g,
                self.start@,
                old(self).visited@,
                q,
                old(self).yielded@,
                p,
                q.drop_last(),
                nb.reverse(),
            );
        }
        Some(p)
    }

    /// Law: at every stage the yielded positions are pairwise distinct and
    /// all reachable from the start.
    pub proof fn lemma_yields_sound(self)
        requires
            self.wf(),
        ensures
            self.yielded@.no_duplicates(),
            forall|j: int|
                0 <= j < self.yielded@.len() ==> reachable(
                    *self.graph,
                    self.start@,
                    #[trigger] self.yielded@[j],
                ),
    {
        assert forall|j: int| 0 <= j < self.yielded@.len() implies reachable(
            *self.graph,
            self.start@,
            self.yielded@[j],
        ) by {
            assert(self.yielded@.contains(self.yielded@[j]));
            assert(visited_at(self.visited@, self.yielded@[j]));
        }
    }

    /// Law: on a tree, the exhausted traversal is exactly the preorder
    /// walk of the whole tree: the root first, then each child's subtree
    /// whole, in neighbor-list order, before the next sibling.
    pub proof fn lemma_tree_preorder(self)
        requires
            self.wf(),
            tree_from(*self.graph, self.start@),
            self.stack@.len() == 0,
        ensures
            self.yielded@ == preorder_node(*self.graph, self.start@, self.graph.node_count()),
    {
        assert(self.stack@.reverse() =~= Seq::<usize>::empty());
        assert(pending(*self.graph, self.start@, self.stack@.reverse())
            =~= Seq::<usize>::empty());
        assert(self.yielded@ + Seq::<usize>::empty() =~= self.yielded@);
    }

    /// Law: whatever has been yielded, the start node came first.
    pub proof fn lemma_start_first(self)
        requires
            self.wf(),
            self.yielded@.len() > 0,
        ensures
            self.yielded@[0] == self.start@,
    {
    }

    /// Law: once the stack has run empty, the traversal has yielded every
    /// position reachable from a valid start, each exactly once, and
    /// nothing else.
    pub proof fn lemma_exhausted_yields_reachable(self)
        requires
            self.wf(),
            self.stack@.len() == 0,
            self.start@ < self.graph.node_count(),
        ensures
            forall|t: usize| #[trigger]
                self.yielded@.contains(t) <==> reachable(*self.graph, self.start@, t),
            self.yielded@.no_duplicates(),
    {
        assert(self.stack@ =~= Seq::<usize>::empty());
        lemma_exhausted_complete(*self.graph, self.start@, self.visited@, self.yielded@);
    }
}

} // verus!
