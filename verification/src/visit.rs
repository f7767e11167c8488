//! The visited table and the shared frontier-expansion step: scan a
//! neighbor list, mark each not-yet-visited position, and append it to the
//! frontier.  Marking happens at the moment a position enters the frontier,
//! so the frontier never holds a position twice.

use vstd::pervasive::VecAdditionalExecFns;
use vstd::prelude::*;

use crate::graph::Graph;
use crate::reach::{
    lemma_closed_contains_reachable, lemma_reachable_refl, lemma_reachable_step, reachable,
    reachable_within,
};

verus! {

/// Position `x` is marked in the visited table `vis`.
pub open spec fn visited_at(vis: Seq<bool>, x: usize) -> bool {
    x < vis.len() && vis[x as int]
}

/// The positions appended to the frontier when `nbrs` is scanned left to
/// right against the visited table `vis`: the first occurrence of each
/// in-range, not-yet-visited position, in scan order.
pub open spec fn discover(vis: Seq<bool>, nbrs: Seq<usize>) -> Seq<usize>
    decreases nbrs.len(),
{
    if nbrs.len() == 0 {
        Seq::empty()
    } else {
        let h = nbrs[0];
        if h < vis.len() && !vis[h as int] {
            seq![h] + discover(vis.update(h as int, true), nbrs.drop_first())
        } else {
            discover(vis, nbrs.drop_first())
        }
    }
}

/// The visited table after the same left-to-right scan of `nbrs`.
pub open spec fn mark(vis: Seq<bool>, nbrs: Seq<usize>) -> Seq<bool>
    decreases nbrs.len(),
{
    if nbrs.len() == 0 {
        vis
    } else {
        let h = nbrs[0];
        if h < vis.len() && !vis[h as int] {
            mark(vis.update(h as int, true), nbrs.drop_first())
        } else {
            mark(vis, nbrs.drop_first())
        }
    }
}

/// What one expansion step does: the table keeps its length and gains
/// exactly the discovered positions; the discovered positions are fresh,
/// pairwise distinct, and drawn from the neighbor list; and every in-range
/// neighbor ends up marked.
pub proof fn lemma_mark_discover(vis: Seq<bool>, nbrs: Seq<usize>)
    ensures
        mark(vis, nbrs).len() == vis.len(),
        forall|x: usize|
            #![trigger visited_at(mark(vis, nbrs), x)]
            #![trigger discover(vis, nbrs).contains(x)]
            visited_at(mark(vis, nbrs), x)
                <==> visited_at(vis, x) || discover(vis, nbrs).contains(x),
        discover(vis, nbrs).no_duplicates(),
        forall|x: usize| #[trigger] discover(vis, nbrs).contains(x)
            ==> !visited_at(vis, x) && nbrs.contains(x),
        forall|x: usize| #[trigger] nbrs.contains(x) && x < vis.len()
            ==> visited_at(mark(vis, nbrs), x),
    decreases nbrs.len(),
{
    if nbrs.len() == 0 {
    } else {
        let h = nbrs[0];
        let tail = nbrs.drop_first();
        assert(nbrs[0] == h);
        assert forall|x: usize| #[trigger] tail.contains(x) implies nbrs.contains(x) by {
            let i = choose|i: int| 0 <= i < tail.len() && tail[i] == x;
            assert(nbrs[i + 1] == x);
        }
        assert forall|x: usize| #[trigger] nbrs.contains(x) && x != h implies tail.contains(
            x,
        ) by {
            let i = choose|i: int| 0 <= i < nbrs.len() && nbrs[i] == x;
            assert(i != 0);
            assert(tail[i - 1] == x);
        }
        if h < vis.len() && !vis[h as int] {
            let vis2 = vis.update(h as int, true);
            lemma_mark_discover(vis2, tail);
            let d = discover(vis2, tail);
            assert(discover(vis, nbrs) == seq![h] + d);
            assert(mark(vis, nbrs) == mark(vis2, tail));
            assert forall|x: usize| #[trigger] (seq![h] + d).contains(x) implies x == h
                || d.contains(x) by {
                let i = choose|i: int| 0 <= i < (seq![h] + d).len() && (seq![h] + d)[i] == x;
                if i > 0 {
                    assert(d[i - 1] == x);
                }
            }
            assert forall|x: usize| x == h || d.contains(x) implies #[trigger] (seq![h]
                + d).contains(x) by {
                if x == h {
                    assert((seq![h] + d)[0] == x);
                } else {
                    let i = choose|i: int| 0 <= i < d.len() && d[i] == x;
                    assert((seq![h] + d)[i + 1] == x);
                }
            }
            assert(visited_at(vis2, h));
            assert(!d.contains(h));
            assert((seq![h] + d).no_duplicates()) by {
                assert forall|i: int, j: int|
                    0 <= i < (seq![h] + d).len() && 0 <= j < (seq![h] + d).len() && i
                        != j implies (seq![h] + d)[i] != (seq![h] + d)[j] by {
                    if i > 0 && j > 0 {
                        assert(d[i - 1] != d[j - 1]);
                    } else if i == 0 && j > 0 {
                        assert(d.contains(d[j - 1]));
                    } else if j == 0 && i > 0 {
                        assert(d.contains(d[i - 1]));
                    }
                }
            }
            assert forall|x: usize|
                visited_at(mark(vis, nbrs), x) implies visited_at(vis, x) || discover(
                vis,
                nbrs,
            ).contains(x) by {
                assert(visited_at(vis2, x) || d.contains(x));
            }
            assert forall|x: usize|
                visited_at(vis, x) || discover(vis, nbrs).contains(x) implies visited_at(
                mark(vis, nbrs),
                x,
            ) by {
                if visited_at(vis, x) {
                    assert(visited_at(vis2, x));
                } else {
                    assert(x == h || d.contains(x));
                    assert(visited_at(vis2, x) || d.contains(x));
                }
            }
            assert forall|x: usize| #[trigger] nbrs.contains(x) && x < vis.len() implies
                visited_at(mark(vis, nbrs), x) by {
                if x == h {
                    assert(visited_at(vis2, h));
                } else {
                    assert(tail.contains(x));
                }
            }
        } else {
            lemma_mark_discover(vis, tail);
            assert(discover(vis, nbrs) == discover(vis, tail));
            assert(mark(vis, nbrs) == mark(vis, tail));
            assert forall|x: usize| #[trigger] nbrs.contains(x) && x < vis.len() implies
                visited_at(mark(vis, nbrs), x) by {
                if x == h {
                    assert(visited_at(vis, h));
                } else {
                    assert(tail.contains(x));
                }
            }
        }
    }
}

/// Scans `nbrs` left to right; appends each in-range, not-yet-visited
/// position to `frontier` and marks it visited at that moment.
#[verifier::loop_isolation(false)]
pub(crate) fn push_unvisited(visited: &mut Vec<bool>, frontier: &mut Vec<usize>, nbrs: &Vec<usize>)
    requires
        forall|j: int| 0 <= j < nbrs@.len() ==> (#[trigger] nbrs@[j]) < old(visited)@.len(),
    ensures
        final(visited)@ == mark(old(visited)@, nbrs@),
        final(frontier)@ == old(frontier)@ + discover(old(visited)@, nbrs@),
{
    let ghost vis0 = visited@;
    let ghost fr0 = frontier@;
    proof {
        assert(nbrs@.skip(0) =~= nbrs@);
    }
    let n = nbrs.len();
    let mut j: usize = 0;
    while j < n
        invariant
            j <= n,
            visited@.len() == vis0.len(),
            mark(vis0, nbrs@) == mark(visited@, nbrs@.skip(j as int)),
            fr0 + discover(vis0, nbrs@) == frontier@ + discover(visited@, nbrs@.skip(j as int)),
        decreases n - j,
    {
        let ghost visj = visited@;
        let ghost frj = frontier@;
        proof {
            assert(nbrs@.skip(j as int)[0] == nbrs@[j as int]);
            assert(nbrs@.skip(j as int).drop_first() =~= nbrs@.skip(j as int + 1));
        }
        let v = nbrs[j];
        if !visited[v] {
            visited.set(v, true);
            frontier.push(v);
            proof {
                assert(discover(visj, nbrs@.skip(j as int)) == seq![v] + discover(
                    visited@,
                    nbrs@.skip(j as int + 1),
                ));
                assert(mark(visj, nbrs@.skip(j as int)) == mark(
                    visited@,
                    nbrs@.skip(j as int + 1),
                ));
                assert(frj + (seq![v] + discover(visited@, nbrs@.skip(j as int + 1))) =~= (frj
                    + seq![v]) + discover(visited@, nbrs@.skip(j as int + 1)));
            }
        } else {
            proof {
                assert(visited_at(visj, v));
                assert(discover(visj, nbrs@.skip(j as int)) == discover(
                    visj,
                    nbrs@.skip(j as int + 1),
                ));
                assert(mark(visj, nbrs@.skip(j as int)) == mark(visj, nbrs@.skip(j as int + 1)));
            }
        }
        j += 1;
    }
    proof {
        assert(nbrs@.skip(n as int) =~= Seq::<usize>::empty());
        assert(fr0 + discover(vis0, nbrs@) =~= frontier@);
    }
}

/// A copy of `src` in reverse order.
#[verifier::loop_isolation(false)]
pub(crate) fn reversed(src: &Vec<usize>) -> (r: Vec<usize>)
    ensures
        r@ == src@.reverse(),
{
    let n = src.len();
    let mut r: Vec<usize> = Vec::new();
    let mut j: usize = 0;
    while j < n
        invariant
            j <= n,
            r@.len() == j,
            forall|i: int| 0 <= i < j ==> r@[i] == src@[n - 1 - i],
        decreases n - j,
    {
        r.push(src[n - 1 - j]);
        j += 1;
    }
    proof {
        assert(r@ =~= src@.reverse());
    }
    r
}

/// Scanning a duplicate-free list of in-range, not-yet-visited positions
/// discovers the whole list unchanged.
pub proof fn lemma_discover_all_fresh(vis: Seq<bool>, l: Seq<usize>)
    requires
        l.no_duplicates(),
        forall|j: int|
            0 <= j < l.len() ==> (#[trigger] l[j]) < vis.len() && !visited_at(vis, l[j]),
    ensures
        discover(vis, l) == l,
    decreases l.len(),
{
    if l.len() == 0 {
        assert(discover(vis, l) =~= l);
    } else {
        let h = l[0];
        let vis2 = vis.update(h as int, true);
        let tail = l.drop_first();
        assert forall|j: int| 0 <= j < tail.len() implies (#[trigger] tail[j]) < vis2.len()
            && !visited_at(vis2, tail[j]) by {
            assert(tail[j] == l[j + 1]);
            assert(l[j + 1] != l[0]);
        }
        assert(tail.no_duplicates()) by {
            assert forall|i: int, j: int|
                0 <= i < tail.len() && 0 <= j < tail.len() && i != j implies tail[i] != tail[j] by {
                assert(tail[i] == l[i + 1] && tail[j] == l[j + 1]);
            }
        }
        lemma_discover_all_fresh(vis2, tail);
        assert(discover(vis, l) == seq![h] + tail);
        assert(seq![h] + tail =~= l);
    }
}

/// Concatenation holds a position exactly when one of its parts does.
pub proof fn lemma_concat_contains(a: Seq<usize>, b: Seq<usize>)
    ensures
        forall|x: usize| #[trigger] (a + b).contains(x) <==> a.contains(x) || b.contains(x),
{
    assert forall|x: usize| #[trigger] (a + b).contains(x) implies a.contains(x) || b.contains(
        x,
    ) by {
        let i = choose|i: int| 0 <= i < (a + b).len() && (a + b)[i] == x;
        if i < a.len() {
            assert(a[i] == x);
        } else {
            assert(b[i - a.len()] == x);
        }
    }
    assert forall|x: usize| a.contains(x) || b.contains(x) implies #[trigger] (a + b).contains(
        x,
    ) by {
        if a.contains(x) {
            let i = choose|i: int| 0 <= i < a.len() && a[i] == x;
            assert((a + b)[i] == x);
        } else {
            let i = choose|i: int| 0 <= i < b.len() && b[i] == x;
            assert((a + b)[a.len() + i] == x);
        }
    }
}

/// A push holds a position exactly when the sequence already did or it is
/// the pushed one.
pub proof fn lemma_push_contains(s: Seq<usize>, e: usize)
    ensures
        forall|x: usize| #[trigger] s.push(e).contains(x) <==> s.contains(x) || x == e,
{
    assert forall|x: usize| #[trigger] s.push(e).contains(x) implies s.contains(x) || x == e by {
        let i = choose|i: int| 0 <= i < s.push(e).len() && s.push(e)[i] == x;
        if i < s.len() {
            assert(s[i] == x);
        }
    }
    assert forall|x: usize| s.contains(x) || x == e implies #[trigger] s.push(e).contains(x) by {
        if x == e {
            assert(s.push(e)[s.len() as int] == x);
        } else {
            let i = choose|i: int| 0 <= i < s.len() && s[i] == x;
            assert(s.push(e)[i] == x);
        }
    }
}

/// Removing the element at `i` splits membership into that element and the
/// rest; on a duplicate-free sequence the rest stays duplicate-free and no
/// longer holds the removed element.
pub proof fn lemma_remove_at_contains(q: Seq<usize>, i: int)
    requires
        0 <= i < q.len(),
    ensures
        forall|x: usize| #[trigger] q.contains(x) <==> x == q[i] || q.remove(i).contains(x),
        q.no_duplicates() ==> q.remove(i).no_duplicates() && !q.remove(i).contains(q[i]),
{
    let r = q.remove(i);
    assert(r.len() == q.len() - 1);
    assert forall|j: int| 0 <= j < r.len() implies r[j] == (if j < i {
        q[j]
    } else {
        q[j + 1]
    }) by {}
    assert forall|x: usize| #[trigger] q.contains(x) implies x == q[i] || r.contains(x) by {
        let k = choose|k: int| 0 <= k < q.len() && q[k] == x;
        if k < i {
            assert(r[k] == x);
        } else if k > i {
            assert(r[k - 1] == x);
        }
    }
    assert forall|x: usize| x == q[i] || r.contains(x) implies #[trigger] q.contains(x) by {
        if x == q[i] {
        } else {
            let j = choose|j: int| 0 <= j < r.len() && r[j] == x;
            if j < i {
                assert(q[j] == x);
            } else {
                assert(q[j + 1] == x);
            }
        }
    }
    if q.no_duplicates() {
        assert forall|a: int, b: int|
            0 <= a < r.len() && 0 <= b < r.len() && a != b implies r[a] != r[b] by {
            let qa: int = if a < i { a } else { a + 1 };
            let qb: int = if b < i { b } else { b + 1 };
            assert(r[a] == q[qa] && r[b] == q[qb] && qa != qb);
        }
        assert forall|j: int| 0 <= j < r.len() implies r[j] != q[i] by {
            let qj: int = if j < i { j } else { j + 1 };
            assert(r[j] == q[qj] && qj != i);
        }
        assert(!r.contains(q[i]));
    }
}

/// The shared state invariant of a frontier-driven traversal, over the
/// graph, the start position, the visited table, the frontier contents and
/// the sequence of positions yielded so far.  It holds whatever structure
/// orders the frontier, because every variant marks a position visited at
/// the moment it enters the frontier.
pub open spec fn traversal_inv(
    g: Graph,
    start: usize,
    vis: Seq<bool>,
    frontier: Seq<usize>,
    yielded: Seq<usize>,
) -> bool {
    &&& g.wf()
    &&& vis.len() == g.node_count()
    &&& (start < g.node_count() ==> visited_at(vis, start))
    &&& frontier.no_duplicates()
    &&& yielded.no_duplicates()
    &&& (forall|x: usize|
        #![trigger yielded.contains(x)]
        #![trigger frontier.contains(x)]
        !(yielded.contains(x) && frontier.contains(x)))
    &&& (forall|x: usize| #[trigger]
        visited_at(vis, x) <==> yielded.contains(x) || frontier.contains(x))
    &&& (forall|x: usize| #[trigger]
        visited_at(vis, x) ==> start < g.node_count() && reachable(g, start, x))
    &&& (forall|u: usize, v: usize|
        yielded.contains(u) && #[trigger] g.edge(u, v) ==> visited_at(vis, v))
    &&& (yielded.len() > 0 ==> yielded[0] == start)
    &&& (yielded.len() == 0 && frontier.len() > 0 ==> frontier == seq![start])
}

/// A freshly constructed traversal satisfies the invariant: the visited
/// table marks exactly a valid start, and the frontier holds exactly that
/// start.
pub proof fn lemma_init_inv(g: Graph, start: usize, vis: Seq<bool>, frontier: Seq<usize>)
    requires
        g.wf(),
        vis.len() == g.node_count(),
        forall|i: int|
            0 <= i < vis.len() ==> ((#[trigger] vis[i]) <==> (start < g.node_count() && i
                == start)),
        start < g.node_count() ==> frontier == seq![start],
        !(start < g.node_count()) ==> frontier == Seq::<usize>::empty(),
    ensures
        traversal_inv(g, start, vis, frontier, Seq::<usize>::empty()),
{
    lemma_reachable_refl(g, start);
    assert(forall|x: usize| !(#[trigger] Seq::<usize>::empty().contains(x)));
    if start < g.node_count() {
        assert(frontier[0] == start);
        assert(frontier.contains(start));
        assert forall|x: usize| #[trigger] frontier.contains(x) implies x == start by {
            let i = choose|i: int| 0 <= i < frontier.len() && frontier[i] == x;
            assert(i == 0);
        }
        assert forall|x: usize| #[trigger] visited_at(vis, x) implies frontier.contains(x) by {
            assert(x == start);
        }
    } else {
        assert(forall|x: usize| !(#[trigger] frontier.contains(x)));
    }
}

/// One traversal step preserves the invariant: pop any frontier position
/// `p`, leaving `mid`; scan a list `nb` that names exactly the neighbors of
/// `p`; append what that scan discovers; yield `p`.
pub proof fn lemma_step_inv(
    g: Graph,
    start: usize,
    vis: Seq<bool>,
    frontier: Seq<usize>,
    yielded: Seq<usize>,
    p: usize,
    mid: Seq<usize>,
    nb: Seq<usize>,
)
    requires
        traversal_inv(g, start, vis, frontier, yielded),
        frontier.contains(p),
        mid.no_duplicates(),
        !mid.contains(p),
        forall|x: usize|
            #![trigger frontier.contains(x)]
            #![trigger mid.contains(x)]
            frontier.contains(x) <==> x == p || mid.contains(x),
        forall|x: usize| #[trigger] nb.contains(x) <==> g.edge(p, x),
    ensures
        traversal_inv(g, start, mark(vis, nb), mid + discover(vis, nb), yielded.push(p)),
{
    let visp = mark(vis, nb);
    let d = discover(vis, nb);
    let fr2 = mid + d;
    let y2 = yielded.push(p);
    lemma_mark_discover(vis, nb);
    lemma_concat_contains(mid, d);
    lemma_push_contains(yielded, p);
    assert(visited_at(vis, p));
    assert(start < g.node_count());
    assert(reachable(g, start, p));
    assert(!yielded.contains(p));
    assert forall|x: usize| #[trigger] nb.contains(x) implies x < vis.len() by {
        assert(g.edge(p, x));
        let i = choose|i: int|
            0 <= i < g.nodes@[p as int].neighbors@.len() && g.nodes@[p as int].neighbors@[i] == x;
        assert(g.nodes@[p as int].neighbors@[i] < g.nodes@.len());
    }
    assert forall|x: usize| #[trigger] d.contains(x) implies reachable(g, start, x)
        && !visited_at(vis, x) && x < vis.len() by {
        assert(nb.contains(x));
        assert(g.edge(p, x));
        lemma_reachable_step(g, start, p, x);
    }
    assert forall|j: int| 0 <= j < mid.len() implies visited_at(vis, #[trigger] mid[j]) by {
        assert(mid.contains(mid[j]));
        assert(frontier.contains(mid[j]));
    }
    assert(fr2.no_duplicates()) by {
        assert forall|a: int, b: int|
            0 <= a < fr2.len() && 0 <= b < fr2.len() && a != b implies fr2[a] != fr2[b] by {
            if a < mid.len() && b < mid.len() {
                assert(fr2[a] == mid[a] && fr2[b] == mid[b]);
            } else if a >= mid.len() && b >= mid.len() {
                assert(fr2[a] == d[a - mid.len()] && fr2[b] == d[b - mid.len()]);
            } else if a < mid.len() {
                assert(fr2[a] == mid[a] && fr2[b] == d[b - mid.len()]);
                assert(visited_at(vis, mid[a]));
                assert(d.contains(d[b - mid.len()]));
            } else {
                assert(fr2[b] == mid[b] && fr2[a] == d[a - mid.len()]);
                assert(visited_at(vis, mid[b]));
                assert(d.contains(d[a - mid.len()]));
            }
        }
    }
    assert(y2.no_duplicates()) by {
        assert forall|a: int, b: int|
            0 <= a < y2.len() && 0 <= b < y2.len() && a != b implies y2[a] != y2[b] by {
            if a < yielded.len() && b < yielded.len() {
                assert(y2[a] == yielded[a] && y2[b] == yielded[b]);
            } else if a < yielded.len() {
                assert(y2[a] == yielded[a] && y2[b] == p);
                assert(yielded.contains(yielded[a]));
            } else {
                assert(y2[b] == yielded[b] && y2[a] == p);
                assert(yielded.contains(yielded[b]));
            }
        }
    }
    assert forall|x: usize| !(#[trigger] y2.contains(x) && fr2.contains(x)) by {
        if y2.contains(x) && fr2.contains(x) {
            if mid.contains(x) {
                assert(frontier.contains(x));
                if yielded.contains(x) {
                } else {
                    assert(x == p);
                }
            } else {
                assert(d.contains(x));
                assert(!visited_at(vis, x));
                if yielded.contains(x) {
                    assert(visited_at(vis, x));
                } else {
                    assert(x == p);
                    assert(visited_at(vis, p));
                }
            }
        }
    }
    assert forall|x: usize| #[trigger] visited_at(visp, x) implies y2.contains(x) || fr2.contains(
        x,
    ) by {
        assert(visited_at(vis, x) || d.contains(x));
        if visited_at(vis, x) {
            assert(yielded.contains(x) || frontier.contains(x));
        }
    }
    assert forall|x: usize| y2.contains(x) || fr2.contains(x) implies #[trigger] visited_at(
        visp,
        x,
    ) by {
        if y2.contains(x) {
            if yielded.contains(x) {
                assert(visited_at(vis, x));
            } else {
                assert(x == p);
                assert(visited_at(vis, p));
            }
        } else {
            assert(mid.contains(x) || d.contains(x));
            if mid.contains(x) {
                assert(frontier.contains(x));
                assert(visited_at(vis, x));
            }
        }
    }
    assert forall|x: usize| #[trigger] visited_at(visp, x) implies start < g.node_count()
        && reachable(g, start, x) by {
        assert(visited_at(vis, x) || d.contains(x));
    }
    assert forall|u: usize, v: usize|
        y2.contains(u) && #[trigger] g.edge(u, v) implies visited_at(visp, v) by {
        if yielded.contains(u) {
            assert(visited_at(vis, v));
        } else {
            assert(u == p);
            assert(nb.contains(v));
            assert(v < vis.len());
        }
    }
    assert(y2[0] == start) by {
        if yielded.len() > 0 {
            assert(y2[0] == yielded[0]);
        } else {
            assert(frontier == seq![start]);
            let i = choose|i: int| 0 <= i < frontier.len() && frontier[i] == p;
            assert(i == 0 && frontier[0] == start);
            assert(y2[0] == p);
        }
    }
}

/// Law: when the frontier has run empty, the positions yielded from a valid
/// start are exactly the positions reachable from it, each exactly once.
pub proof fn lemma_exhausted_complete(g: Graph, start: usize, vis: Seq<bool>, yielded: Seq<usize>)
    requires
        traversal_inv(g, start, vis, Seq::<usize>::empty(), yielded),
        start < g.node_count(),
    ensures
        forall|t: usize| #[trigger] yielded.contains(t) <==> reachable(g, start, t),
        yielded.no_duplicates(),
{
    let s = Set::<usize>::new(|x: usize| yielded.contains(x));
    assert(visited_at(vis, start));
    assert(Seq::<usize>::empty().contains(start) == false);
    assert(yielded.contains(start));
    assert(s.contains(start));
    assert forall|u: usize, v: usize| s.contains(u) && #[trigger] g.edge(u, v) implies s.contains(
        v,
    ) by {
        assert(yielded.contains(u));
        assert(visited_at(vis, v));
        assert(yielded.contains(v) || Seq::<usize>::empty().contains(v));
    }
    assert forall|t: usize| reachable(g, start, t) implies #[trigger] yielded.contains(t) by {
        let k = choose|k: nat| reachable_within(g, start, t, k);
        lemma_closed_contains_reachable(g, start, s, t, k);
        assert(s.contains(t));
    }
    assert forall|t: usize| #[trigger] yielded.contains(t) implies reachable(g, start, t) by {
        assert(visited_at(vis, t));
    }
}

/// Builds the visited table and one-element (or empty) frontier that every
/// traversal variant starts from: a valid start is marked visited at the
/// moment it enters the frontier.
#[verifier::loop_isolation(false)]
pub(crate) fn initial_state(graph: &Graph, start: usize) -> (r: (Vec<bool>, Vec<usize>))
    requires
        graph.wf(),
    ensures
        traversal_inv(*graph, start, r.0@, r.1@, Seq::<usize>::empty()),
        start < graph.node_count() ==> r.1@ == seq![start],
        start >= graph.node_count() ==> r.1@ == Seq::<usize>::empty(),
{
    let n = graph.nodes.len();
    let mut visited: Vec<bool> = Vec::new();
    let mut i: usize = 0;
    while i < n
        invariant
            i <= n,
            visited@.len() == i,
            forall|k: int| 0 <= k < i ==> !(#[trigger] visited@[k]),
        decreases n - i,
    {
        visited.push(false);
        i += 1;
    }
    let mut frontier: Vec<usize> = Vec::new();
    if start < n {
        visited.set(start, true);
        frontier.push(start);
    }
    proof {
        if start < n {
            assert(frontier@ =~= seq![start]);
        } else {
            assert(frontier@ =~= Seq::<usize>::empty());
        }
        lemma_init_inv(*graph, start, visited@, frontier@);
    }
    (visited, frontier)
}

/// A sequence and its reverse hold the same positions.
pub proof fn lemma_reverse_contains(s: Seq<usize>)
    ensures
        forall|x: usize| #[trigger] s.reverse().contains(x) <==> s.contains(x),
{
    assert forall|x: usize| #[trigger] s.reverse().contains(x) implies s.contains(x) by {
        let i = choose|i: int| 0 <= i < s.reverse().len() && s.reverse()[i] == x;
        assert(s[s.len() - 1 - i] == x);
    }
    assert forall|x: usize| s.contains(x) implies #[trigger] s.reverse().contains(x) by {
        let i = choose|i: int| 0 <= i < s.len() && s[i] == x;
        assert(s.reverse()[s.len() - 1 - i] == x);
    }
}

} // verus!
