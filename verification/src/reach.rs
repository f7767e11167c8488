//! Reachability: which nodes can be found from a start position by
//! following zero or more neighbor edges.

use vstd::prelude::*;

use crate::graph::Graph;

verus! {

/// Some chain of at most `k` edges leads from `s` to `t`.
pub open spec fn reachable_within(g: Graph, s: usize, t: usize, k: nat) -> bool
    decreases k,
{
    t == s || (k > 0 && exists|m: usize|
        reachable_within(g, s, m, (k - 1) as nat) && #[trigger] g.edge(m, t))
}

/// `t` can be reached from `s` by following zero or more neighbor edges.
pub open spec fn reachable(g: Graph, s: usize, t: usize) -> bool {
    exists|k: nat| reachable_within(g, s, t, k)
}

/// Every position reaches itself.
pub proof fn lemma_reachable_refl(g: Graph, s: usize)
    ensures
        reachable(g, s, s),
{
    assert(reachable_within(g, s, s, 0));
}

/// Reachability extends along one more edge.
pub proof fn lemma_reachable_step(g: Graph, s: usize, u: usize, v: usize)
    requires
        reachable(g, s, u),
        g.edge(u, v),
    ensures
        reachable(g, s, v),
{
    let k = choose|k: nat| reachable_within(g, s, u, k);
    assert(reachable_within(g, s, v, k + 1));
}

/// Allowing more steps never loses reachability.
pub proof fn lemma_reachable_within_widen(g: Graph, s: usize, t: usize, k1: nat, k2: nat)
    requires
        reachable_within(g, s, t, k1),
        k1 <= k2,
    ensures
        reachable_within(g, s, t, k2),
    decreases k2,
{
    if t != s {
        let m = choose|m: usize|
            reachable_within(g, s, m, (k1 - 1) as nat) && #[trigger] g.edge(m, t);
        lemma_reachable_within_widen(g, s, m, (k1 - 1) as nat, (k2 - 1) as nat);
        assert(reachable_within(g, s, t, k2));
    }
}

/// `k` is the length of a shortest edge chain from `s` to `t`.
pub open spec fn is_dist(g: Graph, s: usize, t: usize, k: nat) -> bool {
    reachable_within(g, s, t, k) && (k == 0 || !reachable_within(g, s, t, (k - 1) as nat))
}

/// The length of a shortest edge chain from `s` to `t`; meaningful only
/// when `t` is reachable from `s`.
pub open spec fn dist(g: Graph, s: usize, t: usize) -> nat {
    choose|k: nat| is_dist(g, s, t, k)
}

/// A node reachable within `k` steps has a well-defined distance of at
/// most `k`.
pub proof fn lemma_dist_exists(g: Graph, s: usize, t: usize, k: nat)
    requires
        reachable_within(g, s, t, k),
    ensures
        is_dist(g, s, t, dist(g, s, t)),
        dist(g, s, t) <= k,
    decreases k,
{
    if k == 0 || !reachable_within(g, s, t, (k - 1) as nat) {
        assert(is_dist(g, s, t, k));
        let d = dist(g, s, t);
        assert(is_dist(g, s, t, d));
        if d > k {
            lemma_reachable_within_widen(g, s, t, k, (d - 1) as nat);
            assert(false);
        }
    } else {
        lemma_dist_exists(g, s, t, (k - 1) as nat);
    }
}

/// The start itself sits at distance zero.
pub proof fn lemma_dist_self(g: Graph, s: usize)
    ensures
        dist(g, s, s) == 0,
{
    assert(reachable_within(g, s, s, 0));
    lemma_dist_exists(g, s, s, 0);
}

/// Following one edge grows the distance by at most one.
pub proof fn lemma_dist_edge(g: Graph, s: usize, u: usize, v: usize)
    requires
        reachable(g, s, u),
        g.edge(u, v),
    ensures
        reachable(g, s, v),
        dist(g, s, v) <= dist(g, s, u) + 1,
{
    let k = choose|k: nat| reachable_within(g, s, u, k);
    lemma_dist_exists(g, s, u, k);
    let du = dist(g, s, u);
    assert(reachable_within(g, s, u, du));
    assert(reachable_within(g, s, v, du + 1));
    lemma_dist_exists(g, s, v, du + 1);
    assert(reachable(g, s, v));
}

/// A node at positive distance has a predecessor one step closer to the
/// start.
pub proof fn lemma_dist_parent(g: Graph, s: usize, t: usize)
    requires
        reachable(g, s, t),
        dist(g, s, t) > 0,
    ensures
        exists|m: usize|
            #[trigger] g.edge(m, t) && reachable(g, s, m) && dist(g, s, m) + 1 == dist(g, s, t),
{
    let k0 = choose|k: nat| reachable_within(g, s, t, k);
    lemma_dist_exists(g, s, t, k0);
    let d = dist(g, s, t);
    assert(reachable_within(g, s, t, d));
    assert(t != s) by {
        if t == s {
            assert(reachable_within(g, s, t, 0));
            lemma_dist_exists(g, s, t, 0);
        }
    }
    let m = choose|m: usize| reachable_within(g, s, m, (d - 1) as nat) && #[trigger] g.edge(m, t);
    lemma_dist_exists(g, s, m, (d - 1) as nat);
    assert(reachable(g, s, m));
    lemma_dist_edge(g, s, m, t);
    assert(g.edge(m, t) && reachable(g, s, m) && dist(g, s, m) + 1 == dist(g, s, t));
}

/// Builds, one node per layer, a chain of distinct positions that
/// witnesses every distance up to `t`'s.
proof fn dist_chain(g: Graph, s: usize, t: usize) -> (c: Seq<int>)
    requires
        g.wf(),
        s < g.node_count(),
        reachable(g, s, t),
    ensures
        c.len() == dist(g, s, t) + 1,
        forall|i: int|
            0 <= i < c.len() ==> 0 <= #[trigger] c[i] < g.node_count() && dist(
                g,
                s,
                c[i] as usize,
            ) == i,
    decreases dist(g, s, t),
{
    let k0 = choose|k: nat| reachable_within(g, s, t, k);
    lemma_dist_exists(g, s, t, k0);
    if dist(g, s, t) == 0 {
        assert(reachable_within(g, s, t, 0));
        assert(t == s);
        lemma_dist_self(g, s);
        let c = seq![s as int];
        assert(c[0] == s as int);
        c
    } else {
        lemma_dist_parent(g, s, t);
        let m = choose|m: usize|
            #[trigger] g.edge(m, t) && reachable(g, s, m) && dist(g, s, m) + 1 == dist(g, s, t);
        let c0 = dist_chain(g, s, m);
        assert(t < g.node_count()) by {
            let i = choose|i: int|
                0 <= i < g.nodes@[m as int].neighbors@.len() && g.nodes@[m as int].neighbors@[i]
                    == t;
            assert(g.nodes@[m as int].neighbors@[i] < g.nodes@.len());
        }
        let c = c0.push(t as int);
        assert(c[c.len() - 1] == t as int);
        c
    }
}

/// Every reachable node lies within `node_count` layers of the start: a
/// shortest chain meets one new position per layer.
pub proof fn lemma_dist_lt_count(g: Graph, s: usize, t: usize)
    requires
        g.wf(),
        s < g.node_count(),
        reachable(g, s, t),
    ensures
        dist(g, s, t) < g.node_count(),
{
    let c = dist_chain(g, s, t);
    assert(c.no_duplicates()) by {
        assert forall|i: int, j: int|
            0 <= i < c.len() && 0 <= j < c.len() && i != j implies c[i] != c[j] by {
            assert(dist(g, s, c[i] as usize) == i && dist(g, s, c[j] as usize) == j);
        }
    }
    c.unique_seq_to_set();
    vstd::seq_lib::seq_to_set_is_finite::<int>(c);
    let range = vstd::set_lib::set_int_range(0, g.node_count() as int);
    vstd::set_lib::lemma_int_range(0, g.node_count() as int);
    assert(c.to_set().subset_of(range)) by {
        assert forall|x: int| c.to_set().contains(x) implies range.contains(x) by {
            let i = choose|i: int| 0 <= i < c.len() && c[i] == x;
            assert(0 <= c[i] < g.node_count());
        }
    }
    vstd::set_lib::lemma_len_subset(c.to_set(), range);
}

/// A set that holds the start and is closed under edges holds every node
/// reachable from the start.
pub proof fn lemma_closed_contains_reachable(
    g: Graph,
    s: usize,
    vis: Set<usize>,
    t: usize,
    k: nat,
)
    requires
        vis.contains(s),
        forall|u: usize, v: usize|
            vis.contains(u) && #[trigger] g.edge(u, v) ==> vis.contains(v),
        reachable_within(g, s, t, k),
    ensures
        vis.contains(t),
    decreases k,
{
    if t != s {
        let m = choose|m: usize|
            reachable_within(g, s, m, (k - 1) as nat) && #[trigger] g.edge(m, t);
        lemma_closed_contains_reachable(g, s, vis, m, (k - 1) as nat);
    }
}

} // verus!
