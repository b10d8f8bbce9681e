//! Walks in an undirected graph, as betweenness counts them.
//!
//! A graph is given by its adjacency: for every node the ascending list of its
//! neighbours. The distance of a node from a source is the length of the
//! shortest walk that reaches it, and the walks of that length are exactly the
//! shortest paths.

use vstd::prelude::*;

verus! {

/// Neighbour lists of an undirected graph without loops: ascending, in range,
/// and symmetric.
pub open spec fn is_adjacency(adj: Seq<Seq<usize>>) -> bool {
    &&& forall|v: int, i: int|
        #![trigger adj[v][i]]
        0 <= v < adj.len() && 0 <= i < adj[v].len() ==> adj[v][i] < adj.len() && adj[v][i] != v
    &&& forall|v: int, i: int, j: int|
        #![trigger adj[v][i], adj[v][j]]
        0 <= v < adj.len() && 0 <= i < j < adj[v].len() ==> adj[v][i] < adj[v][j]
    &&& forall|v: usize, w: usize|
        #![trigger adj[v as int].contains(w)]
        v < adj.len() && w < adj.len() && adj[v as int].contains(w) ==> adj[w as int].contains(v)
}

/// The number of walks of length `k` from `s` to `v`.
pub open spec fn walks(adj: Seq<Seq<usize>>, s: usize, v: usize, k: nat) -> nat
    decreases k, 0nat,
{
    if k == 0 {
        if s == v {
            1
        } else {
            0
        }
    } else {
        sum_walks(adj, s, adj[v as int], (k - 1) as nat)
    }
}

/// The number of walks of length `k` from `s` to any node of a list.
pub open spec fn sum_walks(adj: Seq<Seq<usize>>, s: usize, ends: Seq<usize>, k: nat) -> nat
    decreases k, ends.len() + 1,
{
    if ends.len() == 0 {
        0
    } else {
        sum_walks(adj, s, ends.drop_last(), k) + walks(adj, s, ends.last(), k)
    }
}

/// `d` is the distance of `v` from `s`.
pub open spec fn at_distance(adj: Seq<Seq<usize>>, s: usize, v: usize, d: nat) -> bool {
    &&& walks(adj, s, v, d) > 0
    &&& forall|k: nat| k < d ==> #[trigger] walks(adj, s, v, k) == 0
}

/// No walk leads from `s` to `v`.
pub open spec fn unreachable_from(adj: Seq<Seq<usize>>, s: usize, v: usize) -> bool {
    forall|k: nat| #[trigger] walks(adj, s, v, k) == 0
}

/// A node has one distance.
pub proof fn distance_unique(adj: Seq<Seq<usize>>, s: usize, v: usize, d: nat, e: nat)
    requires
        at_distance(adj, s, v, d),
        at_distance(adj, s, v, e),
    ensures
        d == e,
{
    if d < e {
        assert(walks(adj, s, v, d) == 0);
    }
    if e < d {
        assert(walks(adj, s, v, e) == 0);
    }
}

proof fn lemma_sum_has(adj: Seq<Seq<usize>>, s: usize, ends: Seq<usize>, k: nat, j: int)
    requires
        0 <= j < ends.len(),
    ensures
        sum_walks(adj, s, ends, k) >= walks(adj, s, ends[j], k),
    decreases ends.len(),
{
    if j < ends.len() - 1 {
        lemma_sum_has(adj, s, ends.drop_last(), k, j);
    }
}

/// A step from a reached node reaches its neighbour.
pub proof fn lemma_step(adj: Seq<Seq<usize>>, s: usize, u: usize, w: usize, k: nat)
    requires
        adj[w as int].contains(u),
        walks(adj, s, u, k) > 0,
    ensures
        walks(adj, s, w, k + 1) > 0,
{
    let j = adj[w as int].index_of(u);
    lemma_sum_has(adj, s, adj[w as int], k, j);
}

proof fn lemma_sum_witness(adj: Seq<Seq<usize>>, s: usize, ends: Seq<usize>, k: nat) -> (j: int)
    requires
        sum_walks(adj, s, ends, k) > 0,
    ensures
        0 <= j < ends.len(),
        walks(adj, s, ends[j], k) > 0,
    decreases ends.len(),
{
    if walks(adj, s, ends.last(), k) > 0 {
        ends.len() - 1
    } else {
        lemma_sum_witness(adj, s, ends.drop_last(), k)
    }
}

/// The last step of a walk comes from a neighbour.
pub proof fn lemma_last_step(adj: Seq<Seq<usize>>, s: usize, w: usize, k: nat) -> (u: usize)
    requires
        k > 0,
        walks(adj, s, w, k) > 0,
    ensures
        adj[w as int].contains(u),
        walks(adj, s, u, (k - 1) as nat) > 0,
{
    let j = lemma_sum_witness(adj, s, adj[w as int], (k - 1) as nat);
    adj[w as int][j]
}

proof fn lemma_sum_remove(adj: Seq<Seq<usize>>, s: usize, ends: Seq<usize>, k: nat, j: int)
    requires
        0 <= j < ends.len(),
    ensures
        sum_walks(adj, s, ends, k) == sum_walks(adj, s, ends.remove(j), k) + walks(
            adj,
            s,
            ends[j],
            k,
        ),
    decreases ends.len(),
{
    if j == ends.len() - 1 {
        assert(ends.remove(j) =~= ends.drop_last());
    } else {
        lemma_sum_remove(adj, s, ends.drop_last(), k, j);
        assert(ends.remove(j).drop_last() =~= ends.drop_last().remove(j));
        assert(ends.remove(j).last() == ends.last());
    }
}

/// Dropping ends leaves no more walks; dropping only ends that no walk of the
/// length reaches leaves as many.
pub proof fn lemma_sum_part(
    adj: Seq<Seq<usize>>,
    s: usize,
    all: Seq<usize>,
    part: Seq<usize>,
    k: nat,
)
    requires
        all.no_duplicates(),
        part.no_duplicates(),
        forall|x: usize| #[trigger] part.contains(x) ==> all.contains(x),
    ensures
        sum_walks(adj, s, part, k) <= sum_walks(adj, s, all, k),
        (forall|x: usize| #[trigger]
            all.contains(x) && !part.contains(x) ==> walks(adj, s, x, k) == 0) ==> sum_walks(
            adj,
            s,
            part,
            k,
        ) == sum_walks(adj, s, all, k),
    decreases all.len(),
{
    if all.len() == 0 {
        if part.len() > 0 {
            assert(part.contains(part[0]));
        }
    } else {
        let x = all.last();
        let rest = all.drop_last();
        assert(all.contains(x));
        assert forall|y: usize| all.contains(y) && y != x implies rest.contains(y) by {
            let j = all.index_of(y);
            assert(rest[j] == y);
        }
        assert forall|y: usize| rest.contains(y) implies all.contains(y) && y != x by {
            let j = rest.index_of(y);
            assert(all[j] == y);
        }
        if part.contains(x) {
            let j = part.index_of(x);
            let less = part.remove(j);
            part.remove_ensures(j);
            assert forall|y: usize| #[trigger] less.contains(y) implies part.contains(y) && y
                != x by {
                let i = less.index_of(y);
                let o = if i < j { i } else { i + 1 };
                assert(part[o] == y);
            }
            assert forall|y: usize| part.contains(y) && y != x implies less.contains(y) by {
                let i = part.index_of(y);
                let o = if i < j { i } else { i - 1 };
                assert(less[o] == y);
            }
            assert(less.no_duplicates());
            lemma_sum_part(adj, s, rest, less, k);
            lemma_sum_remove(adj, s, part, k, j);
        } else {
            lemma_sum_part(adj, s, rest, part, k);
        }
    }
}

/// An ascending list holds nothing twice.
pub proof fn lemma_neighbours_distinct(adj: Seq<Seq<usize>>, v: int)
    requires
        is_adjacency(adj),
        0 <= v < adj.len(),
    ensures
        adj[v].no_duplicates(),
{
    assert forall|i: int, j: int|
        0 <= i < adj[v].len() && 0 <= j < adj[v].len() && i != j implies adj[v][i] != adj[v][j] by {
        if i < j {
            assert(adj[v][i] < adj[v][j]);
        } else {
            assert(adj[v][j] < adj[v][i]);
        }
    }
}

} // verus!
