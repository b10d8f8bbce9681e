//! One source of Brandes' algorithm: a breadth-first pass that counts shortest
//! paths.

use vstd::prelude::*;

use crate::brandes::Graph;
use crate::walks;

verus! {

/// What a breadth-first pass from one source finds.
pub struct SourcePass {
    /// The reached nodes, in the order in which they are reached.
    pub order: Vec<usize>,
    /// Distance from the source, `None` where no walk leads.
    pub dist: Vec<Option<usize>>,
    /// Number of shortest paths from the source.
    pub sigma: Vec<u64>,
    /// For each node its predecessors on shortest paths, as they were reached.
    pub preds: Vec<Vec<usize>>,
}

/// The distance that was noted for a node.
pub open spec fn noted(dist: Seq<Option<usize>>, v: usize) -> nat {
    dist[v as int]->0 as nat
}

/// Nodes of one distance are ordered by where their first predecessor stands,
/// and among those that share it by their number.
pub open spec fn ties_settled(
    order: Seq<usize>,
    dist: Seq<Option<usize>>,
    preds: Seq<Vec<usize>>,
) -> bool {
    forall|i: int, j: int|
        #![trigger order[i], order[j]]
        0 <= i < j < order.len() && noted(dist, order[i]) == noted(dist, order[j]) && noted(
            dist,
            order[i],
        ) > 0 ==> {
            let a = order.index_of(preds[order[i] as int]@[0]);
            let b = order.index_of(preds[order[j] as int]@[0]);
            a < b || (a == b && order[i] < order[j])
        }
}

/// Predecessors stand in the order in which they were reached.
pub open spec fn preds_in_order(order: Seq<usize>, preds: Seq<Vec<usize>>) -> bool {
    forall|w: int, a: int, b: int|
        #![trigger preds[w]@[a], preds[w]@[b]]
        0 <= w < preds.len() && 0 <= a < b < preds[w]@.len() ==> order.index_of(preds[w]@[a])
            < order.index_of(preds[w]@[b])
}

impl SourcePass {
    /// This is the pass from `s` over `adj`. Distances and path counts are
    /// those of the graph; the order starts at `s`, never steps back in
    /// distance, and settles ties by predecessor and number; and predecessors
    /// are exactly the neighbours one step nearer.
    pub open spec fn describes(&self, adj: Seq<Seq<usize>>, s: usize) -> bool {
        let (order, dist, preds) = (self.order@, self.dist@, self.preds@);
        &&& dist.len() == adj.len()
        &&& self.sigma@.len() == adj.len()
        &&& preds.len() == adj.len()
        &&& forall|v: usize|
            #![trigger dist[v as int]]
            v < adj.len() ==> match dist[v as int] {
                Some(d) => walks::at_distance(adj, s, v, d as nat) && self.sigma@[v as int]
                    == walks::walks(adj, s, v, d as nat) && order.contains(v),
                None => walks::unreachable_from(adj, s, v) && self.sigma@[v as int] == 0
                    && !order.contains(v),
            }
        &&& order.len() > 0 && order[0] == s
        &&& order.no_duplicates()
        &&& forall|i: int| #![trigger order[i]] 0 <= i < order.len() ==> order[i] < adj.len()
        &&& forall|i: int, j: int|
            #![trigger order[i], order[j]]
            0 <= i <= j < order.len() ==> noted(dist, order[i]) <= noted(dist, order[j])
        &&& ties_settled(order, dist, preds)
        &&& forall|w: usize, u: usize|
            #![trigger preds[w as int]@.contains(u)]
            w < adj.len() ==> (preds[w as int]@.contains(u) <==> order.contains(u)
                && adj[u as int].contains(w) && noted(dist, u) + 1 == noted(dist, w)
                && dist[w as int] is Some)
        &&& preds_in_order(order, preds)
    }
}

/// The pass so far: `order` holds what was reached, its first `h` nodes are
/// finished, and of the next one the first `i` neighbours were looked at.
spec fn explored(
    adj: Seq<Seq<usize>>,
    s: usize,
    order: Seq<usize>,
    dist: Seq<Option<usize>>,
    h: int,
    i: int,
) -> bool {
    &&& walks::is_adjacency(adj)
    &&& s < adj.len()
    &&& dist.len() == adj.len()
    &&& 0 <= h <= order.len()
    &&& order.len() > 0
    &&& order[0] == s
    &&& order.no_duplicates()
    &&& forall|k: int|
        #![trigger order[k]]
        0 <= k < order.len() ==> order[k] < adj.len() && dist[order[k] as int] is Some && noted(
            dist,
            order[k],
        ) <= k && walks::at_distance(adj, s, order[k], noted(dist, order[k]))
    &&& forall|v: usize|
        #![trigger dist[v as int]]
        v < adj.len() && dist[v as int] is Some ==> order.contains(v)
    &&& forall|a: int, b: int|
        #![trigger order[a], order[b]]
        0 <= a <= b < order.len() ==> noted(dist, order[a]) <= noted(dist, order[b])
    &&& forall|k: int, w: usize|
        #![trigger adj[order[k] as int].contains(w)]
        0 <= k < h && adj[order[k] as int].contains(w) ==> dist[w as int] is Some && noted(dist, w)
            <= noted(dist, order[k]) + 1
    &&& h < order.len() ==> {
        &&& 0 <= i <= adj[order[h] as int].len()
        &&& forall|k: int|
            #![trigger order[k]]
            0 <= k < order.len() ==> noted(dist, order[k]) <= noted(dist, order[h]) + 1
        &&& forall|j: int|
            #![trigger adj[order[h] as int][j]]
            0 <= j < i ==> dist[adj[order[h] as int][j] as int] is Some
    }
}

/// `u` has been counted as a possible predecessor of `w`.
spec fn handled(
    adj: Seq<Seq<usize>>,
    order: Seq<usize>,
    h: int,
    i: int,
    u: usize,
    w: usize,
) -> bool {
    order.take(h).contains(u) || (h < order.len() && u == order[h] && adj[u as int].take(
        i,
    ).contains(w))
}

/// The count of a reached node other than the source adds up those of its
/// predecessors so far; an unreached node has none.
spec fn count_fits(
    adj: Seq<Seq<usize>>,
    s: usize,
    dist: Seq<Option<usize>>,
    sigma: Seq<u64>,
    preds: Seq<Vec<usize>>,
    w: usize,
) -> bool {
    if dist[w as int] is Some {
        &&& noted(dist, w) > 0
        &&& sigma[w as int] == walks::sum_walks(
            adj,
            s,
            preds[w as int]@,
            (noted(dist, w) - 1) as nat,
        )
        &&& preds[w as int]@.len() > 0
    } else {
        sigma[w as int] == 0 && preds[w as int]@.len() == 0
    }
}

/// Path counts and predecessor lists of the pass so far.
spec fn counted(
    adj: Seq<Seq<usize>>,
    s: usize,
    order: Seq<usize>,
    dist: Seq<Option<usize>>,
    sigma: Seq<u64>,
    preds: Seq<Vec<usize>>,
    h: int,
    i: int,
) -> bool {
    &&& sigma.len() == adj.len()
    &&& preds.len() == adj.len()
    &&& sigma[s as int] == 1
    &&& preds[s as int]@.len() == 0
    &&& forall|w: usize|
        w < adj.len() && w != s ==> #[trigger] count_fits(adj, s, dist, sigma, preds, w)
    &&& forall|w: usize, u: usize|
        #![trigger preds[w as int]@.contains(u)]
        w < adj.len() ==> (preds[w as int]@.contains(u) <==> handled(adj, order, h, i, u, w)
            && adj[u as int].contains(w) && noted(dist, u) + 1 == noted(dist, w)
            && dist[w as int] is Some)
    &&& preds_in_order(order, preds)
    &&& forall|k: int|
        #![trigger order[k]]
        0 <= k < h ==> sigma[order[k] as int] == walks::walks(
            adj,
            s,
            order[k],
            noted(dist, order[k]),
        )
    &&& ties_settled(order, dist, preds)
}

proof fn lemma_place(order: Seq<usize>, k: int)
    requires
        order.no_duplicates(),
        0 <= k < order.len(),
    ensures
        order.index_of(order[k]) == k,
{
    assert(order.contains(order[k]));
}

/// Whatever lies nearer than the node being looked at is finished.
proof fn lemma_nearer_finished(
    adj: Seq<Seq<usize>>,
    s: usize,
    order: Seq<usize>,
    dist: Seq<Option<usize>>,
    h: int,
    i: int,
    x: usize,
    k: nat,
)
    requires
        explored(adj, s, order, dist, h, i),
        x < adj.len(),
        walks::walks(adj, s, x, k) > 0,
        h < order.len() ==> k < noted(dist, order[h]),
    ensures
        order.take(h).contains(x),
    decreases k,
{
    if k == 0 {
        assert(x == s);
        assert(order[0] == s);
        if h == 0 {
            assert(noted(dist, order[0]) <= 0);
        }
        assert(order.take(h)[0] == s);
    } else {
        let u = walks::lemma_last_step(adj, s, x, k);
        let j = adj[x as int].index_of(u);
        assert(adj[x as int][j] == u);
        assert(u < adj.len());
        assert(adj[u as int].contains(x));
        lemma_nearer_finished(adj, s, order, dist, h, i, u, (k - 1) as nat);
        let p = order.take(h).index_of(u);
        assert(order[p] == u);
        assert(adj[order[p] as int].contains(x));
        assert(dist[x as int] is Some);
        let q = order.index_of(x);
        assert(order[q] == x);
        assert(noted(dist, x) <= k) by {
            if noted(dist, x) > k {
                assert(walks::walks(adj, s, x, k) == 0);
            }
        }
        if h < order.len() && q >= h {
            assert(noted(dist, order[h]) <= noted(dist, order[q]));
        }
        assert(order.take(h)[q] == x);
    }
}

/// A node's count is complete once it is its turn.
proof fn lemma_count_complete(
    adj: Seq<Seq<usize>>,
    s: usize,
    order: Seq<usize>,
    dist: Seq<Option<usize>>,
    sigma: Seq<u64>,
    preds: Seq<Vec<usize>>,
    h: int,
)
    requires
        explored(adj, s, order, dist, h, 0),
        counted(adj, s, order, dist, sigma, preds, h, 0),
        h < order.len(),
    ensures
        sigma[order[h] as int] == walks::walks(adj, s, order[h], noted(dist, order[h])),
{
    let v = order[h];
    let d = noted(dist, v);
    if v == s {
        assert(walks::walks(adj, s, s, 0) == 1);
        if d > 0 {
            assert(walks::walks(adj, s, v, 0) == 0);
        }
    } else {
        assert(count_fits(adj, s, dist, sigma, preds, v));
        let part = preds[v as int]@;
        let all = adj[v as int];
        let k = (d - 1) as nat;
        assert(part.no_duplicates()) by {
            assert forall|a: int, b: int|
                0 <= a < part.len() && 0 <= b < part.len() && a != b implies part[a]
                != part[b] by {
                if a < b {
                    assert(order.index_of(preds[v as int]@[a]) < order.index_of(
                        preds[v as int]@[b],
                    ));
                } else {
                    assert(order.index_of(preds[v as int]@[b]) < order.index_of(
                        preds[v as int]@[a],
                    ));
                }
            }
        }
        walks::lemma_neighbours_distinct(adj, v as int);
        assert forall|x: usize| #[trigger] part.contains(x) implies all.contains(x) by {
            assert(preds[v as int]@.contains(x));
            assert(handled(adj, order, h, 0, x, v));
            if order.take(h).contains(x) {
                let p = order.take(h).index_of(x);
                assert(order[p] == x);
            } else {
                assert(order[h] == x);
            }
            assert(adj[x as int].contains(v));
        }
        assert forall|x: usize| #[trigger]
            all.contains(x) && !part.contains(x) implies walks::walks(adj, s, x, k) == 0 by {
            let j = all.index_of(x);
            assert(adj[v as int][j] == x);
            if walks::walks(adj, s, x, k) > 0 {
                lemma_nearer_finished(adj, s, order, dist, h, 0, x, k);
                let p = order.take(h).index_of(x);
                assert(order[p] == x);
                assert(adj[x as int].contains(v));
                assert(adj[order[p] as int].contains(v));
                assert(noted(dist, x) <= k) by {
                    if noted(dist, x) > k {
                        assert(walks::walks(adj, s, x, k) == 0);
                    }
                }
                assert(handled(adj, order, h, 0, x, v));
                assert(preds[v as int]@.contains(x));
            }
        }
        walks::lemma_sum_part(adj, s, all, part, k);
    }
}

/// Reaching a new node keeps the exploration.
proof fn lemma_reach(
    adj: Seq<Seq<usize>>,
    s: usize,
    order: Seq<usize>,
    dist: Seq<Option<usize>>,
    h: int,
    i: int,
    d: usize,
    w: usize,
)
    requires
        explored(adj, s, order, dist, h, i),
        h < order.len(),
        i < adj[order[h] as int].len(),
        w == adj[order[h] as int][i],
        dist[w as int] is None,
        d == noted(dist, order[h]) + 1,
    ensures
        explored(adj, s, order.push(w), dist.update(w as int, Some(d)), h, i + 1),
{
    let v = order[h];
    let o2 = order.push(w);
    let d2 = dist.update(w as int, Some(d));
    assert(adj[v as int].contains(w));
    assert(w < adj.len());
    assert(adj[w as int].contains(v));
    assert(!order.contains(w)) by {
        if order.contains(w) {
            let p = order.index_of(w);
            assert(order[p] == w);
        }
    }
    walks::lemma_step(adj, s, v, w, noted(dist, v));
    assert forall|k: nat| k < d implies #[trigger] walks::walks(adj, s, w, k) == 0 by {
        if walks::walks(adj, s, w, k) > 0 {
            if k == 0 {
                assert(order[0] == w);
            } else {
                let u = walks::lemma_last_step(adj, s, w, k);
                let j = adj[w as int].index_of(u);
                assert(adj[w as int][j] == u);
                assert(adj[u as int].contains(w));
                lemma_nearer_finished(adj, s, order, dist, h, i, u, (k - 1) as nat);
                let p = order.take(h).index_of(u);
                assert(order[p] == u);
                assert(adj[order[p] as int].contains(w));
            }
        }
    }
    assert(walks::at_distance(adj, s, w, d as nat));
    assert forall|k: int|
        #![trigger o2[k]]
        0 <= k < o2.len() implies o2[k] < adj.len() && d2[o2[k] as int] is Some && noted(d2, o2[k])
        <= k && walks::at_distance(adj, s, o2[k], noted(d2, o2[k])) by {
        if k < order.len() {
            assert(o2[k] == order[k]);
            assert(order.contains(order[k]));
        }
    }
    assert forall|x: usize|
        #![trigger d2[x as int]]
        x < adj.len() && d2[x as int] is Some implies o2.contains(x) by {
        if x == w {
            assert(o2[order.len() as int] == w);
        } else {
            assert(dist[x as int] is Some);
            let p = order.index_of(x);
            assert(o2[p] == x);
        }
    }
    assert forall|a: int, b: int|
        #![trigger o2[a], o2[b]]
        0 <= a <= b < o2.len() implies noted(d2, o2[a]) <= noted(d2, o2[b]) by {
        if b < order.len() {
            assert(o2[a] == order[a] && o2[b] == order[b]);
            assert(order.contains(order[a]) && order.contains(order[b]));
        } else if a < order.len() {
            assert(o2[a] == order[a]);
            assert(order.contains(order[a]));
        }
    }
    assert forall|k: int, x: usize|
        #![trigger adj[o2[k] as int].contains(x)]
        0 <= k < h && adj[o2[k] as int].contains(x) implies d2[x as int] is Some && noted(d2, x)
        <= noted(d2, o2[k]) + 1 by {
        assert(o2[k] == order[k]);
        assert(order.contains(order[k]));
        assert(adj[order[k] as int].contains(x));
        assert(x != w);
    }
    assert(o2[h] == v);
    assert(order.contains(v));
    assert forall|k: int| #![trigger o2[k]] 0 <= k < o2.len() implies noted(d2, o2[k]) <= noted(
        d2,
        o2[h],
    ) + 1 by {
        if k < order.len() {
            assert(o2[k] == order[k]);
            assert(order.contains(order[k]));
        }
    }
    assert forall|j: int|
        #![trigger adj[o2[h] as int][j]]
        0 <= j < i + 1 implies d2[adj[o2[h] as int][j] as int] is Some by {
        if j < i {
            assert(dist[adj[order[h] as int][j] as int] is Some);
        }
    }
}

/// A state of the pass.
struct State {
    order: Seq<usize>,
    dist: Seq<Option<usize>>,
    sigma: Seq<u64>,
    preds: Seq<Vec<usize>>,
}

/// `b` follows from `a` by taking the node at place `h` as a predecessor of its
/// `i`-th neighbour `w`, which may be reached just now.
spec fn notes(
    adj: Seq<Seq<usize>>,
    s: usize,
    a: State,
    b: State,
    h: int,
    i: int,
    w: usize,
) -> bool {
    let v = a.order[h];
    &&& explored(adj, s, a.order, a.dist, h, i)
    &&& explored(adj, s, b.order, b.dist, h, i + 1)
    &&& counted(adj, s, a.order, a.dist, a.sigma, a.preds, h, i)
    &&& h < a.order.len()
    &&& i < adj[v as int].len()
    &&& w == adj[v as int][i]
    &&& {
        ||| b.order == a.order && b.dist == a.dist
        ||| a.dist[w as int] is None && b.order == a.order.push(w) && b.dist == a.dist.update(
            w as int,
            b.dist[w as int],
        )
    }
    &&& b.dist[w as int] is Some
    &&& noted(b.dist, w) == noted(a.dist, v) + 1
    &&& a.sigma[v as int] == walks::walks(adj, s, v, noted(a.dist, v))
    &&& b.sigma == a.sigma.update(w as int, b.sigma[w as int])
    &&& b.sigma[w as int] == a.sigma[w as int] + a.sigma[v as int]
    &&& b.preds.len() == a.preds.len()
    &&& a.preds.len() <= usize::MAX
    &&& forall|x: int| 0 <= x < a.preds.len() && x != w ==> b.preds[x] == a.preds[x]
    &&& b.preds[w as int]@ == a.preds[w as int]@.push(v)
}

/// What was reached keeps its place and its distance.
proof fn lemma_notes_keep(
    adj: Seq<Seq<usize>>,
    s: usize,
    a: State,
    b: State,
    h: int,
    i: int,
    w: usize,
)
    requires
        notes(adj, s, a, b, h, i, w),
    ensures
        forall|k: int|
            #![trigger a.order[k]]
            #![trigger b.order[k]]
            0 <= k < a.order.len() ==> b.order[k] == a.order[k] && noted(b.dist, a.order[k])
                == noted(a.dist, a.order[k]) && b.order.index_of(a.order[k]) == k
                && a.order.index_of(a.order[k]) == k && a.dist[a.order[k] as int] is Some,
        w < adj.len(),
        w != a.order[h],
        w != s,
        adj[a.order[h] as int].contains(w),
        b.order.take(h) == a.order.take(h),
        !adj[a.order[h] as int].take(i).contains(w),
        noted(a.dist, s) == 0,
        a.dist[w as int] is None ==> a.preds[w as int]@.len() == 0 && a.sigma[w as int] == 0,
{
    let v = a.order[h];
    assert(adj[v as int].contains(w));
    assert forall|k: int|
        #![trigger a.order[k]]
        #![trigger b.order[k]]
        0 <= k < a.order.len() implies b.order[k] == a.order[k] && noted(b.dist, a.order[k])
        == noted(a.dist, a.order[k]) && b.order.index_of(a.order[k]) == k && a.order.index_of(
        a.order[k],
    ) == k && a.dist[a.order[k] as int] is Some by {
        assert(b.order[k] == a.order[k]);
        lemma_place(a.order, k);
        lemma_place(b.order, k);
    }
    assert(a.order[0] == s);
    assert(b.order[0] == s);
    assert(w != s) by {
        assert(noted(b.dist, b.order[0]) <= 0);
    }
    assert(b.order.take(h) =~= a.order.take(h));
    walks::lemma_neighbours_distinct(adj, v as int);
    if adj[v as int].take(i).contains(w) {
        let q = adj[v as int].take(i).index_of(w);
        assert(adj[v as int][q] == adj[v as int][i]);
    }
    assert(count_fits(adj, s, a.dist, a.sigma, a.preds, w));
}

/// Whoever is a predecessor was reached, and is finished or the current node.
proof fn lemma_pred_place(
    adj: Seq<Seq<usize>>,
    s: usize,
    a: State,
    h: int,
    i: int,
    w: usize,
    u: usize,
) -> (p: int)
    requires
        counted(adj, s, a.order, a.dist, a.sigma, a.preds, h, i),
        0 <= h <= a.order.len(),
        w < adj.len(),
        a.preds[w as int]@.contains(u),
    ensures
        0 <= p <= h,
        p < a.order.len(),
        a.order[p] == u,
        p == h ==> adj[u as int].take(i).contains(w),
{
    assert(handled(adj, a.order, h, i, u, w));
    if a.order.take(h).contains(u) {
        let p = a.order.take(h).index_of(u);
        assert(a.order[p] == u);
        p
    } else {
        h
    }
}

proof fn lemma_notes_counts(
    adj: Seq<Seq<usize>>,
    s: usize,
    a: State,
    b: State,
    h: int,
    i: int,
    w: usize,
)
    requires
        notes(adj, s, a, b, h, i, w),
    ensures
        forall|x: usize|
            x < adj.len() && x != s ==> #[trigger] count_fits(
                adj,
                s,
                b.dist,
                b.sigma,
                b.preds,
                x,
            ),
        forall|k: int|
            #![trigger b.order[k]]
            0 <= k < h ==> b.sigma[b.order[k] as int] == walks::walks(
                adj,
                s,
                b.order[k],
                noted(b.dist, b.order[k]),
            ),
{
    lemma_notes_keep(adj, s, a, b, h, i, w);
    let v = a.order[h];
    let d = noted(a.dist, v);
    assert forall|x: usize| x < adj.len() && x != s implies #[trigger] count_fits(
        adj,
        s,
        b.dist,
        b.sigma,
        b.preds,
        x,
    ) by {
        assert(count_fits(adj, s, a.dist, a.sigma, a.preds, x));
        if x == w {
            let pw = a.preds[w as int]@;
            assert(pw.push(v).drop_last() =~= pw);
            assert(a.sigma[w as int] == walks::sum_walks(adj, s, pw, d));
        }
    }
    assert forall|k: int|
        #![trigger b.order[k]]
        0 <= k < h implies b.sigma[b.order[k] as int] == walks::walks(
        adj,
        s,
        b.order[k],
        noted(b.dist, b.order[k]),
    ) by {
        assert(b.order[k] == a.order[k]);
        assert(noted(a.dist, a.order[k]) <= noted(a.dist, a.order[h]));
        assert(a.order[k] != w);
    }
}

proof fn lemma_notes_members(
    adj: Seq<Seq<usize>>,
    s: usize,
    a: State,
    b: State,
    h: int,
    i: int,
    w: usize,
)
    requires
        notes(adj, s, a, b, h, i, w),
    ensures
        forall|x: usize, u: usize|
            #![trigger b.preds[x as int]@.contains(u)]
            x < adj.len() ==> (b.preds[x as int]@.contains(u) <==> handled(
                adj,
                b.order,
                h,
                i + 1,
                u,
                x,
            ) && adj[u as int].contains(x) && noted(b.dist, u) + 1 == noted(b.dist, x)
                && b.dist[x as int] is Some),
{
    lemma_notes_keep(adj, s, a, b, h, i, w);
    let v = a.order[h];
    let nb = adj[v as int];
    assert(b.order[h] == v);
    assert(nb.take(i + 1) =~= nb.take(i).push(w));
    assert forall|x: usize, u: usize|
        #![trigger b.preds[x as int]@.contains(u)]
        x < adj.len() implies (b.preds[x as int]@.contains(u) <==> handled(
        adj,
        b.order,
        h,
        i + 1,
        u,
        x,
    ) && adj[u as int].contains(x) && noted(b.dist, u) + 1 == noted(b.dist, x)
        && b.dist[x as int] is Some) by {
        lemma_push(nb.take(i), w, x);
        lemma_push(a.preds[w as int]@, v, u);
        assert(a.preds[x as int]@.contains(u) <==> handled(adj, a.order, h, i, u, x)
            && adj[u as int].contains(x) && noted(a.dist, u) + 1 == noted(a.dist, x)
            && a.dist[x as int] is Some);
        if a.order.take(h).contains(u) {
            let p = a.order.take(h).index_of(u);
            assert(a.order[p] == u);
            if x == w && a.dist[w as int] is None && adj[u as int].contains(w) {
                assert(adj[a.order[p] as int].contains(w));
            }
        }
    }
}

proof fn lemma_notes_order(
    adj: Seq<Seq<usize>>,
    s: usize,
    a: State,
    b: State,
    h: int,
    i: int,
    w: usize,
)
    requires
        notes(adj, s, a, b, h, i, w),
    ensures
        preds_in_order(b.order, b.preds),
{
    lemma_notes_keep(adj, s, a, b, h, i, w);
    assert forall|x: int, c: int, e: int|
        #![trigger b.preds[x]@[c], b.preds[x]@[e]]
        0 <= x < b.preds.len() && 0 <= c < e < b.preds[x]@.len() implies b.order.index_of(
        b.preds[x]@[c],
    ) < b.order.index_of(b.preds[x]@[e]) by {
        let xu = x as usize;
        let u = a.preds[x]@[c];
        assert(b.preds[x]@[c] == u);
        assert(a.preds[xu as int]@.contains(u));
        let p = lemma_pred_place(adj, s, a, h, i, xu, u);
        assert(a.order[p] == u);
        if x == w && e == a.preds[x]@.len() {
            assert(a.order[h] == b.preds[x]@[e]);
        } else {
            let t = a.preds[x]@[e];
            assert(b.preds[x]@[e] == t);
            assert(a.preds[xu as int]@.contains(t));
            let q = lemma_pred_place(adj, s, a, h, i, xu, t);
            assert(a.order[q] == t);
            assert(a.order.index_of(a.preds[x]@[c]) < a.order.index_of(a.preds[x]@[e]));
        }
    }
}

proof fn lemma_notes_ties(
    adj: Seq<Seq<usize>>,
    s: usize,
    a: State,
    b: State,
    h: int,
    i: int,
    w: usize,
)
    requires
        notes(adj, s, a, b, h, i, w),
    ensures
        ties_settled(b.order, b.dist, b.preds),
{
    lemma_notes_keep(adj, s, a, b, h, i, w);
    let v = a.order[h];
    assert forall|k: int, l: int|
        #![trigger b.order[k], b.order[l]]
        0 <= k < l < b.order.len() && noted(b.dist, b.order[k]) == noted(b.dist, b.order[l])
            && noted(b.dist, b.order[k]) > 0 implies {
        let x = b.order.index_of(b.preds[b.order[k] as int]@[0]);
        let y = b.order.index_of(b.preds[b.order[l] as int]@[0]);
        x < y || (x == y && b.order[k] < b.order[l])
    } by {
        let m = b.order[k];
        assert(m == a.order[k] && m != s);
        let f = a.preds[m as int]@[0];
        assert(count_fits(adj, s, a.dist, a.sigma, a.preds, m));
        assert(a.preds[m as int]@.len() > 0);
        assert(b.preds[m as int]@[0] == f);
        assert(a.preds[m as int]@.contains(f));
        let p = lemma_pred_place(adj, s, a, h, i, m, f);
        assert(a.order[p] == f);
        if l < a.order.len() {
            let n = a.order[l];
            assert(b.order[l] == n && n != s);
            assert(count_fits(adj, s, a.dist, a.sigma, a.preds, n));
            assert(a.preds[n as int]@.len() > 0);
            let g = a.preds[n as int]@[0];
            assert(b.preds[n as int]@[0] == g);
            assert(a.preds[n as int]@.contains(g));
            let q = lemma_pred_place(adj, s, a, h, i, n, g);
            assert(a.order[q] == g);
        } else {
            assert(b.order[l] == w);
            assert(b.preds[w as int]@[0] == v);
            if p == h {
                let q = adj[v as int].take(i).index_of(m);
                assert(adj[v as int][q] == m);
                assert(adj[v as int][q] < adj[v as int][i]);
            }
        }
    }
}

/// Noting a predecessor keeps the counts.
proof fn lemma_note(adj: Seq<Seq<usize>>, s: usize, a: State, b: State, h: int, i: int, w: usize)
    requires
        notes(adj, s, a, b, h, i, w),
    ensures
        counted(adj, s, b.order, b.dist, b.sigma, b.preds, h, i + 1),
        b.sigma[a.order[h] as int] == a.sigma[a.order[h] as int],
{
    lemma_notes_keep(adj, s, a, b, h, i, w);
    lemma_notes_counts(adj, s, a, b, h, i, w);
    lemma_notes_members(adj, s, a, b, h, i, w);
    lemma_notes_order(adj, s, a, b, h, i, w);
    lemma_notes_ties(adj, s, a, b, h, i, w);
}

proof fn lemma_push(s: Seq<usize>, x: usize, y: usize)
    ensures
        s.push(x).contains(y) <==> (y == x || s.contains(y)),
{
    if s.contains(y) {
        let i = s.index_of(y);
        assert(s.push(x)[i] == y);
    }
    assert(s.push(x)[s.len() as int] == x);
    if s.push(x).contains(y) && y != x {
        let i = s.push(x).index_of(y);
        assert(s[i] == y);
    }
}

/// A neighbour that is not one step farther changes nothing.
proof fn lemma_skip(
    adj: Seq<Seq<usize>>,
    s: usize,
    order: Seq<usize>,
    dist: Seq<Option<usize>>,
    sigma: Seq<u64>,
    preds: Seq<Vec<usize>>,
    h: int,
    i: int,
    w: usize,
)
    requires
        explored(adj, s, order, dist, h, i),
        counted(adj, s, order, dist, sigma, preds, h, i),
        h < order.len(),
        i < adj[order[h] as int].len(),
        w == adj[order[h] as int][i],
        dist[w as int] is Some,
        noted(dist, w) != noted(dist, order[h]) + 1,
    ensures
        explored(adj, s, order, dist, h, i + 1),
        counted(adj, s, order, dist, sigma, preds, h, i + 1),
{
    let v = order[h];
    let nb = adj[v as int];
    assert(nb.take(i + 1) =~= nb.take(i).push(w));
    assert forall|x: usize, u: usize|
        #![trigger preds[x as int]@.contains(u)]
        x < adj.len() implies (preds[x as int]@.contains(u) <==> handled(
        adj,
        order,
        h,
        i + 1,
        u,
        x,
    ) && adj[u as int].contains(x) && noted(dist, u) + 1 == noted(dist, x)
        && dist[x as int] is Some) by {
        lemma_push(nb.take(i), w, x);
    }
}

/// When all neighbours were looked at, the node is finished.
proof fn lemma_finish_node(
    adj: Seq<Seq<usize>>,
    s: usize,
    order: Seq<usize>,
    dist: Seq<Option<usize>>,
    sigma: Seq<u64>,
    preds: Seq<Vec<usize>>,
    h: int,
)
    requires
        h < order.len(),
        explored(adj, s, order, dist, h, adj[order[h] as int].len() as int),
        counted(adj, s, order, dist, sigma, preds, h, adj[order[h] as int].len() as int),
        sigma[order[h] as int] == walks::walks(adj, s, order[h], noted(dist, order[h])),
    ensures
        explored(adj, s, order, dist, h + 1, 0),
        counted(adj, s, order, dist, sigma, preds, h + 1, 0),
{
    let v = order[h];
    let nb = adj[v as int];
    assert(nb.take(nb.len() as int) =~= nb);
    assert(order.take(h + 1) =~= order.take(h).push(v));
    assert forall|k: int, w: usize|
        #![trigger adj[order[k] as int].contains(w)]
        0 <= k < h + 1 && adj[order[k] as int].contains(w) implies dist[w as int] is Some && noted(
        dist,
        w,
    ) <= noted(dist, order[k]) + 1 by {
        if k == h {
            let j = adj[order[h] as int].index_of(w);
            assert(adj[order[h] as int][j] == w);
            assert(dist[w as int] is Some);
            let p = order.index_of(w);
            assert(order[p] == w);
        }
    }
    if h + 1 < order.len() {
        assert(noted(dist, order[h]) <= noted(dist, order[h + 1]));
    }
    assert forall|x: usize, u: usize|
        #![trigger preds[x as int]@.contains(u)]
        x < adj.len() implies (preds[x as int]@.contains(u) <==> handled(
        adj,
        order,
        h + 1,
        0,
        u,
        x,
    ) && adj[u as int].contains(x) && noted(dist, u) + 1 == noted(dist, x)
        && dist[x as int] is Some) by {
        lemma_push(order.take(h), v, u);
        if h + 1 < order.len() {
            assert(adj[order[h + 1] as int].take(0) =~= Seq::empty());
        }
    }
}

/// A count that does not fit shows a node with more paths than fit.
proof fn lemma_overflow(
    adj: Seq<Seq<usize>>,
    s: usize,
    order: Seq<usize>,
    dist: Seq<Option<usize>>,
    sigma: Seq<u64>,
    preds: Seq<Vec<usize>>,
    h: int,
    i: int,
    w: usize,
)
    requires
        explored(adj, s, order, dist, h, i),
        counted(adj, s, order, dist, sigma, preds, h, i),
        h < order.len(),
        i < adj[order[h] as int].len(),
        w == adj[order[h] as int][i],
        dist[w as int] is Some,
        noted(dist, w) == noted(dist, order[h]) + 1,
        sigma[order[h] as int] == walks::walks(adj, s, order[h], noted(dist, order[h])),
        sigma[w as int] + sigma[order[h] as int] > u64::MAX,
    ensures
        walks::at_distance(adj, s, w, noted(dist, w)),
        walks::walks(adj, s, w, noted(dist, w)) > u64::MAX,
{
    let v = order[h];
    let k = noted(dist, v);
    let pw = preds[w as int]@;
    let part = pw.push(v);
    assert(part.drop_last() =~= pw);
    assert(order[0] == s);
    let q = order.index_of(w);
    assert(order.contains(w) && order[q] == w);
    assert(w != s) by {
        if w == s {
            assert(noted(dist, order[0]) <= 0);
        }
    }
    assert(count_fits(adj, s, dist, sigma, preds, w));
    walks::lemma_neighbours_distinct(adj, w as int);
    walks::lemma_neighbours_distinct(adj, v as int);
    assert(adj[v as int].contains(w));
    assert(!pw.contains(v)) by {
        if pw.contains(v) {
            assert(preds[w as int]@.contains(v));
            assert(handled(adj, order, h, i, v, w));
            if order.take(h).contains(v) {
                let p = order.take(h).index_of(v);
                assert(order[p] == order[h]);
            } else {
                let p = adj[v as int].take(i).index_of(w);
                assert(adj[v as int][p] == w);
            }
        }
    }
    assert(pw.no_duplicates()) by {
        assert forall|a: int, b: int| 0 <= a < pw.len() && 0 <= b < pw.len() && a != b implies pw[a]
            != pw[b] by {
            if a < b {
                assert(order.index_of(preds[w as int]@[a]) < order.index_of(preds[w as int]@[b]));
            } else {
                assert(order.index_of(preds[w as int]@[b]) < order.index_of(preds[w as int]@[a]));
            }
        }
    }
    assert(part.no_duplicates()) by {
        assert forall|a: int, b: int|
            0 <= a < part.len() && 0 <= b < part.len() && a != b implies part[a] != part[b] by {
            if a < pw.len() {
                assert(pw.contains(pw[a]));
            }
            if b < pw.len() {
                assert(pw.contains(pw[b]));
            }
        }
    }
    assert forall|x: usize| #[trigger] part.contains(x) implies adj[w as int].contains(x) by {
        lemma_push(pw, v, x);
        if pw.contains(x) {
            assert(preds[w as int]@.contains(x));
            assert(handled(adj, order, h, i, x, w));
            if order.take(h).contains(x) {
                let p = order.take(h).index_of(x);
                assert(order[p] == x);
            }
            assert(adj[x as int].contains(w));
        }
    }
    walks::lemma_sum_part(adj, s, adj[w as int], part, k);
}

/// What holds when every reached node is finished.
proof fn lemma_finish(adj: Seq<Seq<usize>>, s: usize, p: SourcePass)
    requires
        explored(adj, s, p.order@, p.dist@, p.order@.len() as int, 0),
        counted(adj, s, p.order@, p.dist@, p.sigma@, p.preds@, p.order@.len() as int, 0),
    ensures
        p.describes(adj, s),
{
    let (order, dist, preds) = (p.order@, p.dist@, p.preds@);
    assert(order.take(order.len() as int) =~= order);
    assert forall|v: usize|
        #![trigger dist[v as int]]
        v < adj.len() implies match dist[v as int] {
        Some(d) => walks::at_distance(adj, s, v, d as nat) && p.sigma@[v as int] == walks::walks(
            adj,
            s,
            v,
            d as nat,
        ) && order.contains(v),
        None => walks::unreachable_from(adj, s, v) && p.sigma@[v as int] == 0 && !order.contains(
            v,
        ),
    } by {
        if dist[v as int] is Some {
            let q = order.index_of(v);
            assert(order[q] == v);
        } else {
            assert(order[0] == s);
            assert(count_fits(adj, s, dist, p.sigma@, preds, v));
            assert forall|k: nat| #[trigger] walks::walks(adj, s, v, k) == 0 by {
                if walks::walks(adj, s, v, k) > 0 {
                    lemma_nearer_finished(adj, s, order, dist, order.len() as int, 0, v, k);
                    let q = order.index_of(v);
                    assert(order[q] == v);
                }
            }
            if order.contains(v) {
                let q = order.index_of(v);
                assert(order[q] == v);
            }
        }
    }
}

impl Graph {
    /// The pass from one source. `None` is returned exactly when some node has
    /// more shortest paths than its counter can hold.
    pub fn single_source(&self, s: usize) -> (r: Option<SourcePass>)
        requires
            self.wf(),
            s < self.nodes@.len(),
        ensures
            match r {
                Some(p) => p.describes(self.links(), s),
                None => exists|v: usize, d: nat|
                    v < self.nodes@.len() && #[trigger] walks::at_distance(self.links(), s, v, d)
                        && walks::walks(self.links(), s, v, d) > u64::MAX,
            },
    {
        let n: usize = self.adj.len();
        let ghost adj = self.links();
        let mut order: Vec<usize> = Vec::new();
        let mut dist: Vec<Option<usize>> = Vec::new();
        let mut sigma: Vec<u64> = Vec::new();
        let mut preds: Vec<Vec<usize>> = Vec::new();
        let mut z: usize = 0;
        while z < n
            invariant
                z <= n,
                dist@.len() == z,
                sigma@.len() == z,
                preds@.len() == z,
                forall|k: int| 0 <= k < z ==> #[trigger] dist@[k] is None,
                forall|k: int| 0 <= k < z ==> #[trigger] sigma@[k] == 0,
                forall|k: int| 0 <= k < z ==> (#[trigger] preds@[k])@.len() == 0,
            decreases n - z,
        {
            dist.push(None);
            sigma.push(0);
            preds.push(Vec::new());
            z = z + 1;
        }
        dist[s] = Some(0);
        sigma[s] = 1;
        order.push(s);
        let mut h: usize = 0;
        proof {
            assert(walks::walks(adj, s, s, 0) == 1);
            assert(walks::at_distance(adj, s, s, 0));
            assert(order@ =~= seq![s]);
            assert(order@.take(0) =~= Seq::empty());
            assert(adj[s as int].take(0) =~= Seq::empty());
            assert(order@[0] == s);
            assert(explored(adj, s, order@, dist@, 0, 0));
            assert(counted(adj, s, order@, dist@, sigma@, preds@, 0, 0));
        }
        while h < order.len()
            invariant
                self.wf(),
                adj == self.links(),
                n == self.adj@.len(),
                n == self.nodes@.len(),
                explored(adj, s, order@, dist@, h as int, 0),
                counted(adj, s, order@, dist@, sigma@, preds@, h as int, 0),
            decreases n - h,
        {
            let v: usize = order[h];
            assert(v < n);
            let d: usize = dist[v].unwrap();
            let len: usize = self.adj[v].len();
            proof {
                assert(adj[v as int] == self.adj@[v as int]@);
                lemma_count_complete(adj, s, order@, dist@, sigma@, preds@, h as int);
                lemma_reached_fit(adj, s, order@, dist@, h as int);
            }
            let mut i: usize = 0;
            while i < len
                invariant
                    self.wf(),
                    adj == self.links(),
                    n == self.adj@.len(),
                    n == self.nodes@.len(),
                    i <= len,
                    h < order@.len(),
                    h < n,
                    v == order@[h as int],
                    v < n,
                    len == self.adj@[v as int]@.len(),
                    adj[v as int] == self.adj@[v as int]@,
                    dist@[v as int] == Some(d),
                    d <= h,
                    explored(adj, s, order@, dist@, h as int, i as int),
                    counted(adj, s, order@, dist@, sigma@, preds@, h as int, i as int),
                    sigma@[v as int] == walks::walks(adj, s, v, d as nat),
                decreases len - i,
            {
                let w: usize = self.adj[v][i];
                let ghost a = State { order: order@, dist: dist@, sigma: sigma@, preds: preds@ };
                assert(adj[v as int][i as int] == w);
                assert(w < n && w != v);
                let fresh = dist[w].is_none();
                if fresh {
                    proof {
                        lemma_reach(
                            adj,
                            s,
                            order@,
                            dist@,
                            h as int,
                            i as int,
                            (d + 1) as usize,
                            w,
                        );
                    }
                    dist[w] = Some(d + 1);
                    order.push(w);
                }
                let dw: usize = dist[w].unwrap();
                if dw == d + 1 {
                    proof {
                        if !fresh {
                            lemma_advance(adj, s, order@, dist@, h as int, i as int);
                        }
                    }
                    match sigma[w].checked_add(sigma[v]) {
                        Some(t) => {
                            sigma[w] = t;
                            preds[w].push(v);
                            proof {
                                let b = State {
                                    order: order@,
                                    dist: dist@,
                                    sigma: sigma@,
                                    preds: preds@,
                                };
                                lemma_note(adj, s, a, b, h as int, i as int, w);
                            }
                        },
                        None => {
                            proof {
                                if fresh {
                                    assert(count_fits(adj, s, a.dist, a.sigma, a.preds, w));
                                } else {
                                    lemma_overflow(
                                        adj,
                                        s,
                                        a.order,
                                        a.dist,
                                        a.sigma,
                                        a.preds,
                                        h as int,
                                        i as int,
                                        w,
                                    );
                                }
                            }
                            return None;
                        },
                    }
                } else {
                    proof {
                        lemma_skip(
                            adj,
                            s,
                            order@,
                            dist@,
                            sigma@,
                            preds@,
                            h as int,
                            i as int,
                            w,
                        );
                    }
                }
                i = i + 1;
            }
            proof {
                lemma_finish_node(adj, s, order@, dist@, sigma@, preds@, h as int);
            }
            h = h + 1;
        }
        let p = SourcePass { order, dist, sigma, preds };
        proof {
            lemma_finish(adj, s, p);
        }
        Some(p)
    }
}

proof fn lemma_advance(
    adj: Seq<Seq<usize>>,
    s: usize,
    order: Seq<usize>,
    dist: Seq<Option<usize>>,
    h: int,
    i: int,
)
    requires
        explored(adj, s, order, dist, h, i),
        h < order.len(),
        i < adj[order[h] as int].len(),
        dist[adj[order[h] as int][i] as int] is Some,
    ensures
        explored(adj, s, order, dist, h, i + 1),
{
}

/// No more nodes are reached than there are.
proof fn lemma_reached_fit(
    adj: Seq<Seq<usize>>,
    s: usize,
    order: Seq<usize>,
    dist: Seq<Option<usize>>,
    h: int,
)
    requires
        explored(adj, s, order, dist, h, 0),
    ensures
        order.len() <= adj.len(),
{
    order.unique_seq_to_set();
    let all = vstd::set_lib::set_int_range(0, adj.len() as int);
    vstd::set_lib::lemma_int_range(0, adj.len() as int);
    let ints = order.map_values(|v: usize| v as int);
    assert(ints.no_duplicates());
    ints.unique_seq_to_set();
    assert forall|x: int| ints.to_set().contains(x) implies all.contains(x) by {
        let k = ints.index_of(x);
        assert(order[k] < adj.len());
    }
    vstd::set_lib::lemma_len_subset(ints.to_set(), all);
}

/// A predecessor is reached before the node that it leads to. Going through the
/// order backwards, everything that is added to a node is added before the node
/// passes its own share on.
pub proof fn predecessors_come_first(
    pass: SourcePass,
    adj: Seq<Seq<usize>>,
    s: usize,
    w: usize,
    v: usize,
)
    requires
        pass.describes(adj, s),
        w < adj.len(),
        pass.preds@[w as int]@.contains(v),
    ensures
        pass.order@.contains(v),
        pass.order@.contains(w),
        pass.order@.index_of(v) < pass.order@.index_of(w),
{
    let order = pass.order@;
    assert(order.contains(v) && noted(pass.dist@, v) + 1 == noted(pass.dist@, w));
    assert(pass.dist@[w as int] is Some);
    assert(order.contains(w));
    let i = order.index_of(v);
    let j = order.index_of(w);
    if j <= i {
        assert(noted(pass.dist@, order[j]) <= noted(pass.dist@, order[i]));
    }
}

/// No predecessor is listed twice, so no share is added twice.
pub proof fn predecessors_are_distinct(pass: SourcePass, adj: Seq<Seq<usize>>, s: usize, w: usize)
    requires
        pass.describes(adj, s),
        w < adj.len(),
    ensures
        pass.preds@[w as int]@.no_duplicates(),
{
    let p = pass.preds@[w as int]@;
    assert forall|a: int, b: int| 0 <= a < p.len() && 0 <= b < p.len() && a != b implies p[a]
        != p[b] by {
        if a < b {
            assert(pass.order@.index_of(pass.preds@[w as int]@[a]) < pass.order@.index_of(
                pass.preds@[w as int]@[b],
            ));
        } else {
            assert(pass.order@.index_of(pass.preds@[w as int]@[b]) < pass.order@.index_of(
                pass.preds@[w as int]@[a],
            ));
        }
    }
}

/// The shares that are passed on, in order: the nodes are gone through from the
/// farthest to the source, and each passes its share on to its predecessors as
/// they are listed. A pair names the node that gets a share, then the one that
/// gives it.
pub open spec fn additions_of(order: Seq<usize>, preds: Seq<Vec<usize>>) -> Seq<(usize, usize)>
    decreases order.len(),
{
    if order.len() == 0 {
        Seq::empty()
    } else {
        let w = order.last();
        preds[w as int]@.map_values(|v: usize| (v, w)) + additions_of(order.drop_last(), preds)
    }
}

proof fn lemma_addition_from(order: Seq<usize>, preds: Seq<Vec<usize>>, a: int) -> (i: int)
    requires
        0 <= a < additions_of(order, preds).len(),
    ensures
        0 <= i < order.len(),
        additions_of(order, preds)[a].1 == order[i],
        preds[order[i] as int]@.contains(additions_of(order, preds)[a].0),
    decreases order.len(),
{
    let w = order.last();
    let first = preds[w as int]@.map_values(|v: usize| (v, w));
    if a < first.len() {
        assert(additions_of(order, preds)[a] == first[a]);
        assert(preds[w as int]@[a] == first[a].0);
        order.len() - 1
    } else {
        let i = lemma_addition_from(order.drop_last(), preds, a - first.len());
        assert(additions_of(order, preds)[a] == additions_of(order.drop_last(), preds)[a
            - first.len()]);
        i
    }
}

proof fn lemma_additions_descend(
    order: Seq<usize>,
    preds: Seq<Vec<usize>>,
    a: int,
    b: int,
) -> (r: (int, int))
    requires
        0 <= a <= b < additions_of(order, preds).len(),
    ensures
        0 <= r.1 <= r.0 < order.len(),
        additions_of(order, preds)[a].1 == order[r.0],
        additions_of(order, preds)[b].1 == order[r.1],
        preds[order[r.1] as int]@.contains(additions_of(order, preds)[b].0),
    decreases order.len(),
{
    let w = order.last();
    let first = preds[w as int]@.map_values(|v: usize| (v, w));
    if a < first.len() {
        assert(additions_of(order, preds)[a] == first[a]);
        let j = lemma_addition_from(order, preds, b);
        (order.len() - 1, j)
    } else {
        let f = order.drop_last();
        assert(additions_of(order, preds)[a] == additions_of(f, preds)[a - first.len()]);
        assert(additions_of(order, preds)[b] == additions_of(f, preds)[b - first.len()]);
        lemma_additions_descend(f, preds, a - first.len(), b - first.len())
    }
}

/// Once a node has passed its share on, nothing is added to it any more: the
/// share that it gives is complete.
pub proof fn shares_settle_first(
    pass: SourcePass,
    adj: Seq<Seq<usize>>,
    s: usize,
    a: int,
    b: int,
)
    requires
        pass.describes(adj, s),
        0 <= a <= b < additions_of(pass.order@, pass.preds@).len(),
    ensures
        additions_of(pass.order@, pass.preds@)[b].0 != additions_of(pass.order@, pass.preds@)[a].1,
{
    let order = pass.order@;
    let (i, j) = lemma_additions_descend(order, pass.preds@, a, b);
    let w = order[j];
    let v = additions_of(order, pass.preds@)[b].0;
    assert(order[j] < adj.len());
    predecessors_come_first(pass, adj, s, w, v);
    assert(order[order.index_of(w)] == w);
    assert(order.index_of(w) == j);
    assert(order[order.index_of(v)] == v);
}

impl SourcePass {
    /// The shares that are passed on, in order.
    pub fn additions(&self) -> (r: Vec<(usize, usize)>)
        requires
            forall|i: int|
                0 <= i < self.order@.len() ==> #[trigger] self.order@[i] < self.preds@.len(),
        ensures
            r@ == additions_of(self.order@, self.preds@),
    {
        let mut r: Vec<(usize, usize)> = Vec::new();
        let mut i: usize = self.order.len();
        let ghost all = additions_of(self.order@, self.preds@);
        proof {
            assert(self.order@.take(i as int) =~= self.order@);
            assert(r@ + all =~= all);
        }
        while i > 0
            invariant
                i <= self.order@.len(),
                forall|i: int|
                    0 <= i < self.order@.len() ==> #[trigger] self.order@[i] < self.preds@.len(),
                all == additions_of(self.order@, self.preds@),
                all == r@ + additions_of(self.order@.take(i as int), self.preds@),
            decreases i,
        {
            let w: usize = self.order[i - 1];
            let ghost before = r@;
            let ghost part = self.preds@[w as int]@.map_values(|v: usize| (v, w));
            let ghost rest = additions_of(self.order@.take(i - 1), self.preds@);
            proof {
                assert(self.order@.take(i as int).drop_last() =~= self.order@.take(i - 1));
                assert(self.order@.take(i as int).last() == w);
            }
            let preds = &self.preds[w];
            let mut k: usize = 0;
            assert(before + part.take(0) =~= before);
            while k < preds.len()
                invariant
                    k <= preds@.len(),
                    part == preds@.map_values(|v: usize| (v, w)),
                    r@ == before + part.take(k as int),
                decreases preds@.len() - k,
            {
                r.push((preds[k], w));
                assert(part.take(k + 1) =~= part.take(k as int).push((preds@[k as int], w)));
                assert(r@ =~= before + part.take(k + 1));
                k = k + 1;
            }
            proof {
                assert(part.take(k as int) =~= part);
                assert(before + (part + rest) =~= (before + part) + rest);
            }
            i = i - 1;
        }
        proof {
            assert(self.order@.take(0) =~= Seq::empty());
            assert(r@ + additions_of(self.order@.take(0), self.preds@) =~= r@);
        }
        r
    }
}

/// Every node that was reached hands on to each of its predecessors, and
/// nothing else is handed on.
pub proof fn additions_are_to_predecessors(
    order: Seq<usize>,
    preds: Seq<Vec<usize>>,
    v: usize,
    w: usize,
)
    ensures
        additions_of(order, preds).contains((v, w)) <==> order.contains(w)
            && preds[w as int]@.contains(v),
    decreases order.len(),
{
    if order.len() > 0 {
        let front = order.drop_last();
        let u = order.last();
        let head = preds[u as int]@.map_values(|x: usize| (x, u));
        let tail = additions_of(front, preds);
        let all = additions_of(order, preds);
        additions_are_to_predecessors(front, preds, v, w);
        if order.contains(w) && preds[w as int]@.contains(v) {
            if w == u {
                let i = preds[u as int]@.index_of(v);
                assert(head[i] == (v, w));
                assert(all[i] == (v, w));
            } else {
                let k = order.index_of(w);
                assert(front[k] == w);
                let i = tail.index_of((v, w));
                assert(all[head.len() + i] == (v, w));
            }
        }
        if all.contains((v, w)) {
            let i = all.index_of((v, w));
            if i < head.len() {
                assert(head[i] == (v, w));
                assert(preds[u as int]@[i] == v);
                assert(order[order.len() - 1] == w);
            } else {
                assert(tail[i - head.len()] == (v, w));
                let k = front.index_of(w);
                assert(order[k] == w);
            }
        }
    }
}

/// The node that was reached last hands on first, to its predecessors in their
/// order, and the others hand on after it as if it had not been reached.
pub proof fn last_reached_hands_on_first(order: Seq<usize>, preds: Seq<Vec<usize>>, w: usize)
    ensures
        additions_of(order.push(w), preds) == preds[w as int]@.map_values(|v: usize| (v, w))
            + additions_of(order, preds),
        additions_of(Seq::empty(), preds).len() == 0,
{
    assert(order.push(w).drop_last() =~= order);
}

} // verus!
