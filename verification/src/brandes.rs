//! The co-change graph and the breadth-first half of Brandes' betweenness.
//!
//! Betweenness sums, over all sources, each node's share of the shortest paths.
//! The sums are floating point, and floating-point addition is not
//! associative, so what has to be exact is everything that fixes the order of
//! the additions: the numbering of the nodes, the order of neighbours, the
//! order in which a source pass reaches nodes, the predecessor lists, and the
//! path counts. That is what this module computes.

use vstd::prelude::*;

use crate::sorted_map;
use crate::sorted_map::SortedMap;
use crate::walks;

verus! {

/// Sources that are worked on at a time.
pub const BATCH: usize = 256;

/// Where the batch that begins at a source ends. Batches follow on one another
/// and are folded in as they come, so every addition happens in the order of
/// the sources.
pub fn batch_end(start: usize, n: usize) -> (r: usize)
    requires
        start < n,
    ensures
        start < r <= n,
        r == if n - start > BATCH {
            start + BATCH
        } else {
            n as int
        },
{
    if n - start > BATCH {
        start + BATCH
    } else {
        n
    }
}

/// What betweenness over so many nodes is divided by; zero if there are too few
/// for a node to be between others.
pub fn normalizer(n: usize) -> (r: u128)
    ensures
        n <= 2 ==> r == 0,
        n > 2 ==> r == (n - 1) * (n - 2),
{
    if n <= 2 {
        return 0;
    }
    let a: u128 = (n - 1) as u128;
    let b: u128 = (n - 2) as u128;
    assert(a * b <= u128::MAX) by (nonlinear_arith)
        requires
            a <= u64::MAX,
            b <= u64::MAX,
    ;
    a * b
}

/// The distinct texts of a list, in the order of their first occurrence.
pub open spec fn first_seen(paths: Seq<Seq<char>>) -> Seq<Seq<char>>
    decreases paths.len(),
{
    if paths.len() == 0 {
        Seq::empty()
    } else {
        let before = first_seen(paths.drop_last());
        if before.contains(paths.last()) {
            before
        } else {
            before.push(paths.last())
        }
    }
}

/// The paths of each commit.
pub open spec fn commit_texts(per_commit: Seq<Vec<String>>) -> Seq<Seq<Seq<char>>> {
    per_commit.map_values(|c: Vec<String>| sorted_map::texts(c@))
}

/// Some commit touched both paths.
pub open spec fn changed_together(
    commits: Seq<Seq<Seq<char>>>,
    p: Seq<char>,
    q: Seq<char>,
) -> bool {
    exists|c: int|
        #![trigger commits[c]]
        0 <= c < commits.len() && commits[c].contains(p) && commits[c].contains(q)
}

/// The number of entries in all lists together.
pub open spec fn entries(adj: Seq<Seq<usize>>) -> nat
    decreases adj.len(),
{
    if adj.len() == 0 {
        0
    } else {
        entries(adj.drop_last()) + adj.last().len()
    }
}

/// Every text is listed, and none twice.
pub proof fn first_seen_lists_all(paths: Seq<Seq<char>>)
    ensures
        first_seen(paths).no_duplicates(),
        forall|p: Seq<char>| #[trigger] first_seen(paths).contains(p) <==> paths.contains(p),
    decreases paths.len(),
{
    if paths.len() > 0 {
        first_seen_lists_all(paths.drop_last());
        let before = first_seen(paths.drop_last());
        assert forall|p: Seq<char>| #[trigger] first_seen(paths).contains(p) <==> paths.contains(
            p,
        ) by {
            if paths.contains(p) {
                let j = paths.index_of(p);
                if j < paths.len() - 1 {
                    assert(paths.drop_last()[j] == p);
                    assert(before.contains(p));
                    let i = before.index_of(p);
                    assert(first_seen(paths)[i] == p);
                } else if !before.contains(p) {
                    assert(before.push(p)[before.len() as int] == p);
                }
            }
            if first_seen(paths).contains(p) {
                let i = first_seen(paths).index_of(p);
                if i < before.len() {
                    assert(before.contains(p));
                    let j = paths.drop_last().index_of(p);
                    assert(paths[j] == p);
                } else {
                    assert(paths[paths.len() - 1] == p);
                }
            }
        }
    }
}

/// Put `x` into an ascending list, unless it is there.
fn insert_ascending(v: &mut Vec<usize>, x: usize)
    requires
        forall|i: int, j: int| 0 <= i < j < old(v)@.len() ==> old(v)@[i] < old(v)@[j],
    ensures
        forall|i: int, j: int| 0 <= i < j < final(v)@.len() ==> final(v)@[i] < final(v)@[j],
        forall|y: usize| #[trigger]
            final(v)@.contains(y) <==> (y == x || old(v)@.contains(y)),
{
    let mut lo: usize = 0;
    let mut hi: usize = v.len();
    while lo < hi
        invariant
            lo <= hi <= v@.len(),
            v@ == old(v)@,
            forall|i: int, j: int| 0 <= i < j < v@.len() ==> v@[i] < v@[j],
            forall|i: int| 0 <= i < lo ==> v@[i] < x,
            forall|i: int| hi <= i < v@.len() ==> v@[i] >= x,
        decreases hi - lo,
    {
        let mid: usize = lo + (hi - lo) / 2;
        if v[mid] < x {
            lo = mid + 1;
        } else {
            hi = mid;
        }
    }
    let ghost o = v@;
    if lo < v.len() && v[lo] == x {
        return;
    }
    v.insert(lo, x);
    proof {
        assert(v@ =~= o.insert(lo as int, x));
        assert forall|y: usize| #[trigger] v@.contains(y) <==> (y == x || o.contains(y)) by {
            if o.contains(y) {
                let j = o.index_of(y);
                assert(v@[if j < lo { j } else { j + 1 }] == y);
            }
            if y == x {
                assert(v@[lo as int] == y);
            }
            if v@.contains(y) && y != x {
                let j = v@.index_of(y);
                assert(o[if j < lo { j } else { j - 1 }] == y);
            }
        }
    }
}

/// Files as nodes, an edge between any two that some commit touched together.
pub struct Graph {
    /// Node index to path, in first-seen order.
    pub nodes: Vec<String>,
    /// Node index to neighbour indices, ascending.
    pub adj: Vec<Vec<usize>>,
}

impl Graph {
    /// The neighbour list of each node.
    pub open spec fn links(&self) -> Seq<Seq<usize>> {
        self.adj@.map_values(|v: Vec<usize>| v@)
    }

    /// Distinct nodes, and adjacency between exactly them.
    pub open spec fn wf(&self) -> bool {
        &&& sorted_map::texts(self.nodes@).no_duplicates()
        &&& self.links().len() == self.nodes@.len()
        &&& walks::is_adjacency(self.links())
    }

    /// The graph of a list of commits, each given by the paths it touched.
    /// Nodes are numbered as they are first seen; two different paths are
    /// neighbours exactly when some commit holds both.
    pub fn from_commit_paths(per_commit: &[Vec<String>]) -> (g: Graph)
        ensures
            g.wf(),
            sorted_map::texts(g.nodes@) == first_seen(commit_texts(per_commit@).flatten()),
            forall|a: usize, b: usize|
                #![trigger g.links()[a as int].contains(b)]
                a < g.nodes@.len() && b < g.nodes@.len() ==> (g.links()[a as int].contains(b)
                    <==> a != b && changed_together(
                    commit_texts(per_commit@),
                    g.nodes@[a as int]@,
                    g.nodes@[b as int]@,
                )),
    {
        let ghost pc = commit_texts(per_commit@);
        let mut nodes: Vec<String> = Vec::new();
        let mut index: SortedMap<usize> = SortedMap::new();
        let mut idxs: Vec<Vec<usize>> = Vec::new();
        proof {
            assert(pc.take(0) =~= Seq::empty());
            assert(sorted_map::texts(nodes@) =~= first_seen(pc.take(0).flatten()));
        }
        let mut c: usize = 0;
        while c < per_commit.len()
            invariant
                c <= per_commit@.len(),
                pc == commit_texts(per_commit@),
                sorted_map::texts(nodes@) == first_seen(pc.take(c as int).flatten()),
                numbered(nodes@, index),
                idxs@.len() == c,
                forall|k: int| 0 <= k < c ==> #[trigger] names(nodes@, idxs@[k]@, pc[k]),
            decreases per_commit@.len() - c,
        {
            let commit = &per_commit[c];
            let ghost base = pc.take(c as int).flatten();
            let mut row: Vec<usize> = Vec::new();
            let mut j: usize = 0;
            proof {
                assert(pc[c as int] == sorted_map::texts(commit@));
                assert(base + pc[c as int].take(0) =~= base);
            }
            while j < commit.len()
                invariant
                    c < per_commit@.len(),
                    j <= commit@.len(),
                    pc == commit_texts(per_commit@),
                    *commit == per_commit@[c as int],
                    pc[c as int] == sorted_map::texts(commit@),
                    sorted_map::texts(nodes@) == first_seen(base + pc[c as int].take(j as int)),
                    numbered(nodes@, index),
                    idxs@.len() == c,
                    forall|k: int| 0 <= k < c ==> #[trigger] names(nodes@, idxs@[k]@, pc[k]),
                    names(nodes@, row@, pc[c as int].take(j as int)),
                decreases commit@.len() - j,
            {
                let p = commit[j].as_str();
                let ghost seen = base + pc[c as int].take(j as int);
                let ghost nodes0 = nodes@;
                let ghost index0 = index;
                let i: usize = match index.get(p) {
                    Some(i) => *i,
                    None => {
                        let i: usize = nodes.len();
                        nodes.push(p.to_owned());
                        index.put(p, i);
                        i
                    },
                };
                row.push(i);
                proof {
                    let now = base + pc[c as int].take(j + 1);
                    assert(now.drop_last() =~= seen);
                    assert(now.last() == p@);
                    index0.wf_keys();
                    assert(sorted_map::texts(nodes0).contains(p@) <==> index0@.contains_key(p@));
                    if index0@.contains_key(p@) {
                        assert(nodes@ == nodes0);
                    } else {
                        assert(sorted_map::texts(nodes@) =~= sorted_map::texts(nodes0).push(p@));
                        lemma_numbered_push(nodes0, index0, nodes@, index, p@);
                    }
                    assert(sorted_map::texts(nodes@) == first_seen(now));
                    assert(nodes@[i as int]@ == p@);
                    assert forall|k: int| 0 <= k < c implies #[trigger] names(
                        nodes@,
                        idxs@[k]@,
                        pc[k],
                    ) by {
                        assert(names(nodes0, idxs@[k]@, pc[k]));
                    }
                    assert(names(nodes@, row@, pc[c as int].take(j + 1)));
                }
                j = j + 1;
            }
            proof {
                assert(pc[c as int].take(j as int) =~= pc[c as int]);
                assert(pc.take(c + 1) =~= pc.take(c as int).push(pc[c as int]));
                pc.take(c as int).lemma_flatten_push(pc[c as int]);
            }
            idxs.push(row);
            c = c + 1;
        }
        proof {
            assert(pc.take(c as int) =~= pc);
            first_seen_lists_all(pc.flatten());
        }
        let n: usize = nodes.len();
        proof {
            assert forall|k: int, x: int|
                #![trigger idxs@[k]@[x]]
                0 <= k < idxs@.len() && 0 <= x < idxs@[k]@.len() implies idxs@[k]@[x] < n by {
                assert(names(nodes@, idxs@[k]@, pc[k]));
            }
        }
        let adj = Self::clique_union(n, &idxs);
        let g = Graph { nodes, adj };
        proof {
            assert(g.links().len() == n);
            assert forall|a: usize, b: usize|
                #![trigger g.links()[a as int].contains(b)]
                a < n && b < n implies (g.links()[a as int].contains(b) <==> a != b
                && changed_together(pc, nodes@[a as int]@, nodes@[b as int]@)) by {
                let pa = nodes@[a as int]@;
                let pb = nodes@[b as int]@;
                assert(sorted_map::texts(nodes@)[a as int] == pa);
                assert(sorted_map::texts(nodes@)[b as int] == pb);
                if in_one_row(idxs@, a, b) {
                    let k = choose|k: int|
                        #![trigger idxs@[k]]
                        0 <= k < idxs@.len() && idxs@[k]@.contains(a) && idxs@[k]@.contains(b);
                    assert(names(nodes@, idxs@[k]@, pc[k]));
                    let x = idxs@[k]@.index_of(a);
                    let y = idxs@[k]@.index_of(b);
                    assert(pc[k][x] == pa);
                    assert(pc[k][y] == pb);
                    assert(pc[k].contains(pa) && pc[k].contains(pb));
                }
                if changed_together(pc, pa, pb) {
                    let k = choose|k: int|
                        #![trigger pc[k]]
                        0 <= k < pc.len() && pc[k].contains(pa) && pc[k].contains(pb);
                    assert(names(nodes@, idxs@[k]@, pc[k]));
                    let x = pc[k].index_of(pa);
                    let y = pc[k].index_of(pb);
                    assert(sorted_map::texts(nodes@)[idxs@[k]@[x] as int] == pa);
                    assert(sorted_map::texts(nodes@)[idxs@[k]@[y] as int] == pb);
                    assert(idxs@[k]@[x] == a);
                    assert(idxs@[k]@[y] == b);
                    assert(idxs@[k]@.contains(a) && idxs@[k]@.contains(b));
                }
            }
        }
        g
    }

    /// For each of `n` nodes the ascending list of the others that share a row
    /// with it.
    fn clique_union(n: usize, rows: &Vec<Vec<usize>>) -> (adj: Vec<Vec<usize>>)
        requires
            forall|k: int, x: int|
                #![trigger rows@[k]@[x]]
                0 <= k < rows@.len() && 0 <= x < rows@[k]@.len() ==> rows@[k]@[x] < n,
        ensures
            adj@.len() == n,
            walks::is_adjacency(adj@.map_values(|v: Vec<usize>| v@)),
            forall|a: usize, b: usize|
                #![trigger adj@[a as int]@.contains(b)]
                a < n ==> (adj@[a as int]@.contains(b) <==> a != b && in_one_row(rows@, a, b)),
    {
        let mut adj: Vec<Vec<usize>> = Vec::new();
        let mut v: usize = 0;
        while v < n
            invariant
                v <= n,
                adj@.len() == v,
                forall|a: int| 0 <= a < v ==> (#[trigger] adj@[a])@.len() == 0,
            decreases n - v,
        {
            adj.push(Vec::new());
            v = v + 1;
        }
        let mut k: usize = 0;
        while k < rows.len()
            invariant
                k <= rows@.len(),
                adj@.len() == n,
                forall|k: int, x: int|
                    #![trigger rows@[k]@[x]]
                    0 <= k < rows@.len() && 0 <= x < rows@[k]@.len() ==> rows@[k]@[x] < n,
                all_ascending(adj@),
                forall|a: usize, b: usize|
                    #![trigger adj@[a as int]@.contains(b)]
                    a < n ==> (adj@[a as int]@.contains(b) <==> a != b && in_one_row(
                        rows@.take(k as int),
                        a,
                        b,
                    )),
            decreases rows@.len() - k,
        {
            let row = &rows[k];
            let ghost done = rows@.take(k as int);
            let mut x: usize = 0;
            while x < row.len()
                invariant
                    x <= row@.len(),
                    k < rows@.len(),
                    *row == rows@[k as int],
                    adj@.len() == n,
                    forall|x: int| 0 <= x < row@.len() ==> #[trigger] row@[x] < n,
                    all_ascending(adj@),
                    forall|a: usize, b: usize|
                        #![trigger adj@[a as int]@.contains(b)]
                        a < n ==> (adj@[a as int]@.contains(b) <==> a != b && (in_one_row(
                            done,
                            a,
                            b,
                        ) || row@.take(x as int).contains(a) && row@.contains(b))),
                decreases row@.len() - x,
            {
                let a: usize = row[x];
                let mut y: usize = 0;
                while y < row.len()
                    invariant
                        x < row@.len(),
                        y <= row@.len(),
                        a == row@[x as int],
                        a < n,
                        adj@.len() == n,
                        forall|x: int| 0 <= x < row@.len() ==> #[trigger] row@[x] < n,
                        all_ascending(adj@),
                        forall|p: usize, q: usize|
                            #![trigger adj@[p as int]@.contains(q)]
                            p < n ==> (adj@[p as int]@.contains(q) <==> p != q && (in_one_row(
                                done,
                                p,
                                q,
                            ) || row@.take(x as int).contains(p) && row@.contains(q) || p == a
                                && row@.take(y as int).contains(q))),
                    decreases row@.len() - y,
                {
                    let b: usize = row[y];
                    let ghost before = adj@;
                    if a != b {
                        assert(all_ascending(adj@));
                        insert_ascending(&mut adj[a], b);
                    }
                    proof {
                        assert(row@.take(y + 1) =~= row@.take(y as int).push(b));
                        assert forall|p: usize, q: usize|
                            #![trigger adj@[p as int]@.contains(q)]
                            p < n implies (adj@[p as int]@.contains(q) <==> p != q && (in_one_row(
                            done,
                            p,
                            q,
                        ) || row@.take(x as int).contains(p) && row@.contains(q) || p == a
                            && row@.take(y + 1).contains(q))) by {
                            lemma_push_contains(row@.take(y as int), b, q);
                            assert(before[p as int]@.contains(q) <==> p != q && (in_one_row(
                                done,
                                p,
                                q,
                            ) || row@.take(x as int).contains(p) && row@.contains(q) || p == a
                                && row@.take(y as int).contains(q)));
                        }
                    }
                    y = y + 1;
                }
                proof {
                    assert(row@.take(y as int) =~= row@);
                    assert(row@.take(x + 1) =~= row@.take(x as int).push(a));
                    assert forall|p: usize, q: usize|
                        #![trigger adj@[p as int]@.contains(q)]
                        p < n implies (adj@[p as int]@.contains(q) <==> p != q && (in_one_row(
                        done,
                        p,
                        q,
                    ) || row@.take(x + 1).contains(p) && row@.contains(q))) by {
                        lemma_push_contains(row@.take(x as int), a, p);
                    }
                }
                x = x + 1;
            }
            proof {
                assert(row@.take(x as int) =~= row@);
                let next = rows@.take(k + 1);
                assert(next =~= done.push(rows@[k as int]));
                assert forall|a: usize, b: usize|
                    #![trigger adj@[a as int]@.contains(b)]
                    a < n implies (adj@[a as int]@.contains(b) <==> a != b && in_one_row(
                    next,
                    a,
                    b,
                )) by {
                    if in_one_row(done, a, b) {
                        let t = choose|t: int|
                            #![trigger done[t]]
                            0 <= t < done.len() && done[t]@.contains(a) && done[t]@.contains(b);
                        assert(next[t] == done[t]);
                    }
                    if row@.contains(a) && row@.contains(b) {
                        assert(next[k as int]@ == row@);
                    }
                    if in_one_row(next, a, b) {
                        let t = choose|t: int|
                            #![trigger next[t]]
                            0 <= t < next.len() && next[t]@.contains(a) && next[t]@.contains(b);
                        if t < k {
                            assert(done[t] == next[t]);
                        }
                    }
                }
            }
            k = k + 1;
        }
        proof {
            assert(rows@.take(k as int) =~= rows@);
            let s = adj@.map_values(|v: Vec<usize>| v@);
            assert forall|v: int, i: int|
                #![trigger s[v][i]]
                0 <= v < s.len() && 0 <= i < s[v].len() implies s[v][i] < s.len() && s[v][i]
                != v by {
                let b = s[v][i];
                assert(adj@[(v as usize) as int]@.contains(b));
                let t = choose|t: int|
                    #![trigger rows@[t]]
                    0 <= t < rows@.len() && rows@[t]@.contains(v as usize) && rows@[t]@.contains(b);
                let y = rows@[t]@.index_of(b);
                assert(rows@[t]@[y] < n);
            }
            assert forall|v: usize, w: usize|
                #![trigger s[v as int].contains(w)]
                v < s.len() && w < s.len() && s[v as int].contains(w) implies s[w as int].contains(
                v,
            ) by {
                assert(adj@[v as int]@.contains(w));
                let t = choose|t: int|
                    #![trigger rows@[t]]
                    0 <= t < rows@.len() && rows@[t]@.contains(v) && rows@[t]@.contains(w);
                assert(in_one_row(rows@, w, v));
                assert(adj@[w as int]@.contains(v));
            }
            assert forall|v: int, i: int, j: int|
                #![trigger s[v][i], s[v][j]]
                0 <= v < s.len() && 0 <= i < j < s[v].len() implies s[v][i] < s[v][j] by {
                assert(adj@[v]@[i] < adj@[v]@[j]);
            }
        }
        adj
    }

    /// How many nodes there are.
    pub fn node_count(&self) -> (r: usize)
        ensures
            r == self.nodes@.len(),
    {
        self.nodes.len()
    }

    /// Directed adjacency entries: twice the number of edges.
    pub fn degree_entries(&self) -> (r: usize)
        requires
            entries(self.links()) <= usize::MAX,
        ensures
            r == entries(self.links()),
    {
        let mut sum: usize = 0;
        let mut v: usize = 0;
        let ghost s = self.links();
        assert(s.take(0) =~= Seq::empty());
        while v < self.adj.len()
            invariant
                v <= self.adj@.len(),
                s == self.links(),
                s.len() == self.adj@.len(),
                entries(s) <= usize::MAX,
                sum == entries(s.take(v as int)),
            decreases self.adj@.len() - v,
        {
            proof {
                assert(s.take(v + 1).drop_last() =~= s.take(v as int));
                assert(s.take(v + 1).last() == self.adj@[v as int]@);
                lemma_entries_take(s, v + 1);
            }
            sum = sum + self.adj[v].len();
            v = v + 1;
        }
        assert(s.take(v as int) =~= s);
        sum
    }
}

proof fn lemma_entries_take(s: Seq<Seq<usize>>, k: int)
    requires
        0 <= k <= s.len(),
    ensures
        entries(s.take(k)) <= entries(s),
    decreases s.len() - k,
{
    if k == s.len() {
        assert(s.take(k) =~= s);
    } else {
        lemma_entries_take(s, k + 1);
        assert(s.take(k + 1).drop_last() =~= s.take(k));
    }
}

proof fn lemma_push_contains(s: Seq<usize>, x: usize, y: usize)
    ensures
        s.push(x).contains(y) <==> (y == x || s.contains(y)),
{
    if s.contains(y) {
        let i = s.index_of(y);
        assert(s.push(x)[i] == y);
    }
    assert(s.push(x)[s.len() as int] == x);
    if s.push(x).contains(y) && y != x {
        let i = s.push(x).index_of(y);
        assert(s[i] == y);
    }
}

/// Some row holds both.
spec fn in_one_row(rows: Seq<Vec<usize>>, a: usize, b: usize) -> bool {
    exists|k: int|
        #![trigger rows[k]]
        0 <= k < rows.len() && rows[k]@.contains(a) && rows[k]@.contains(b)
}

spec fn all_ascending(adj: Seq<Vec<usize>>) -> bool {
    forall|v: int, i: int, j: int|
        #![trigger adj[v]@[i], adj[v]@[j]]
        0 <= v < adj.len() && 0 <= i < j < adj[v]@.len() ==> adj[v]@[i] < adj[v]@[j]
}

/// `row` lists, by number, the nodes called `paths`.
spec fn names(nodes: Seq<String>, row: Seq<usize>, paths: Seq<Seq<char>>) -> bool {
    &&& row.len() == paths.len()
    &&& forall|x: int|
        #![trigger row[x]]
        #![trigger paths[x]]
        0 <= x < row.len() ==> row[x] < nodes.len() && nodes[row[x] as int]@ == paths[x]
}

/// `index` gives each node its number.
spec fn numbered(nodes: Seq<String>, index: SortedMap<usize>) -> bool {
    &&& index.wf()
    &&& forall|p: Seq<char>|
        #![trigger index@.contains_key(p)]
        index@.contains_key(p) <==> sorted_map::texts(nodes).contains(p)
    &&& forall|p: Seq<char>|
        #![trigger index@[p]]
        index@.contains_key(p) ==> index@[p] < nodes.len() && nodes[index@[p] as int]@ == p
}

proof fn lemma_numbered_push(
    nodes0: Seq<String>,
    index0: SortedMap<usize>,
    nodes: Seq<String>,
    index: SortedMap<usize>,
    p: Seq<char>,
)
    requires
        numbered(nodes0, index0),
        nodes.len() == nodes0.len() + 1,
        nodes0.len() <= usize::MAX,
        forall|i: int| 0 <= i < nodes0.len() ==> nodes[i] == nodes0[i],
        nodes.last()@ == p,
        index.wf(),
        index@ == index0@.insert(p, nodes0.len() as usize),
    ensures
        numbered(nodes, index),
{
    let t0 = sorted_map::texts(nodes0);
    let t = sorted_map::texts(nodes);
    assert forall|q: Seq<char>|
        #![trigger index@.contains_key(q)]
        index@.contains_key(q) <==> t.contains(q) by {
        if t0.contains(q) {
            let i = t0.index_of(q);
            assert(t[i] == q);
            assert(index0@.contains_key(q));
        }
        assert(t[nodes0.len() as int] == p);
        if t.contains(q) && q != p {
            let i = t.index_of(q);
            assert(t0[i] == q);
            assert(index0@.contains_key(q));
        }
        if index0@.contains_key(q) {
            assert(t0.contains(q));
        }
    }
}

/// Texts are listed in the order in which they first occur: what stands before
/// another one occurs before any occurrence of the other.
pub proof fn first_seen_keeps_order(paths: Seq<Seq<char>>, i: int, j: int, y: int) -> (x: int)
    requires
        0 <= i < j < first_seen(paths).len(),
        0 <= y < paths.len(),
        paths[y] == first_seen(paths)[j],
    ensures
        0 <= x < y,
        paths[x] == first_seen(paths)[i],
    decreases paths.len(),
{
    let front = paths.drop_last();
    let before = first_seen(front);
    let all = first_seen(paths);
    first_seen_lists_all(front);
    first_seen_lists_all(paths);
    if j < before.len() {
        assert(all[i] == before[i] && all[j] == before[j]);
        if y < front.len() {
            assert(front[y] == paths[y]);
            first_seen_keeps_order(front, i, j, y)
        } else {
            assert(before.contains(before[j]));
            let z = front.index_of(before[j]);
            assert(front.contains(before[j]));
            assert(front[z] == before[j]);
            first_seen_keeps_order(front, i, j, z)
        }
    } else {
        assert(all[i] == before[i]);
        assert(before.contains(before[i]));
        assert(front.contains(before[i]));
        let x = front.index_of(before[i]);
        assert(!before.contains(paths.last()));
        if y < front.len() {
            assert(front[y] == paths[y]);
            assert(front.contains(paths.last()));
            assert(before.contains(paths.last()));
        }
        assert(paths[x] == front[x]);
        x
    }
}

/// The entries of all lists are counted one list after the other.
pub proof fn entries_are_added_up(adj: Seq<Seq<usize>>)
    ensures
        entries(adj) == adj.fold_left(0int, |n: int, l: Seq<usize>| n + l.len()),
    decreases adj.len(),
{
    if adj.len() > 0 {
        entries_are_added_up(adj.drop_last());
    }
}

/// Two paths are changed together where one commit's list holds both, whichever
/// commit it is and whichever path is named first; and only there.
pub proof fn one_commit_joins_its_paths(
    commits: Seq<Seq<Seq<char>>>,
    c: int,
    p: Seq<char>,
    q: Seq<char>,
)
    ensures
        0 <= c < commits.len() && commits[c].contains(p) && commits[c].contains(q)
            ==> changed_together(commits, p, q) && changed_together(commits, q, p),
        (forall|k: int|
            0 <= k < commits.len() ==> !((#[trigger] commits[k]).contains(p) && commits[k].contains(
                q,
            ))) ==> !changed_together(commits, p, q),
{
}

} // verus!
