//! What the co-change graph says of each file.

use vstd::prelude::*;

use crate::addresses;
use crate::brandes;
use crate::ieee;
use crate::order;
use crate::replay;
use crate::sorted_map;
use crate::sorted_map::SortedMap;

verus! {

/// `entropyx_graph::CoChangeGraph`: paths, joined by the commits that touched
/// both.
#[verifier::external_type_specification]
#[verifier::external_body]
pub struct ExCoChangeGraph(entropyx_graph::CoChangeGraph);

/// The paths of a graph, by number.
pub uninterp spec fn graph_paths(g: entropyx_graph::CoChangeGraph) -> Seq<Seq<char>>;

/// The weight of every two paths that are joined.
pub uninterp spec fn graph_weights(
    g: entropyx_graph::CoChangeGraph,
) -> Map<(Seq<char>, Seq<char>), nat>;

/// The weight of two paths; zero if they are not joined.
pub open spec fn weight_in(
    weights: Map<(Seq<char>, Seq<char>), nat>,
    p: Seq<char>,
    q: Seq<char>,
) -> nat {
    if weights.contains_key((p, q)) {
        weights[(p, q)]
    } else {
        0
    }
}

/// The weights of a path with each of the others, added up.
pub open spec fn weight_sum(
    weights: Map<(Seq<char>, Seq<char>), nat>,
    p: Seq<char>,
    others: Seq<Seq<char>>,
) -> nat
    decreases others.len(),
{
    if others.len() == 0 {
        0
    } else {
        weight_sum(weights, p, others.drop_last()) + weight_in(weights, p, others.last())
    }
}

/// In how many ways a list pairs two different paths: in one if it holds each
/// of them once.
pub open spec fn pairs_in(list: Seq<Seq<char>>, p: Seq<char>, q: Seq<char>) -> nat {
    if p == q {
        0
    } else {
        addresses::times(list, p) * addresses::times(list, q)
    }
}

/// How often two paths were changed together: the ways in which the lists pair
/// them, added up over the commits.
pub open spec fn together(commits: Seq<Seq<Seq<char>>>, p: Seq<char>, q: Seq<char>) -> nat
    decreases commits.len(),
{
    if commits.len() == 0 {
        0
    } else {
        together(commits.drop_last(), p, q) + pairs_in(commits.last(), p, q)
    }
}

/// No commit lists a path twice.
pub open spec fn distinct_lists(commits: Seq<Seq<Seq<char>>>) -> bool {
    forall|c: int| 0 <= c < commits.len() ==> (#[trigger] commits[c]).no_duplicates()
}

/// How many entries of other paths stand beside each entry of this one, added
/// up over the commits.
pub open spec fn degree_in(commits: Seq<Seq<Seq<char>>>, p: Seq<char>) -> nat
    decreases commits.len(),
{
    if commits.len() == 0 {
        0
    } else {
        let n = addresses::times(commits.last(), p);
        degree_in(commits.drop_last(), p) + n * (commits.last().len() - n) as nat
    }
}

/// `entropyx_graph::CoChangeGraph::from_commit_paths` numbers the paths of all
/// lists in the order in which they first occur, and weighs every two of them
/// by how often they were changed together.
#[verifier::external_body]
fn graph_of(per_commit: &Vec<Vec<String>>) -> (r: entropyx_graph::CoChangeGraph)
    ensures
        graph_paths(r) == brandes::first_seen(brandes::commit_texts(per_commit@).flatten()),
        forall|p: Seq<char>, q: Seq<char>| #[trigger]
            weight_in(graph_weights(r), p, q) == together(brandes::commit_texts(per_commit@), p, q),
{
    entropyx_graph::CoChangeGraph::from_commit_paths(per_commit)
}

/// `entropyx_graph::CoChangeGraph::nodes` lists the paths.
#[verifier::external_body]
fn graph_nodes(g: &entropyx_graph::CoChangeGraph) -> (r: Vec<String>)
    ensures
        sorted_map::texts(r@) == graph_paths(*g),
{
    g.nodes().to_vec()
}

/// `entropyx_graph::CoChangeGraph::weighted_degree` adds up the weights of a
/// path with all paths. A weight grows by one at a time, so the sum stays
/// within 64 bits.
#[verifier::external_body]
fn graph_degree(g: &entropyx_graph::CoChangeGraph, path: &str) -> (r: u64)
    ensures
        r == weight_sum(graph_weights(*g), path@, graph_paths(*g)),
{
    g.weighted_degree(path)
}

/// How often the paths of `others` occur in a list, added up.
spec fn times_sum(list: Seq<Seq<char>>, others: Seq<Seq<char>>) -> nat
    decreases others.len(),
{
    if others.len() == 0 {
        0
    } else {
        times_sum(list, others.drop_last()) + addresses::times(list, others.last())
    }
}

/// The ways in which a list pairs a path with each of the others, added up.
spec fn pairs_sum(list: Seq<Seq<char>>, p: Seq<char>, others: Seq<Seq<char>>) -> nat
    decreases others.len(),
{
    if others.len() == 0 {
        0
    } else {
        pairs_sum(list, p, others.drop_last()) + pairs_in(list, p, others.last())
    }
}

proof fn lemma_times_sum_push(list: Seq<Seq<char>>, others: Seq<Seq<char>>)
    requires
        list.len() > 0,
        others.no_duplicates(),
    ensures
        times_sum(list, others) == times_sum(list.drop_last(), others) + if others.contains(
            list.last(),
        ) {
            1nat
        } else {
            0
        },
    decreases others.len(),
{
    if others.len() > 0 {
        let f = others.drop_last();
        lemma_times_sum_push(list, f);
        let x = list.last();
        if f.contains(x) {
            let i = choose|i: int| 0 <= i < f.len() && f[i] == x;
            assert(others[i] == x);
            assert(others[others.len() - 1] != others[i]);
        }
        if others.contains(x) && others.last() != x {
            let i = choose|i: int| 0 <= i < others.len() && others[i] == x;
            assert(f[i] == x);
        }
        assert(others[others.len() - 1] == others.last());
    }
}

proof fn lemma_times_sum_is_len(list: Seq<Seq<char>>, others: Seq<Seq<char>>)
    requires
        others.no_duplicates(),
        forall|x: Seq<char>| #[trigger] list.contains(x) ==> others.contains(x),
    ensures
        times_sum(list, others) == list.len(),
    decreases list.len(),
{
    if list.len() == 0 {
        lemma_times_sum_of_none(list, others);
    } else {
        let f = list.drop_last();
        assert forall|x: Seq<char>| #[trigger] f.contains(x) implies others.contains(x) by {
            let i = choose|i: int| 0 <= i < f.len() && f[i] == x;
            assert(list[i] == x);
            assert(list.contains(x));
        }
        lemma_times_sum_is_len(f, others);
        lemma_times_sum_push(list, others);
        assert(list.contains(list[list.len() - 1]));
    }
}

proof fn lemma_times_sum_of_none(list: Seq<Seq<char>>, others: Seq<Seq<char>>)
    requires
        list.len() == 0,
    ensures
        times_sum(list, others) == 0,
    decreases others.len(),
{
    if others.len() > 0 {
        lemma_times_sum_of_none(list, others.drop_last());
    }
}

proof fn lemma_pairs_sum(list: Seq<Seq<char>>, p: Seq<char>, others: Seq<Seq<char>>)
    requires
        others.no_duplicates(),
    ensures
        pairs_sum(list, p, others) + if others.contains(p) {
            addresses::times(list, p) * addresses::times(list, p)
        } else {
            0
        } == addresses::times(list, p) * times_sum(list, others),
    decreases others.len(),
{
    let n = addresses::times(list, p);
    if others.len() == 0 {
        assert(n * 0 == 0) by (nonlinear_arith);
    } else {
        let f = others.drop_last();
        let q = others.last();
        assert(f.no_duplicates());
        lemma_pairs_sum(list, p, f);
        let m = addresses::times(list, q);
        let t = times_sum(list, f);
        assert(n * (t + m) == n * t + n * m) by (nonlinear_arith);
        if f.contains(p) {
            let i = choose|i: int| 0 <= i < f.len() && f[i] == p;
            assert(others[i] == p);
            assert(others[others.len() - 1] != others[i]);
        }
        if others.contains(p) && q != p {
            let i = choose|i: int| 0 <= i < others.len() && others[i] == p;
            assert(f[i] == p);
        }
        assert(others[others.len() - 1] == q);
    }
}

/// One list adds, for each entry of a path, the entries of the others.
proof fn lemma_pairs_of_list(list: Seq<Seq<char>>, p: Seq<char>, others: Seq<Seq<char>>)
    requires
        others.no_duplicates(),
        forall|x: Seq<char>| #[trigger] list.contains(x) ==> others.contains(x),
    ensures
        pairs_sum(list, p, others) == addresses::times(list, p) * (list.len() - addresses::times(
            list,
            p,
        )),
        addresses::times(list, p) <= list.len(),
{
    let n = addresses::times(list, p);
    let k = list.len();
    lemma_times_sum_is_len(list, others);
    lemma_pairs_sum(list, p, others);
    addresses::times_bounded(list, p);
    if !others.contains(p) {
        lemma_times_of_absent(list, p);
    }
    assert(n * (k - n) == n * k - n * n) by (nonlinear_arith);
}

proof fn lemma_times_of_absent(list: Seq<Seq<char>>, p: Seq<char>)
    requires
        !list.contains(p),
    ensures
        addresses::times(list, p) == 0,
    decreases list.len(),
{
    if list.len() > 0 {
        let f = list.drop_last();
        assert(list[list.len() - 1] == list.last());
        if f.contains(p) {
            let i = choose|i: int| 0 <= i < f.len() && f[i] == p;
            assert(list[i] == p);
        }
        lemma_times_of_absent(f, p);
    }
}

spec fn together_sum(
    commits: Seq<Seq<Seq<char>>>,
    p: Seq<char>,
    others: Seq<Seq<char>>,
) -> nat
    decreases others.len(),
{
    if others.len() == 0 {
        0
    } else {
        together_sum(commits, p, others.drop_last()) + together(commits, p, others.last())
    }
}

proof fn lemma_together_sum_push(
    commits: Seq<Seq<Seq<char>>>,
    p: Seq<char>,
    others: Seq<Seq<char>>,
)
    ensures
        commits.len() == 0 ==> together_sum(commits, p, others) == 0,
        commits.len() > 0 ==> together_sum(commits, p, others) == together_sum(
            commits.drop_last(),
            p,
            others,
        ) + pairs_sum(commits.last(), p, others),
    decreases others.len(),
{
    if others.len() > 0 {
        lemma_together_sum_push(commits, p, others.drop_last());
    }
}

proof fn lemma_together_sum(commits: Seq<Seq<Seq<char>>>, p: Seq<char>, others: Seq<Seq<char>>)
    requires
        others.no_duplicates(),
        forall|c: int, x: Seq<char>|
            0 <= c < commits.len() && #[trigger] commits[c].contains(x) ==> others.contains(x),
    ensures
        together_sum(commits, p, others) == degree_in(commits, p),
    decreases commits.len(),
{
    lemma_together_sum_push(commits, p, others);
    if commits.len() > 0 {
        let f = commits.drop_last();
        assert forall|c: int, x: Seq<char>|
            0 <= c < f.len() && #[trigger] f[c].contains(x) implies others.contains(x) by {
            assert(f[c] == commits[c]);
            assert(commits[c].contains(x));
        }
        lemma_together_sum(f, p, others);
        let last = commits.last();
        assert forall|x: Seq<char>| #[trigger] last.contains(x) implies others.contains(x) by {
            assert(commits[commits.len() - 1].contains(x));
        }
        lemma_pairs_of_list(last, p, others);
    }
}

proof fn lemma_weight_sum(
    weights: Map<(Seq<char>, Seq<char>), nat>,
    commits: Seq<Seq<Seq<char>>>,
    p: Seq<char>,
    others: Seq<Seq<char>>,
)
    requires
        forall|x: Seq<char>, y: Seq<char>| #[trigger]
            weight_in(weights, x, y) == together(commits, x, y),
    ensures
        weight_sum(weights, p, others) == together_sum(commits, p, others),
    decreases others.len(),
{
    if others.len() > 0 {
        lemma_weight_sum(weights, commits, p, others.drop_last());
        assert(weight_in(weights, p, others.last()) == together(commits, p, others.last()));
    }
}

/// The weights of a path with all paths of the lists add up to its degree.
proof fn lemma_degree(
    weights: Map<(Seq<char>, Seq<char>), nat>,
    commits: Seq<Seq<Seq<char>>>,
    p: Seq<char>,
)
    requires
        forall|x: Seq<char>, y: Seq<char>| #[trigger]
            weight_in(weights, x, y) == together(commits, x, y),
    ensures
        weight_sum(weights, p, brandes::first_seen(commits.flatten())) == degree_in(commits, p),
{
    let names = brandes::first_seen(commits.flatten());
    brandes::first_seen_lists_all(commits.flatten());
    assert forall|c: int, x: Seq<char>|
        0 <= c < commits.len() && #[trigger] commits[c].contains(x) implies names.contains(x) by {
        lemma_in_flat(commits, c, x);
    }
    lemma_weight_sum(weights, commits, p, names);
    lemma_together_sum(commits, p, names);
}

proof fn lemma_in_flat(commits: Seq<Seq<Seq<char>>>, c: int, x: Seq<char>)
    requires
        0 <= c < commits.len(),
        commits[c].contains(x),
    ensures
        commits.flatten().contains(x),
    decreases commits.len(),
{
    let first = commits[0];
    let rest = commits.drop_first().flatten();
    assert(commits.flatten() == first + rest);
    if c == 0 {
        let i = choose|i: int| 0 <= i < first.len() && first[i] == x;
        assert((first + rest)[i] == x);
    } else {
        assert(commits.drop_first()[c - 1] == commits[c]);
        lemma_in_flat(commits.drop_first(), c - 1, x);
        let i = choose|i: int| 0 <= i < rest.len() && rest[i] == x;
        assert((first + rest)[first.len() + i] == x);
    }
}

/// Where no commit lists a path twice, a commit adds to the degree of each of
/// its paths the number of the others.
pub proof fn degree_of_distinct(commits: Seq<Seq<Seq<char>>>, p: Seq<char>)
    requires
        commits.len() > 0,
        commits.last().no_duplicates(),
    ensures
        degree_in(commits, p) == degree_in(commits.drop_last(), p) + if commits.last().contains(p) {
            (commits.last().len() - 1) as nat
        } else {
            0
        },
{
    lemma_times_of_distinct(commits.last(), p);
    if commits.last().contains(p) {
        assert(1 * (commits.last().len() - 1) == commits.last().len() - 1);
    }
    assert(0 * (commits.last().len() - 0) as nat == 0);
}

/// Every path with its degree.
pub open spec fn degrees_of(
    m: Map<Seq<char>, u64>,
    commits: Seq<Seq<Seq<char>>>,
) -> bool {
    forall|p: Seq<char>|
        #![trigger m.contains_key(p)]
        #![trigger degree_in(commits, p)]
        if commits.flatten().contains(p) {
            m.contains_key(p) && m[p] == degree_in(commits, p)
        } else {
            !m.contains_key(p)
        }
}

/// The weighted degree of every path.
pub fn degrees(per_commit: &Vec<Vec<String>>) -> (r: SortedMap<u64>)
    ensures
        r.wf(),
        degrees_of(r@, brandes::commit_texts(per_commit@)),
{
    let ghost commits = brandes::commit_texts(per_commit@);
    let g = graph_of(per_commit);
    let nodes = graph_nodes(&g);
    let ghost names = sorted_map::texts(nodes@);
    let mut m: SortedMap<u64> = SortedMap::new();
    let mut i: usize = 0;
    while i < nodes.len()
        invariant
            i <= nodes@.len(),
            names == sorted_map::texts(nodes@),
            graph_paths(g) == brandes::first_seen(commits.flatten()),
            forall|p: Seq<char>, q: Seq<char>| #[trigger]
                weight_in(graph_weights(g), p, q) == together(commits, p, q),
            m.wf(),
            forall|p: Seq<char>| #[trigger]
                m@.contains_key(p) <==> names.take(i as int).contains(p),
            forall|p: Seq<char>| #[trigger]
                m@.contains_key(p) ==> m@[p] == degree_in(commits, p),
        decreases nodes@.len() - i,
    {
        let d = graph_degree(&g, nodes[i].as_str());
        m.put(nodes[i].as_str(), d);
        proof {
            let k = names[i as int];
            lemma_degree(graph_weights(g), commits, k);
            assert forall|q: Seq<char>| #[trigger] names.take(i + 1).contains(q) <==> names.take(
                i as int,
            ).contains(q) || q == k by {
                assert(names.take(i + 1)[i as int] == k);
                if names.take(i as int).contains(q) {
                    let j = choose|j: int| 0 <= j < i && names.take(i as int)[j] == q;
                    assert(names.take(i + 1)[j] == q);
                }
                if names.take(i + 1).contains(q) {
                    let j = names.take(i + 1).index_of(q);
                    if j < i {
                        assert(names.take(i as int)[j] == q);
                    }
                }
            }
        }
        i = i + 1;
    }
    proof {
        assert(names.take(i as int) =~= names);
        brandes::first_seen_lists_all(commits.flatten());
        assert forall|p: Seq<char>|
            #![trigger m@.contains_key(p)]
            #![trigger degree_in(commits, p)]
            if commits.flatten().contains(p) {
                m@.contains_key(p) && m@[p] == degree_in(commits, p)
            } else {
                !m@.contains_key(p)
            } by {
            assert(names.contains(p) <==> commits.flatten().contains(p));
            assert(m@.contains_key(p) <==> names.contains(p));
        }
    }
    m
}

// ---- change counts ---------------------------------------------------

/// How often the path occurs in the lists.
pub open spec fn occurrences(commits: Seq<Seq<Seq<char>>>, p: Seq<char>) -> nat
    decreases commits.len(),
{
    if commits.len() == 0 {
        0
    } else {
        occurrences(commits.drop_last(), p) + addresses::times(commits.last(), p)
    }
}

/// Paths with counts, as values.
pub open spec fn count_models(s: Seq<(String, u64)>) -> Seq<(Seq<char>, u64)> {
    s.map_values(|e: (String, u64)| (e.0@, e.1))
}

/// The list holds every path that occurs, with how often it does.
pub open spec fn counts_paths(
    s: Seq<(Seq<char>, u64)>,
    commits: Seq<Seq<Seq<char>>>,
) -> bool {
    &&& forall|i: int|
        0 <= i < s.len() ==> (#[trigger] s[i]).1 > 0 && s[i].1 == occurrences(commits, s[i].0)
    &&& forall|p: Seq<char>|
        (#[trigger] occurrences(commits, p)) > 0 ==> s.contains((p, occurrences(commits, p) as u64))
}

/// `entropyx_core::metric::change_counts` counts how often each path occurs in
/// the lists.
#[verifier::external_body]
fn core_change_counts(per_commit: &Vec<Vec<String>>) -> (r: Vec<(String, u64)>)
    ensures
        counts_paths(count_models(r@), brandes::commit_texts(per_commit@)),
{
    entropyx_core::metric::change_counts(per_commit).into_iter().collect()
}

/// How often each path was changed.
pub fn change_counts(per_commit: &Vec<Vec<String>>) -> (r: SortedMap<u64>)
    ensures
        r.wf(),
        forall|p: Seq<char>|
            #![trigger r@.contains_key(p)]
            #![trigger occurrences(brandes::commit_texts(per_commit@), p)]
            if r@.contains_key(p) {
                r@[p] > 0 && r@[p] == occurrences(brandes::commit_texts(per_commit@), p)
            } else {
                occurrences(brandes::commit_texts(per_commit@), p) == 0
            },
{
    let counted = core_change_counts(per_commit);
    index_counts(&counted, Ghost(brandes::commit_texts(per_commit@)))
}

fn index_counts(
    counted: &Vec<(String, u64)>,
    Ghost(commits): Ghost<Seq<Seq<Seq<char>>>>,
) -> (m: SortedMap<u64>)
    requires
        counts_paths(count_models(counted@), commits),
    ensures
        m.wf(),
        forall|p: Seq<char>|
            #![trigger m@.contains_key(p)]
            #![trigger occurrences(commits, p)]
            if m@.contains_key(p) {
                m@[p] > 0 && m@[p] == occurrences(commits, p)
            } else {
                occurrences(commits, p) == 0
            },
{
    let ghost s = count_models(counted@);
    let mut m: SortedMap<u64> = SortedMap::new();
    let mut i: usize = 0;
    while i < counted.len()
        invariant
            i <= counted@.len(),
            s == count_models(counted@),
            counts_paths(s, commits),
            m.wf(),
            forall|p: Seq<char>| #[trigger]
                m@.contains_key(p) ==> m@[p] > 0 && m@[p] == occurrences(commits, p),
            forall|j: int| 0 <= j < i ==> m@.contains_key((#[trigger] s[j]).0),
        decreases counted@.len() - i,
    {
        let e = &counted[i];
        assert(s[i as int] == (e.0@, e.1));
        m.put(e.0.as_str(), e.1);
        i = i + 1;
    }
    proof {
        assert forall|p: Seq<char>|
            #![trigger m@.contains_key(p)]
            #![trigger occurrences(commits, p)]
            if m@.contains_key(p) {
                m@[p] > 0 && m@[p] == occurrences(commits, p)
            } else {
                occurrences(commits, p) == 0
            } by {
            if occurrences(commits, p) > 0 {
                assert(s.contains((p, occurrences(commits, p) as u64)));
                let j = choose|j: int|
                    0 <= j < s.len() && s[j] == (p, occurrences(commits, p) as u64);
                assert(m@.contains_key(s[j].0));
            }
        }
    }
    m
}

proof fn lemma_times_of_distinct(s: Seq<Seq<char>>, p: Seq<char>)
    requires
        s.no_duplicates(),
    ensures
        addresses::times(s, p) == if s.contains(p) {
            1nat
        } else {
            0
        },
    decreases s.len(),
{
    if s.len() > 0 {
        let f = s.drop_last();
        lemma_times_of_distinct(f, p);
        if f.contains(p) {
            let i = choose|i: int| 0 <= i < f.len() && f[i] == p;
            assert(s[i] == p);
            assert(s[s.len() - 1] != s[i]);
        }
        if s.contains(p) && s.last() != p {
            let i = choose|i: int| 0 <= i < s.len() && s[i] == p;
            assert(f[i] == p);
        }
        assert(s[s.len() - 1] == s.last());
    }
}

/// Where no commit lists a path twice, a path is changed as often as it is
/// listed: the change count of a file is the number of its touches.
pub proof fn change_count_is_list_count(commits: Seq<Seq<Seq<char>>>, p: Seq<char>)
    requires
        distinct_lists(commits),
    ensures
        occurrences(commits, p) == replay::list_count(commits, p),
    decreases commits.len(),
{
    if commits.len() > 0 {
        let f = commits.drop_last();
        assert(distinct_lists(f)) by {
            assert forall|c: int| 0 <= c < f.len() implies (#[trigger] f[c]).no_duplicates() by {
                assert(f[c] == commits[c]);
            }
        }
        change_count_is_list_count(f, p);
        assert(commits[commits.len() - 1].no_duplicates());
        lemma_times_of_distinct(commits.last(), p);
    }
}

/// An ascending list holds nothing twice.
pub proof fn ascending_is_distinct(s: Seq<Seq<char>>)
    requires
        sorted_map::ascending(s),
    ensures
        s.no_duplicates(),
{
    assert forall|i: int, j: int| 0 <= i < s.len() && 0 <= j < s.len() && i != j implies s[i]
        != s[j] by {
        order::text_less_irreflexive(s[i]);
        if i < j {
            assert(order::text_less(s[i], s[j]));
        } else {
            assert(order::text_less(s[j], s[i]));
        }
    }
}

/// The lists of a walk hold no path twice.
pub proof fn walk_lists_are_distinct(
    commits: Seq<replay::Commit>,
    prepared: Seq<crate::blobs::PreparedCommit>,
    items: Map<Seq<char>, Vec<String>>,
)
    ensures
        distinct_lists(
            replay::replayed(replay::at_start(), commits, prepared, items).commit_paths,
        ),
    decreases commits.len(),
{
    let r = replay::replayed(replay::at_start(), commits, prepared, items).commit_paths;
    if commits.len() > 0 && prepared.len() > 0 {
        let m = replay::replayed(
            replay::at_start(),
            commits.drop_last(),
            prepared.drop_last(),
            items,
        );
        walk_lists_are_distinct(commits.drop_last(), prepared.drop_last(), items);
        let changes = prepared.last().changes@;
        let ts = replay::after_renames(m.trajectories, changes);
        replay::touched_lists_changes(ts, changes);
        ascending_is_distinct(replay::touched(ts, changes));
        assert forall|c: int| 0 <= c < r.len() implies (#[trigger] r[c]).no_duplicates() by {
            if c < m.commit_paths.len() {
                assert(r[c] == m.commit_paths[c]);
            }
        }
    }
}

// ---- coupling --------------------------------------------------------

/// The greater of two measures; a number rather than none.
pub open spec fn larger(a: u64, b: u64) -> u64 {
    if ieee::is_nan(a) || ieee::greater(b, a) {
        b
    } else {
        a
    }
}

/// The measure of a path; zero without one.
pub open spec fn measure_at(m: Map<Seq<char>, u64>, p: Seq<char>) -> u64 {
    if m.contains_key(p) {
        m[p]
    } else {
        0
    }
}

/// The measure of a path, as bits; zero without one.
pub fn measure(m: &SortedMap<u64>, p: &str) -> (r: u64)
    requires
        m.wf(),
    ensures
        r == measure_at(m@, p@),
{
    match m.get(p) {
        Some(b) => *b,
        None => 0,
    }
}

/// The coupling of each path that has a degree: its degree or its betweenness,
/// whichever is greater.
pub open spec fn coupling_of(
    degree: Map<Seq<char>, u64>,
    betweenness: Map<Seq<char>, u64>,
) -> Map<Seq<char>, u64> {
    Map::new(
        |p: Seq<char>| degree.contains_key(p),
        |p: Seq<char>| larger(degree[p], measure_at(betweenness, p)),
    )
}

/// The coupling of each path.
pub fn coupling(degree: &SortedMap<u64>, betweenness: &SortedMap<u64>) -> (r: SortedMap<u64>)
    requires
        degree.wf(),
        betweenness.wf(),
    ensures
        r.wf(),
        r@ == coupling_of(degree@, betweenness@),
{
    let ghost want = coupling_of(degree@, betweenness@);
    let ghost keys = degree.key_seq();
    let mut m: SortedMap<u64> = SortedMap::new();
    let n: usize = degree.len();
    let mut i: usize = 0;
    proof {
        degree.wf_keys();
    }
    while i < n
        invariant
            degree.wf(),
            betweenness.wf(),
            keys == degree.key_seq(),
            n == keys.len(),
            i <= n,
            want == coupling_of(degree@, betweenness@),
            m.wf(),
            forall|p: Seq<char>| #[trigger]
                m@.contains_key(p) ==> degree@.contains_key(p) && m@[p] == want[p],
            forall|j: int| 0 <= j < i ==> m@.contains_key(#[trigger] keys[j]),
        decreases n - i,
    {
        let p = degree.key_at(i).as_str();
        let d: u64 = *degree.value_at(i);
        let b: u64 = measure(betweenness, p);
        let greater: u64 = if ieee::not_a_number(d) || ieee::is_greater(b, d) {
            b
        } else {
            d
        };
        m.put(p, greater);
        i = i + 1;
    }
    proof {
        assert forall|p: Seq<char>| #[trigger] m@.contains_key(p) <==> want.contains_key(p) by {
            if degree@.contains_key(p) {
                assert(keys.contains(p));
                let j = keys.index_of(p);
                assert(m@.contains_key(keys[j]));
            }
        }
        assert(m@ =~= want);
    }
    m
}

/// The coupling of a path is its degree or its betweenness, and where both are
/// numbers it is no less than either; a path without betweenness counts as zero
/// there, and one without degree has no coupling.
pub proof fn coupling_is_the_greater(
    degree: Map<Seq<char>, u64>,
    betweenness: Map<Seq<char>, u64>,
    p: Seq<char>,
)
    ensures
        coupling_of(degree, betweenness).contains_key(p) <==> degree.contains_key(p),
        degree.contains_key(p) ==> ({
            let c = coupling_of(degree, betweenness)[p];
            let b = if betweenness.contains_key(p) {
                betweenness[p]
            } else {
                0
            };
            &&& c == degree[p] || c == b
            &&& !ieee::is_nan(degree[p]) ==> ieee::at_least(c, degree[p])
            &&& !ieee::is_nan(b) ==> ieee::at_least(c, b)
            &&& ieee::is_nan(degree[p]) ==> c == b
            &&& ieee::key(degree[p]) == ieee::key(b) && !ieee::is_nan(degree[p]) ==> c == degree[p]
        }),
{
}

} // verus!
