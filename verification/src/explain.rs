//! The drill-down: the commits behind one file.

use vstd::prelude::*;

use crate::addresses;
use crate::evidence;
use crate::evidence::{CommitModel, EvidenceIndex, TouchRef};
use crate::order;
use crate::order::{comes_before, same_text};
use crate::ranking;
use crate::ranking::{sort_stable, Ranked};
use crate::sorted_map;
use crate::sorted_map::SortedMap;

verus! {

/// Most authors that are shown.
pub const MAX_AUTHORS: usize = 5;

/// What is shown of a file.
pub struct Explained {
    pub path: String,
    /// The commits, newest first, with their times.
    pub commits: Vec<ShownCommit>,
    pub commits_touched: usize,
    pub first_commit_time: Option<i64>,
    pub last_commit_time: Option<i64>,
    /// The time of every touch.
    pub times: Vec<i64>,
    /// The author of every commit that was found.
    pub authors: Vec<String>,
    /// The authors with the most commits.
    pub top_authors: Vec<AuthorCount>,
}

/// A commit as it is shown.
pub struct ShownCommit {
    pub author: String,
    pub sha: String,
    pub subject: String,
    pub time: i64,
}

/// An author and how many of the commits are theirs.
pub struct AuthorCount {
    pub email: String,
    pub count: usize,
}

impl View for ShownCommit {
    type V = (CommitModel, i64);

    open spec fn view(&self) -> (CommitModel, i64) {
        (
            CommitModel { sha: self.sha@, subject: self.subject@, author: self.author@ },
            self.time,
        )
    }
}

impl View for AuthorCount {
    type V = (Seq<char>, nat);

    open spec fn view(&self) -> (Seq<char>, nat) {
        (self.email@, self.count as nat)
    }
}

/// The file that is meant: a handle's, or the path itself if it is known.
pub open spec fn meant(
    handle_paths: Map<Seq<char>, String>,
    known: Set<Seq<char>>,
    handle: Seq<char>,
) -> Option<Seq<char>> {
    if handle_paths.contains_key(handle) {
        Some(handle_paths[handle]@)
    } else if known.contains(handle) {
        Some(handle)
    } else {
        None
    }
}

/// The commits of some touches; a touch beyond the walk has none.
pub open spec fn found(commits: Seq<CommitModel>, touches: Seq<TouchRef>) -> Seq<CommitModel>
    decreases touches.len(),
{
    if touches.len() == 0 {
        Seq::empty()
    } else {
        let before = found(commits, touches.drop_last());
        if (touches.last().commit as int) < commits.len() {
            before.push(commits[touches.last().commit as int])
        } else {
            before
        }
    }
}

/// There are no more commits than touches.
pub proof fn found_at_most_touches(commits: Seq<CommitModel>, touches: Seq<TouchRef>)
    ensures
        found(commits, touches).len() <= touches.len(),
    decreases touches.len(),
{
    if touches.len() > 0 {
        found_at_most_touches(commits, touches.drop_last());
    }
}

/// Where every touch is within the walk, each commit is shown with the time of
/// its own touch.
pub proof fn shown_commits_match_touches(commits: Seq<CommitModel>, touches: Seq<TouchRef>)
    requires
        forall|i: int|
            0 <= i < touches.len() ==> (#[trigger] touches[i]).commit < commits.len(),
    ensures
        shown(commits, touches).len() == touches.len(),
        forall|i: int|
            0 <= i < touches.len() ==> #[trigger] shown(commits, touches)[i] == (
                commits[touches[i].commit as int],
                touches[i].time,
            ),
    decreases touches.len(),
{
    if touches.len() > 0 {
        let front = touches.drop_last();
        assert forall|i: int| 0 <= i < front.len() implies (#[trigger] front[i]).commit
            < commits.len() by {
            assert(front[i] == touches[i]);
        }
        shown_commits_match_touches(commits, front);
        assert(touches[touches.len() - 1].commit < commits.len());
        assert(found(commits, touches).len() == touches.len());
        assert forall|i: int| 0 <= i < touches.len() implies #[trigger] shown(commits, touches)[i]
            == (commits[touches[i].commit as int], touches[i].time) by {
            if i < front.len() {
                assert(shown(commits, front)[i] == (
                    commits[front[i].commit as int],
                    front[i].time,
                ));
                assert(found(commits, touches)[i] == found(commits, front)[i]);
            }
        }
    }
}

/// The commits with times, place by place.
pub open spec fn shown(
    commits: Seq<CommitModel>,
    touches: Seq<TouchRef>,
) -> Seq<(CommitModel, i64)> {
    Seq::new(
        found(commits, touches).len(),
        |i: int| (found(commits, touches)[i], touches[i].time),
    )
}

/// The authors of commits.
pub open spec fn authors_of(cs: Seq<CommitModel>) -> Seq<Seq<char>> {
    cs.map_values(|c: CommitModel| c.author)
}

/// More commits come first, then the lesser address.
pub open spec fn author_before(a: (Seq<char>, nat), b: (Seq<char>, nat)) -> bool {
    a.1 > b.1 || (a.1 == b.1 && order::text_less(a.0, b.0))
}

/// Every author with their number of commits, in order.
pub open spec fn lists_authors(
    authors: Seq<Seq<char>>,
    all: Seq<(Seq<char>, nat)>,
) -> bool {
    &&& forall|i: int, j: int|
        #![trigger all[i], all[j]]
        0 <= i < j < all.len() ==> author_before(all[i], all[j])
    &&& forall|a: (Seq<char>, nat)| #[trigger]
        all.contains(a) <==> a.1 > 0 && a.1 == addresses::times(authors, a.0)
}

/// As many as are shown.
pub open spec fn foremost(all: Seq<(Seq<char>, nat)>) -> Seq<(Seq<char>, nat)> {
    if all.len() > MAX_AUTHORS {
        all.take(MAX_AUTHORS as int)
    } else {
        all
    }
}

/// The least of some times.
pub open spec fn is_least(t: Option<i64>, times: Seq<i64>) -> bool {
    match t {
        Some(x) => times.contains(x) && forall|i: int|
            0 <= i < times.len() ==> x <= #[trigger] times[i],
        None => times.len() == 0,
    }
}

/// The greatest of some times.
pub open spec fn is_greatest(t: Option<i64>, times: Seq<i64>) -> bool {
    match t {
        Some(x) => times.contains(x) && forall|i: int|
            0 <= i < times.len() ==> x >= #[trigger] times[i],
        None => times.len() == 0,
    }
}

/// The times of touches.
pub open spec fn times_of(touches: Seq<TouchRef>) -> Seq<i64> {
    touches.map_values(|t: TouchRef| t.time)
}

/// `e` is what is shown of the file.
pub open spec fn explains(
    e: Explained,
    path: Seq<char>,
    commits: Seq<CommitModel>,
    touches: Seq<TouchRef>,
) -> bool {
    &&& e.path@ == path
    &&& e.commits@.map_values(|c: ShownCommit| c@) == shown(commits, touches)
    &&& e.commits_touched == touches.len()
    &&& e.times@ == times_of(touches)
    &&& is_least(e.first_commit_time, times_of(touches))
    &&& is_greatest(e.last_commit_time, times_of(touches))
    &&& sorted_map::texts(e.authors@) == authors_of(found(commits, touches))
    &&& exists|all: Seq<(Seq<char>, nat)>| #[trigger]
        lists_authors(authors_of(found(commits, touches)), all) && e.top_authors@.map_values(
            |a: AuthorCount| a@,
        ) == foremost(all)
}

impl Ranked for AuthorCount {
    open spec fn leq(self, other: AuthorCount) -> bool {
        ||| self.count > other.count
        ||| self.count == other.count && order::text_leq(self.email@, other.email@)
    }

    proof fn leq_total_preorder() {
        assert forall|x: AuthorCount, y: AuthorCount| #[trigger] x.leq(y) || y.leq(x) by {
            order::text_less_total(x.email@, y.email@);
        }
        assert forall|x: AuthorCount, y: AuthorCount, z: AuthorCount| #[trigger]
            x.leq(y) && #[trigger] y.leq(z) implies x.leq(z) by {
            if order::text_less(x.email@, y.email@) && order::text_less(y.email@, z.email@) {
                order::text_less_transitive(x.email@, y.email@, z.email@);
            }
        }
    }

    fn at_most(&self, other: &AuthorCount) -> (r: bool) {
        self.count > other.count || (self.count == other.count && (same_text(
            self.email.as_str(),
            other.email.as_str(),
        ) || comes_before(self.email.as_str(), other.email.as_str())))
    }
}

fn count_authors(authors: &Vec<String>) -> (m: SortedMap<usize>)
    ensures
        m.wf(),
        forall|e: Seq<char>|
            #![trigger m@.contains_key(e)]
            #![trigger addresses::times(sorted_map::texts(authors@), e)]
            if m@.contains_key(e) {
                m@[e] == addresses::times(sorted_map::texts(authors@), e) && m@[e] > 0
            } else {
                addresses::times(sorted_map::texts(authors@), e) == 0
            },
{
    let ghost all = sorted_map::texts(authors@);
    let mut m: SortedMap<usize> = SortedMap::new();
    let mut i: usize = 0;
    assert(all.take(0) =~= Seq::empty());
    while i < authors.len()
        invariant
            i <= authors@.len(),
            all == sorted_map::texts(authors@),
            m.wf(),
            forall|e: Seq<char>|
                #![trigger m@.contains_key(e)]
                #![trigger addresses::times(all.take(i as int), e)]
                if m@.contains_key(e) {
                    m@[e] == addresses::times(all.take(i as int), e) && m@[e] > 0
                } else {
                    addresses::times(all.take(i as int), e) == 0
                },
        decreases authors@.len() - i,
    {
        let a = authors[i].as_str();
        let ghost before = all.take(i as int);
        let ghost after = all.take(i + 1);
        let ghost m0 = m@;
        let p = m.place_or_put(a, 0);
        let c = m.value_mut(p);
        proof {
            addresses::times_bounded(before, a@);
            assert(m0.contains_key(a@) ==> m0[a@] == addresses::times(before, a@));
            assert(after.drop_last() =~= before);
        }
        let n: usize = authors.len();
        *c = *c + 1;
        proof {
            assert forall|e: Seq<char>|
                #![trigger m@.contains_key(e)]
                #![trigger addresses::times(after, e)]
                if m@.contains_key(e) {
                    m@[e] == addresses::times(after, e) && m@[e] > 0
                } else {
                    addresses::times(after, e) == 0
                } by {
                assert(m0.contains_key(e) || !m0.contains_key(e));
                assert(addresses::times(after, e) == addresses::times(before, e) + if e == a@ {
                    1nat
                } else {
                    0
                });
            }
        }
        i = i + 1;
    }
    assert(all.take(i as int) =~= all);
    m
}

/// The authors with the most commits.
pub fn top_authors(authors: &Vec<String>) -> (r: Vec<AuthorCount>)
    ensures
        exists|all: Seq<(Seq<char>, nat)>| #[trigger]
            lists_authors(sorted_map::texts(authors@), all) && r@.map_values(
                |a: AuthorCount| a@,
            ) == foremost(all),
{
    let ghost names = sorted_map::texts(authors@);
    let ghost model = |a: AuthorCount| a@;
    let counts = count_authors(authors);
    let ghost keys = counts.key_seq();
    let mut items: Vec<AuthorCount> = Vec::new();
    let n: usize = counts.len();
    let mut i: usize = 0;
    proof {
        counts.wf_keys();
    }
    while i < n
        invariant
            counts.wf(),
            keys == counts.key_seq(),
            n == keys.len(),
            i <= n,
            items@.len() == i,
            forall|j: int|
                0 <= j < i ==> (#[trigger] items@[j]).email@ == keys[j] && items@[j].count
                    == counts@[keys[j]],
        decreases n - i,
    {
        items.push(AuthorCount { email: counts.key_at(i).clone(), count: *counts.value_at(i) });
        i = i + 1;
    }
    let ghost given = items@;
    let ghost leq = ranking::by_rank::<AuthorCount>();
    let ghost email = |a: AuthorCount| a.email@;
    let mut sorted = sort_stable(items);
    let ghost all = sorted@.map_values(model);
    proof {
        ranking::by_rank_is_total_preorder::<AuthorCount>();
        ranking::ranked_is_ordered(given, leq);
        assert(given.map_values(email) =~= keys);
        ranking::ranked_keeps_distinct(given, leq, email);
        assert forall|x: int, y: int| 0 <= x < y < all.len() implies author_before(
            #[trigger] all[x],
            #[trigger] all[y],
        ) by {
            assert(leq(sorted@[x], sorted@[y]));
            assert(sorted@.map_values(email)[x] != sorted@.map_values(email)[y]);
        }
        assert forall|a: (Seq<char>, nat)| #[trigger] all.contains(a) <==> a.1 > 0 && a.1
            == addresses::times(names, a.0) by {
            if all.contains(a) {
                let x = choose|x: int| 0 <= x < all.len() && all[x] == a;
                ranking::ranked_same_members(given, leq, sorted@[x]);
                assert(sorted@.contains(sorted@[x]));
                let q = choose|q: int| 0 <= q < given.len() && given[q] == sorted@[x];
                assert(counts@.contains_key(keys[q]));
                assert(given[q].email@ == keys[q]);
            }
            if a.1 > 0 && a.1 == addresses::times(names, a.0) {
                assert(counts@.contains_key(a.0));
                assert(keys.contains(a.0));
                let q = keys.index_of(a.0);
                assert(given[q].email@ == a.0 && given[q].count == a.1);
                ranking::ranked_same_members(given, leq, given[q]);
                assert(given.contains(given[q]));
                let x = choose|x: int| 0 <= x < sorted@.len() && sorted@[x] == given[q];
                assert(all[x] == a);
            }
        }
        assert(lists_authors(names, all));
    }
    if sorted.len() > MAX_AUTHORS {
        sorted.truncate(MAX_AUTHORS);
    }
    assert(sorted@.map_values(model) =~= foremost(all));
    sorted
}

fn least_time(times: &Vec<i64>) -> (r: Option<i64>)
    ensures
        is_least(r, times@),
{
    if times.len() == 0 {
        return None;
    }
    let mut best: i64 = times[0];
    let mut i: usize = 1;
    while i < times.len()
        invariant
            1 <= i <= times@.len(),
            times@.contains(best),
            forall|j: int| 0 <= j < i ==> best <= #[trigger] times@[j],
        decreases times@.len() - i,
    {
        if times[i] < best {
            best = times[i];
        }
        i = i + 1;
    }
    Some(best)
}

fn greatest_time(times: &Vec<i64>) -> (r: Option<i64>)
    ensures
        is_greatest(r, times@),
{
    if times.len() == 0 {
        return None;
    }
    let mut best: i64 = times[0];
    let mut i: usize = 1;
    while i < times.len()
        invariant
            1 <= i <= times@.len(),
            times@.contains(best),
            forall|j: int| 0 <= j < i ==> best >= #[trigger] times@[j],
        decreases times@.len() - i,
    {
        if times[i] > best {
            best = times[i];
        }
        i = i + 1;
    }
    Some(best)
}

/// The file that a handle, or a bare path, means.
pub fn resolve(
    handle_paths: &SortedMap<String>,
    evidence: &EvidenceIndex,
    handle: &str,
) -> (r: Option<String>)
    requires
        handle_paths.wf(),
        evidence.by_path.wf(),
    ensures
        match r {
            Some(p) => meant(handle_paths@, evidence.by_path@.dom(), handle@) == Some(p@),
            None => meant(handle_paths@, evidence.by_path@.dom(), handle@) is None,
        },
{
    match handle_paths.get(handle) {
        Some(p) => Some(p.clone()),
        None => if evidence.by_path.contains(handle) {
            Some(handle.to_owned())
        } else {
            None
        },
    }
}

/// What is shown of the file that a handle, or a bare path, means.
pub fn explain_from_index(
    evidence: &EvidenceIndex,
    handle_paths: &SortedMap<String>,
    handle: &str,
) -> (r: Option<Explained>)
    requires
        handle_paths.wf(),
        evidence.by_path.wf(),
    ensures
        match r {
            Some(e) => {
                let path = meant(handle_paths@, evidence.by_path@.dom(), handle@);
                &&& path is Some
                &&& explains(
                    e,
                    path->0,
                    evidence::commit_models(evidence.commits@),
                    evidence.touches_of(path->0),
                )
            },
            None => meant(handle_paths@, evidence.by_path@.dom(), handle@) is None,
        },
{
    let path = match resolve(handle_paths, evidence, handle) {
        Some(p) => p,
        None => return None,
    };
    let touches = evidence.touches(path.as_str());
    let ghost ts = touches@;
    let ghost cs = evidence::commit_models(evidence.commits@);
    let ghost show = |c: ShownCommit| c@;
    let mut times: Vec<i64> = Vec::new();
    let mut authors: Vec<String> = Vec::new();
    let mut commits: Vec<ShownCommit> = Vec::new();
    let mut i: usize = 0;
    assert(ts.take(0) =~= Seq::empty());
    while i < touches.len()
        invariant
            i <= touches@.len(),
            ts == touches@,
            cs == evidence::commit_models(evidence.commits@),
            show == |c: ShownCommit| c@,
            times@ == times_of(ts).take(i as int),
            sorted_map::texts(authors@) == authors_of(found(cs, ts.take(i as int))),
            commits@.len() == found(cs, ts.take(i as int)).len(),
            commits@.len() <= i,
            forall|j: int|
                0 <= j < commits@.len() ==> (#[trigger] commits@[j])@ == (
                    found(cs, ts.take(i as int))[j],
                    ts[j].time,
                ),
        decreases touches@.len() - i,
    {
        let t = touches[i];
        times.push(t.time);
        proof {
            assert(times_of(ts).take(i + 1) =~= times_of(ts).take(i as int).push(t.time));
            assert(ts.take(i + 1).drop_last() =~= ts.take(i as int));
        }
        if (t.commit as usize) < evidence.commits.len() {
            let c = &evidence.commits[t.commit as usize];
            let ghost a0 = authors@;
            let ghost c0 = commits@;
            let k: usize = commits.len();
            let s = ShownCommit {
                author: c.author.clone(),
                sha: c.sha.clone(),
                subject: c.subject.clone(),
                time: touches[k].time,
            };
            assert(cs[t.commit as int] == c@);
            authors.push(c.author.clone());
            commits.push(s);
            proof {
                assert(sorted_map::texts(authors@) =~= sorted_map::texts(a0).push(c.author@));
                assert(authors_of(found(cs, ts.take(i + 1))) =~= authors_of(
                    found(cs, ts.take(i as int)),
                ).push(c.author@));
                assert forall|j: int| 0 <= j < commits@.len() implies (#[trigger] commits@[j])@
                    == (found(cs, ts.take(i + 1))[j], ts[j].time) by {
                    if j < c0.len() {
                        assert(commits@[j] == c0[j]);
                    }
                }
            }
        }
        i = i + 1;
    }
    proof {
        assert(ts.take(i as int) =~= ts);
        assert(times_of(ts).take(i as int) =~= times_of(ts));
        assert(commits@.map_values(show) =~= shown(cs, ts));
    }
    let top = top_authors(&authors);
    Some(
        Explained {
            path,
            commits,
            commits_touched: touches.len(),
            first_commit_time: least_time(&times),
            last_commit_time: greatest_time(&times),
            times,
            authors,
            top_authors: top,
        },
    )
}

// ---- what is shown, item by item -------------------------------------

/// A handle means the path that is kept under it, if there is one; anything
/// else means itself where it is the path of a file, and nothing otherwise.
pub proof fn handles_are_meant_first(
    handle_paths: Map<Seq<char>, String>,
    known: Set<Seq<char>>,
    handle: Seq<char>,
)
    ensures
        handle_paths.contains_key(handle) ==> meant(handle_paths, known, handle) == Some(
            handle_paths[handle]@,
        ),
        !handle_paths.contains_key(handle) && known.contains(handle) ==> meant(
            handle_paths,
            known,
            handle,
        ) == Some(handle),
        !handle_paths.contains_key(handle) && !known.contains(handle) ==> meant(
            handle_paths,
            known,
            handle,
        ) is None,
{
}

/// The commits that are shown are those that the touches lead to, in the order
/// of the touches; a touch beyond the walk leads to none.
pub proof fn found_commits_are_led_to(commits: Seq<CommitModel>, touches: Seq<TouchRef>)
    ensures
        found(commits, touches) == crate::ranking::places(
            touches.len(),
            |k: int| touches[k].commit < commits.len(),
        ).map_values(|k: int| commits[touches[k].commit as int]),
    decreases touches.len(),
{
    let now = |k: int| touches[k].commit < commits.len();
    let f = |k: int| commits[touches[k].commit as int];
    if touches.len() > 0 {
        let front = touches.drop_last();
        let n = front.len();
        found_commits_are_led_to(commits, front);
        let then = |k: int| front[k].commit < commits.len();
        let g = |k: int| commits[front[k].commit as int];
        crate::ranking::places_agree(n, then, now);
        crate::ranking::places_are_exact(n, then);
        let a = crate::ranking::places(n, then);
        assert forall|i: int| 0 <= i < a.len() implies g(#[trigger] a[i]) == f(a[i]) by {
            assert(a.contains(a[i]));
        }
        assert(a.map_values(g) =~= a.map_values(f));
        assert(now(n as int) <==> touches.last().commit < commits.len());
        assert(crate::ranking::places(touches.len(), now).map_values(f) =~= found(
            commits,
            touches,
        ));
    } else {
        assert(found(commits, touches) =~= crate::ranking::places(0, now).map_values(f));
    }
}

/// What is shown of a file counts every touch, gives the time of each, the
/// least and the greatest of them, and the author of every commit that was
/// found. A time is missing only where there are no touches.
pub proof fn explanations_cover_the_touches(
    e: Explained,
    path: Seq<char>,
    commits: Seq<CommitModel>,
    touches: Seq<TouchRef>,
)
    requires
        explains(e, path, commits, touches),
    ensures
        e.path@ == path,
        e.commits_touched == touches.len(),
        e.times@.len() == touches.len(),
        forall|i: int| 0 <= i < touches.len() ==> #[trigger] e.times@[i] == touches[i].time,
        touches.len() > 0 ==> (e.first_commit_time matches Some(a) && e.last_commit_time matches
            Some(b) && e.times@.contains(a) && e.times@.contains(b) && forall|i: int|
            0 <= i < touches.len() ==> a <= (#[trigger] touches[i]).time <= b),
        touches.len() == 0 ==> e.first_commit_time is None && e.last_commit_time is None,
        e.authors@.len() == found(commits, touches).len(),
        forall|i: int|
            0 <= i < e.authors@.len() ==> (#[trigger] e.authors@[i])@ == found(
                commits,
                touches,
            )[i].author,
        e.commits@.len() == found(commits, touches).len(),
        forall|i: int|
            0 <= i < e.commits@.len() ==> (#[trigger] e.commits@[i]).sha@ == found(
                commits,
                touches,
            )[i].sha && e.commits@[i].subject@ == found(commits, touches)[i].subject
                && e.commits@[i].author@ == found(commits, touches)[i].author && e.commits@[i].time
                == touches[i].time,
{
    let ts = times_of(touches);
    let fs = found(commits, touches);
    let shown_now = e.commits@.map_values(|c: ShownCommit| c@);
    assert(shown_now.len() == shown(commits, touches).len());
    assert forall|i: int| 0 <= i < touches.len() implies #[trigger] e.times@[i]
        == touches[i].time by {
        assert(ts[i] == touches[i].time);
    }
    if touches.len() > 0 {
        let a = e.first_commit_time->0;
        let b = e.last_commit_time->0;
        assert forall|i: int| 0 <= i < touches.len() implies a <= (#[trigger] touches[i]).time
            <= b by {
            assert(ts[i] == touches[i].time);
        }
    }
    let names = sorted_map::texts(e.authors@);
    assert(names.len() == fs.len());
    assert forall|i: int| 0 <= i < e.authors@.len() implies (#[trigger] e.authors@[i])@
        == fs[i].author by {
        assert(names[i] == authors_of(fs)[i]);
    }
    assert forall|i: int| 0 <= i < e.commits@.len() implies (#[trigger] e.commits@[i]).sha@
        == fs[i].sha && e.commits@[i].subject@ == fs[i].subject && e.commits@[i].author@
        == fs[i].author && e.commits@[i].time == touches[i].time by {
        assert(shown_now[i] == e.commits@[i]@);
        assert(shown_now[i] == shown(commits, touches)[i]);
    }
}

/// Five authors are shown at most, and fewer only where there are no more. Each
/// is shown with as many commits as are theirs, no author who is left out has
/// more, and of two with as many the lesser address comes first.
pub proof fn top_authors_have_most_commits(
    authors: Seq<Seq<char>>,
    all: Seq<(Seq<char>, nat)>,
    i: int,
    j: int,
)
    requires
        lists_authors(authors, all),
        0 <= i < j < all.len(),
    ensures
        foremost(all).len() <= 5,
        foremost(all).len() < 5 ==> foremost(all) == all,
        i < foremost(all).len() ==> foremost(all)[i] == all[i],
        all[i].1 >= all[j].1,
        all[i].1 == all[j].1 ==> order::text_less(all[i].0, all[j].0),
{
    assert(author_before(all[i], all[j]));
}

/// Every author is listed, with as many commits as are theirs.
pub proof fn authors_are_counted(
    authors: Seq<Seq<char>>,
    all: Seq<(Seq<char>, nat)>,
    a: Seq<char>,
)
    requires
        lists_authors(authors, all),
    ensures
        authors.contains(a) <==> all.contains((a, authors.filter(|x: Seq<char>| x == a).len())),
        forall|n: nat| #[trigger]
            all.contains((a, n)) ==> n == authors.filter(|x: Seq<char>| x == a).len() && n > 0,
{
    addresses::occurrences_are_counted(authors, a);
    let n = authors.filter(|x: Seq<char>| x == a).len();
    assert(all.contains((a, n)) <==> n > 0 && n == addresses::times(authors, a));
}

/// As values, a commit that is shown and an author who is counted are their own
/// fields.
pub proof fn shown_values_are_own_fields(c: ShownCommit, a: AuthorCount)
    ensures
        c@.0.sha == c.sha@,
        c@.0.subject == c.subject@,
        c@.0.author == c.author@,
        c@.1 == c.time,
        a@ == (a.email@, a.count as nat),
{
}

} // verus!
