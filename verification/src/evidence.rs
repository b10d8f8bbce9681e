//! The commits behind a file, kept from the walk.
//!
//! Looking a file up again would mean walking history again. What the walk
//! knew is kept instead: each commit once, and per file its touches.

use vstd::prelude::*;

use crate::replay;
use crate::replay::{Commit, FileSeries, Touch};
use crate::sorted_map::SortedMap;

verus! {

/// The walk as evidence.
pub struct EvidenceIndex {
    /// Every commit of the walk, newest first.
    pub commits: Vec<CommitRef>,
    /// The touches of each file, newest first.
    pub by_path: SortedMap<Vec<TouchRef>>,
}

/// A commit, by what is shown of it.
pub struct CommitRef {
    pub sha: String,
    pub subject: String,
    pub author: String,
}

/// A touch: the place of the commit in the walk, and the time.
#[derive(Clone, Copy, Debug)]
pub struct TouchRef {
    pub commit: u32,
    pub time: i64,
}

/// A commit reference as a value.
pub struct CommitModel {
    pub sha: Seq<char>,
    pub subject: Seq<char>,
    pub author: Seq<char>,
}

impl View for CommitRef {
    type V = CommitModel;

    open spec fn view(&self) -> CommitModel {
        CommitModel { sha: self.sha@, subject: self.subject@, author: self.author@ }
    }
}

/// Commit references as values.
pub open spec fn commit_models(cs: Seq<CommitRef>) -> Seq<CommitModel> {
    cs.map_values(|c: CommitRef| c@)
}

/// What is kept of commits.
pub open spec fn kept_commits(cs: Seq<Commit>) -> Seq<CommitModel> {
    cs.map_values(
        |c: Commit| CommitModel { sha: c.sha@, subject: c.subject@, author: c.author@ },
    )
}

/// The last place of the sha in the walk.
pub open spec fn last_with_sha(commits: Seq<Commit>, sha: Seq<char>) -> Option<int>
    decreases commits.len(),
{
    if commits.len() == 0 {
        None
    } else if commits.last().sha@ == sha {
        Some(commits.len() - 1)
    } else {
        last_with_sha(commits.drop_last(), sha)
    }
}

/// The touches by their places; one of a commit that is not in the walk is
/// left out.
pub open spec fn refs_of(
    commits: Seq<Commit>,
    touches: Seq<replay::TouchModel>,
) -> Seq<TouchRef>
    decreases touches.len(),
{
    if touches.len() == 0 {
        Seq::empty()
    } else {
        let before = refs_of(commits, touches.drop_last());
        match last_with_sha(commits, touches.last().1) {
            Some(i) => before.push(TouchRef { commit: i as u32, time: touches.last().0 }),
            None => before,
        }
    }
}

/// The touches of each file by their places.
pub open spec fn refs_by_path(
    commits: Seq<Commit>,
    series: Map<Seq<char>, replay::SeriesModel>,
) -> Map<Seq<char>, Seq<TouchRef>> {
    series.map_values(|s: replay::SeriesModel| refs_of(commits, s.touches))
}

/// Touch lists as values.
pub open spec fn ref_lists(m: Map<Seq<char>, Vec<TouchRef>>) -> Map<Seq<char>, Seq<TouchRef>> {
    m.map_values(|v: Vec<TouchRef>| v@)
}

/// The index of shas leads to their last places.
spec fn leads_to_last(m: Map<Seq<char>, u32>, commits: Seq<Commit>) -> bool {
    forall|sha: Seq<char>|
        #![trigger m.contains_key(sha)]
        #![trigger last_with_sha(commits, sha)]
        match last_with_sha(commits, sha) {
            Some(i) => m.contains_key(sha) && m[sha] == i as u32,
            None => !m.contains_key(sha),
        }
}

fn index_shas(commits: &[Commit]) -> (m: SortedMap<u32>)
    ensures
        m.wf(),
        leads_to_last(m@, commits@),
{
    let mut m: SortedMap<u32> = SortedMap::new();
    let mut i: usize = 0;
    assert(commits@.take(0) =~= Seq::empty());
    while i < commits.len()
        invariant
            i <= commits@.len(),
            m.wf(),
            leads_to_last(m@, commits@.take(i as int)),
        decreases commits@.len() - i,
    {
        let ghost before = m@;
        m.put(
            commits[i].sha.as_str(),
            #[verifier::truncate]
            (i as u32),
        );
        proof {
            let a = commits@.take(i as int);
            let b = commits@.take(i + 1);
            assert(b.drop_last() =~= a);
            assert forall|sha: Seq<char>|
                #![trigger m@.contains_key(sha)]
                #![trigger last_with_sha(b, sha)]
                match last_with_sha(b, sha) {
                    Some(j) => m@.contains_key(sha) && m@[sha] == j as u32,
                    None => !m@.contains_key(sha),
                } by {
                assert(before.contains_key(sha) || !before.contains_key(sha));
            }
        }
        i = i + 1;
    }
    assert(commits@.take(i as int) =~= commits@);
    m
}

fn touch_refs(
    touches: &Vec<Touch>,
    shas: &SortedMap<u32>,
    Ghost(commits): Ghost<Seq<Commit>>,
) -> (r: Vec<TouchRef>)
    requires
        shas.wf(),
        leads_to_last(shas@, commits),
    ensures
        r@ == refs_of(commits, replay::touch_models(touches@)),
{
    let ghost ts = replay::touch_models(touches@);
    let mut r: Vec<TouchRef> = Vec::new();
    let mut i: usize = 0;
    assert(ts.take(0) =~= Seq::empty());
    while i < touches.len()
        invariant
            i <= touches@.len(),
            ts == replay::touch_models(touches@),
            shas.wf(),
            leads_to_last(shas@, commits),
            r@ == refs_of(commits, ts.take(i as int)),
        decreases touches@.len() - i,
    {
        proof {
            assert(ts.take(i + 1).drop_last() =~= ts.take(i as int));
            assert(ts.take(i + 1).last() == touches@[i as int]@);
        }
        if let Some(c) = shas.get(touches[i].sha.as_str()) {
            r.push(TouchRef { commit: *c, time: touches[i].time });
        }
        i = i + 1;
    }
    assert(ts.take(i as int) =~= ts);
    r
}

fn commit_refs(commits: &[Commit]) -> (r: Vec<CommitRef>)
    ensures
        commit_models(r@) == kept_commits(commits@),
{
    let mut r: Vec<CommitRef> = Vec::new();
    let mut i: usize = 0;
    while i < commits.len()
        invariant
            i <= commits@.len(),
            commit_models(r@) == kept_commits(commits@).take(i as int),
        decreases commits@.len() - i,
    {
        let ghost before = r@;
        let c = &commits[i];
        let k = CommitRef {
            sha: c.sha.clone(),
            subject: c.subject.clone(),
            author: c.author.clone(),
        };
        r.push(k);
        assert(commit_models(r@) =~= commit_models(before).push(k@));
        assert(kept_commits(commits@).take(i + 1) =~= kept_commits(commits@).take(i as int).push(
            k@,
        ));
        i = i + 1;
    }
    assert(kept_commits(commits@).take(i as int) =~= kept_commits(commits@));
    r
}

/// Keep the walk as evidence.
pub fn keep_evidence(commits: &[Commit], series: &SortedMap<FileSeries>) -> (r: EvidenceIndex)
    requires
        series.wf(),
    ensures
        r.by_path.wf(),
        commit_models(r.commits@) == kept_commits(commits@),
        ref_lists(r.by_path@) == refs_by_path(commits@, replay::series_models(series@)),
{
    let shas = index_shas(commits);
    let ghost want = refs_by_path(commits@, replay::series_models(series@));
    let ghost keys = series.key_seq();
    let mut by_path: SortedMap<Vec<TouchRef>> = SortedMap::new();
    let n: usize = series.len();
    let mut i: usize = 0;
    proof {
        series.wf_keys();
    }
    while i < n
        invariant
            series.wf(),
            keys == series.key_seq(),
            n == keys.len(),
            i <= n,
            shas.wf(),
            leads_to_last(shas@, commits@),
            want == refs_by_path(commits@, replay::series_models(series@)),
            by_path.wf(),
            forall|k: Seq<char>| #[trigger]
                by_path@.contains_key(k) <==> keys.take(i as int).contains(k),
            forall|k: Seq<char>| #[trigger]
                by_path@.contains_key(k) ==> by_path@[k]@ == want[k],
        decreases n - i,
    {
        let ghost k = keys[i as int];
        let s = series.value_at(i);
        let refs = touch_refs(&s.touches, &shas, Ghost(commits@));
        by_path.put(series.key_at(i).as_str(), refs);
        proof {
            assert(series@.contains_key(k));
            assert(replay::series_models(series@)[k] == s@);
            assert(want[k] == refs@);
            assert forall|q: Seq<char>| #[trigger] keys.take(i + 1).contains(q) <==> keys.take(
                i as int,
            ).contains(q) || q == k by {
                assert(keys.take(i + 1)[i as int] == k);
                if keys.take(i as int).contains(q) {
                    let j = choose|j: int| 0 <= j < i && keys.take(i as int)[j] == q;
                    assert(keys.take(i + 1)[j] == q);
                }
                if keys.take(i + 1).contains(q) {
                    let j = keys.take(i + 1).index_of(q);
                    if j < i {
                        assert(keys.take(i as int)[j] == q);
                    }
                }
            }
        }
        i = i + 1;
    }
    proof {
        assert(keys.take(n as int) =~= keys);
        assert forall|k: Seq<char>| #[trigger] by_path@.contains_key(k) <==> series@.contains_key(
            k,
        ) by {
            assert(keys.contains(k) <==> series@.contains_key(k));
        }
        assert(ref_lists(by_path@) =~= want);
    }
    EvidenceIndex { commits: commit_refs(commits), by_path }
}

/// A place in the walk that is found has the sha, and no later one has it.
pub proof fn last_with_sha_has_it(commits: Seq<Commit>, sha: Seq<char>)
    ensures
        match last_with_sha(commits, sha) {
            Some(i) => 0 <= i < commits.len() && commits[i].sha@ == sha && forall|j: int|
                i < j < commits.len() ==> (#[trigger] commits[j]).sha@ != sha,
            None => forall|i: int| 0 <= i < commits.len() ==> (#[trigger] commits[i]).sha@ != sha,
        },
    decreases commits.len(),
{
    if commits.len() > 0 {
        last_with_sha_has_it(commits.drop_last(), sha);
        assert forall|i: int| 0 <= i < commits.len() - 1 implies commits.drop_last()[i]
            == #[trigger] commits[i] by {}
    }
}

/// Where every touch is by a commit of the walk, the evidence of a file has
/// every touch of it, in order, and each leads to the commit that made it.
pub proof fn evidence_leads_to_commits(
    commits: Seq<Commit>,
    touches: Seq<replay::TouchModel>,
)
    requires
        commits.len() <= u32::MAX,
        forall|j: int|
            0 <= j < touches.len() ==> last_with_sha(commits, (#[trigger] touches[j]).1) is Some,
    ensures
        refs_of(commits, touches).len() == touches.len(),
        forall|j: int|
            0 <= j < touches.len() ==> {
                let r = #[trigger] refs_of(commits, touches)[j];
                &&& r.commit < commits.len()
                &&& commits[r.commit as int].sha@ == touches[j].1
                &&& r.time == touches[j].0
            },
    decreases touches.len(),
{
    if touches.len() > 0 {
        let front = touches.drop_last();
        assert forall|j: int| 0 <= j < front.len() implies last_with_sha(
            commits,
            (#[trigger] front[j]).1,
        ) is Some by {
            assert(front[j] == touches[j]);
        }
        evidence_leads_to_commits(commits, front);
        let last = touches[touches.len() - 1];
        assert(last_with_sha(commits, last.1) is Some);
        last_with_sha_has_it(commits, last.1);
        assert forall|j: int| 0 <= j < touches.len() implies ({
            let r = #[trigger] refs_of(commits, touches)[j];
            &&& r.commit < commits.len()
            &&& commits[r.commit as int].sha@ == touches[j].1
            &&& r.time == touches[j].0
        }) by {
            if j < front.len() {
                assert(refs_of(commits, touches)[j] == refs_of(commits, front)[j]);
                assert(front[j] == touches[j]);
            }
        }
    }
}

impl EvidenceIndex {
    /// The touches of a path, newest first; none if it has none.
    pub open spec fn touches_of(&self, path: Seq<char>) -> Seq<TouchRef> {
        if self.by_path@.contains_key(path) {
            self.by_path@[path]@
        } else {
            Seq::empty()
        }
    }

    /// The touches of a path, newest first; none if it has none.
    pub fn touches(&self, path: &str) -> (r: &[TouchRef])
        requires
            self.by_path.wf(),
        ensures
            r@ == self.touches_of(path@),
    {
        match self.by_path.get(path) {
            Some(v) => v.as_slice(),
            None => &[],
        }
    }
}

/// A commit of the walk made the touch.
pub open spec fn made_in(commits: Seq<Commit>, t: replay::TouchModel) -> bool {
    exists|i: int|
        0 <= i < commits.len() && (#[trigger] commits[i]).time == t.0 && commits[i].sha@ == t.1
}

/// Every touch that the walk gathers was made by one of its commits.
pub proof fn touches_are_made_in_walk(
    commits: Seq<Commit>,
    prepared: Seq<crate::blobs::PreparedCommit>,
    items: Map<Seq<char>, Vec<String>>,
    p: Seq<char>,
    j: int,
)
    requires
        commits.len() == prepared.len(),
        replay::replayed(replay::at_start(), commits, prepared, items).series.contains_key(p),
        0 <= j < replay::replayed(
            replay::at_start(),
            commits,
            prepared,
            items,
        ).series[p].touches.len(),
    ensures
        made_in(
            commits,
            replay::replayed(replay::at_start(), commits, prepared, items).series[p].touches[j],
        ),
    decreases commits.len(),
{
    if commits.len() > 0 {
        let cs = commits.drop_last();
        let m = replay::replayed(replay::at_start(), cs, prepared.drop_last(), items);
        let r = replay::replayed(replay::at_start(), commits, prepared, items);
        let t = r.series[p].touches[j];
        if m.series.contains_key(p) && j < m.series[p].touches.len() {
            touches_are_made_in_walk(cs, prepared.drop_last(), items, p, j);
            assert(m.series[p].touches[j] == t);
            let i = choose|i: int|
                0 <= i < cs.len() && (#[trigger] cs[i]).time == t.0 && cs[i].sha@ == t.1;
            assert(commits[i] == cs[i]);
        } else {
            assert(commits[commits.len() - 1].sha@ == t.1);
        }
    }
}

/// The evidence of a walk is complete: a file has every touch of it, and each
/// leads to a commit with its sha.
pub proof fn evidence_is_complete(
    commits: Seq<Commit>,
    prepared: Seq<crate::blobs::PreparedCommit>,
    items: Map<Seq<char>, Vec<String>>,
    p: Seq<char>,
)
    requires
        commits.len() == prepared.len(),
        commits.len() <= u32::MAX,
        replay::replayed(replay::at_start(), commits, prepared, items).series.contains_key(p),
    ensures
        ({
            let touches = replay::replayed(
                replay::at_start(),
                commits,
                prepared,
                items,
            ).series[p].touches;
            let refs = refs_of(commits, touches);
            &&& refs.len() == touches.len()
            &&& forall|j: int|
                0 <= j < touches.len() ==> {
                    let r = #[trigger] refs[j];
                    &&& r.commit < commits.len()
                    &&& commits[r.commit as int].sha@ == touches[j].1
                    &&& r.time == touches[j].0
                }
        }),
{
    let touches = replay::replayed(
        replay::at_start(),
        commits,
        prepared,
        items,
    ).series[p].touches;
    assert forall|j: int| 0 <= j < touches.len() implies last_with_sha(
        commits,
        (#[trigger] touches[j]).1,
    ) is Some by {
        touches_are_made_in_walk(commits, prepared, items, p, j);
        last_with_sha_has_it(commits, touches[j].1);
        let i = choose|i: int|
            0 <= i < commits.len() && (#[trigger] commits[i]).time == touches[j].0
                && commits[i].sha@ == touches[j].1;
    }
    evidence_leads_to_commits(commits, touches);
}

/// Of every commit of the walk its own sha, subject and author are kept, in the
/// order of the walk.
pub proof fn commits_are_kept(commits: Seq<Commit>, i: int)
    requires
        0 <= i < commits.len(),
    ensures
        kept_commits(commits).len() == commits.len(),
        kept_commits(commits)[i].sha == commits[i].sha@,
        kept_commits(commits)[i].subject == commits[i].subject@,
        kept_commits(commits)[i].author == commits[i].author@,
{
}

/// The evidence is of the files of the walk, and of no others.
pub proof fn evidence_is_of_files(
    commits: Seq<Commit>,
    series: Map<Seq<char>, replay::SeriesModel>,
    p: Seq<char>,
)
    ensures
        refs_by_path(commits, series).contains_key(p) <==> series.contains_key(p),
        series.contains_key(p) ==> refs_by_path(commits, series)[p] == refs_of(
            commits,
            series[p].touches,
        ),
{
}

/// A touch by a commit that the walk does not know is left out, and no other
/// is: what is left stands in the order of the touches.
pub proof fn unknown_touches_are_left_out(
    commits: Seq<Commit>,
    touches: Seq<replay::TouchModel>,
)
    requires
        commits.len() <= u32::MAX,
    ensures
        ({
            let at = crate::ranking::places(
                touches.len(),
                |k: int|
                    exists|i: int|
                        0 <= i < commits.len() && (#[trigger] commits[i]).sha@ == touches[k].1,
            );
            let refs = refs_of(commits, touches);
            &&& refs.len() == at.len()
            &&& forall|j: int|
                #![trigger refs[j]]
                0 <= j < refs.len() ==> refs[j].time == touches[at[j]].0 && refs[j].commit
                    < commits.len() && commits[refs[j].commit as int].sha@ == touches[at[j]].1
        }),
    decreases touches.len(),
{
    let now = |k: int|
        exists|i: int| 0 <= i < commits.len() && (#[trigger] commits[i]).sha@ == touches[k].1;
    if touches.len() > 0 {
        let front = touches.drop_last();
        let n = front.len();
        unknown_touches_are_left_out(commits, front);
        let then = |k: int|
            exists|i: int| 0 <= i < commits.len() && (#[trigger] commits[i]).sha@ == front[k].1;
        assert forall|k: int| 0 <= k < n implies #[trigger] then(k) == now(k) by {
            assert(front[k] == touches[k]);
        }
        crate::ranking::places_agree(n, then, now);
        crate::ranking::places_are_exact(n, then);
        let before = crate::ranking::places(n, then);
        let at = crate::ranking::places(touches.len(), now);
        let past = refs_of(commits, front);
        let refs = refs_of(commits, touches);
        last_with_sha_has_it(commits, touches.last().1);
        assert(touches[n as int] == touches.last());
        assert(now(n as int) <==> last_with_sha(commits, touches.last().1) is Some);
        assert forall|j: int|
            #![trigger refs[j]]
            0 <= j < refs.len() implies refs[j].time == touches[at[j]].0 && refs[j].commit
            < commits.len() && commits[refs[j].commit as int].sha@ == touches[at[j]].1 by {
            if j < past.len() {
                assert(refs[j] == past[j]);
                assert(at[j] == before[j]);
                assert(before.contains(before[j]));
                assert(front[before[j]] == touches[at[j]]);
            }
        }
    }
}

/// As a value, a commit reference is its own fields.
pub proof fn references_are_own_fields(cs: Seq<CommitRef>, i: int)
    requires
        0 <= i < cs.len(),
    ensures
        commit_models(cs).len() == cs.len(),
        commit_models(cs)[i].sha == cs[i].sha@,
        commit_models(cs)[i].subject == cs[i].subject@,
        commit_models(cs)[i].author == cs[i].author@,
{
}

/// The touches of a path are those that are kept of it; a path of which nothing
/// is kept has none.
pub proof fn touches_are_those_kept(e: EvidenceIndex, p: Seq<char>)
    ensures
        e.by_path@.contains_key(p) ==> e.touches_of(p) == e.by_path@[p]@,
        !e.by_path@.contains_key(p) ==> e.touches_of(p).len() == 0,
        ref_lists(e.by_path@).contains_key(p) <==> e.by_path@.contains_key(p),
        e.by_path@.contains_key(p) ==> ref_lists(e.by_path@)[p] == e.by_path@[p]@,
{
}

} // verus!
