//! The walk over history, commit by commit.
//!
//! The walk goes from the newest commit to the oldest. What a commit says of a
//! path goes to the path's trajectory, which depends on every rename seen so
//! far; so commits are replayed in order, over what was read before.

use vstd::prelude::*;

use crate::blobs;
use crate::blobs::{drift_of, ChangeKind, FileChange, ItemIndex, PreparedCommit};
use crate::brandes;
use crate::lineage;
use crate::lineage::{canonical, join, new_lineage};
use crate::ranking;
use crate::sorted_map;
use crate::sorted_map::SortedMap;
use crate::text;

verus! {

/// What a commit says of itself.
pub struct Commit {
    pub sha: String,
    pub subject: String,
    /// The author's address.
    pub author: String,
    /// Seconds since the epoch, by the committer.
    pub time: i64,
    pub parents: Vec<String>,
}

/// A touch of a file: when, and by which commit.
pub struct Touch {
    pub time: i64,
    pub sha: String,
}

/// A touch as a value.
pub type TouchModel = (i64, Seq<char>);

impl View for Touch {
    type V = TouchModel;

    open spec fn view(&self) -> TouchModel {
        (self.time, self.sha@)
    }
}

/// Touches as values.
pub open spec fn touch_models(ts: Seq<Touch>) -> Seq<TouchModel> {
    ts.map_values(|t: Touch| t@)
}

/// What history says of a file, newest first.
pub struct FileSeries {
    pub touches: Vec<Touch>,
    /// The author of each touch.
    pub authors: Vec<String>,
    /// Touches by commits that also touched a test; none for a test itself.
    pub with_test: u64,
}

/// The same as a value.
#[verifier::ext_equal]
pub struct SeriesModel {
    pub touches: Seq<TouchModel>,
    pub authors: Seq<Seq<char>>,
    pub with_test: nat,
}

impl View for FileSeries {
    type V = SeriesModel;

    open spec fn view(&self) -> SeriesModel {
        SeriesModel {
            touches: touch_models(self.touches@),
            authors: sorted_map::texts(self.authors@),
            with_test: self.with_test as nat,
        }
    }
}

/// A rename that was seen.
pub struct Rename {
    pub from: String,
    pub to: String,
    pub time: i64,
    pub sha: String,
}

/// The same as a value.
pub struct RenameModel {
    pub from: Seq<char>,
    pub to: Seq<char>,
    pub time: i64,
    pub sha: Seq<char>,
}

impl View for Rename {
    type V = RenameModel;

    open spec fn view(&self) -> RenameModel {
        RenameModel { from: self.from@, to: self.to@, time: self.time, sha: self.sha@ }
    }
}

/// What the walk has gathered so far.
pub struct Replay {
    pub lineage: entropyx_git::LineageResolver,
    pub series: SortedMap<FileSeries>,
    pub renames: Vec<Rename>,
    /// Public items that changed, added up per file.
    pub drift: SortedMap<u64>,
    /// Touches by commits that respond to an incident.
    pub incidents: SortedMap<Vec<Touch>>,
    /// The files that each commit touched, each once and in order.
    pub commit_paths: Vec<Vec<String>>,
    /// The authors, in the order in which the walk met them.
    pub authors: Vec<String>,
    /// The same, to look them up.
    pub author_set: SortedMap<()>,
}

/// The same as a value.
#[verifier::ext_equal]
pub struct ReplayModel {
    pub trajectories: Map<Seq<char>, Seq<char>>,
    pub series: Map<Seq<char>, SeriesModel>,
    pub renames: Seq<RenameModel>,
    pub drift: Map<Seq<char>, u64>,
    pub incidents: Map<Seq<char>, Seq<TouchModel>>,
    pub commit_paths: Seq<Seq<Seq<char>>>,
    pub authors: Seq<Seq<char>>,
}

pub open spec fn series_models(m: Map<Seq<char>, FileSeries>) -> Map<Seq<char>, SeriesModel> {
    m.map_values(|s: FileSeries| s@)
}

pub open spec fn incident_models(
    m: Map<Seq<char>, Vec<Touch>>,
) -> Map<Seq<char>, Seq<TouchModel>> {
    m.map_values(|v: Vec<Touch>| touch_models(v@))
}

pub open spec fn rename_models(s: Seq<Rename>) -> Seq<RenameModel> {
    s.map_values(|r: Rename| r@)
}

impl View for Replay {
    type V = ReplayModel;

    open spec fn view(&self) -> ReplayModel {
        ReplayModel {
            trajectories: lineage::trajectories(self.lineage),
            series: series_models(self.series@),
            renames: rename_models(self.renames@),
            drift: self.drift@,
            incidents: incident_models(self.incidents@),
            commit_paths: brandes::commit_texts(self.commit_paths@),
            authors: sorted_map::texts(self.authors@),
        }
    }
}

// ---- what one commit does -------------------------------------------

/// The subject marks a response to an incident: it begins with `fix`, `hotfix`
/// or `revert`, in any case of the letters, with a separator behind.
pub open spec fn incident_subject(subject: Seq<char>) -> bool {
    let s = text::lower_text(text::trim_start(subject));
    ||| marked(s, "fix"@)
    ||| marked(s, "hotfix"@)
    ||| marked(s, "revert"@)
}

/// `s` begins with the word and a separator.
pub open spec fn marked(s: Seq<char>, word: Seq<char>) -> bool {
    &&& text::starts_with(s, word)
    &&& s.len() > word.len()
    &&& {
        let c = s[word.len() as int];
        c == ':' || c == ' ' || c == '(' || c == '!'
    }
}

/// `entropyx_core::metric::is_incident_subject` drops leading white space,
/// ignores the case of the letters, and wants one of three words with a
/// separator behind it, as `incident_subject` says.
#[verifier::external_body]
fn is_incident_subject(subject: &str) -> (r: bool)
    ensures
        r == incident_subject(subject@),
{
    entropyx_core::metric::is_incident_subject(subject)
}

/// Whether `entropyx_core::metric::is_test_path` takes the path for a test's.
pub uninterp spec fn test_path(path: Seq<char>) -> bool;

/// `entropyx_core::metric::is_test_path` tells a test by the shape of its path.
#[verifier::external_body]
pub(crate) fn is_test_path(path: &str) -> (r: bool)
    ensures
        r == test_path(path@),
{
    entropyx_core::metric::is_test_path(path)
}

/// The trajectories after the renames of some changes.
pub open spec fn after_renames(
    m: Map<Seq<char>, Seq<char>>,
    changes: Seq<FileChange>,
) -> Map<Seq<char>, Seq<char>>
    decreases changes.len(),
{
    if changes.len() == 0 {
        m
    } else {
        let before = after_renames(m, changes.drop_last());
        match changes.last().kind {
            ChangeKind::Renamed { from } => lineage::joined(before, from@, changes.last().path@),
            _ => before,
        }
    }
}

/// The renames among some changes.
pub open spec fn renames_among(changes: Seq<FileChange>, c: Commit) -> Seq<RenameModel>
    decreases changes.len(),
{
    if changes.len() == 0 {
        Seq::empty()
    } else {
        let before = renames_among(changes.drop_last(), c);
        match changes.last().kind {
            ChangeKind::Renamed { from } => before.push(
                RenameModel {
                    from: from@,
                    to: changes.last().path@,
                    time: c.time,
                    sha: c.sha@,
                },
            ),
            _ => before,
        }
    }
}

/// The touches of a file; none if there are none.
pub open spec fn touches_at(m: Map<Seq<char>, Seq<TouchModel>>, p: Seq<char>) -> Seq<TouchModel> {
    if m.contains_key(p) {
        m[p]
    } else {
        Seq::empty()
    }
}

/// The incidents with one more per change.
pub open spec fn with_incidents(
    m: Map<Seq<char>, Seq<TouchModel>>,
    trajectories: Map<Seq<char>, Seq<char>>,
    changes: Seq<FileChange>,
    t: TouchModel,
) -> Map<Seq<char>, Seq<TouchModel>>
    decreases changes.len(),
{
    if changes.len() == 0 {
        m
    } else {
        let before = with_incidents(m, trajectories, changes.drop_last(), t);
        let p = lineage::canonical_in(trajectories, changes.last().path@);
        before.insert(p, touches_at(before, p).push(t))
    }
}

/// A sum in 64 bits; one that does not fit stays at the greatest number.
pub open spec fn capped_sum(a: u64, b: u32) -> u64 {
    if a + b > u64::MAX {
        u64::MAX
    } else {
        (a + b) as u64
    }
}

/// The drift with that of some changes; a change without sides adds none.
pub open spec fn with_drift(
    m: Map<Seq<char>, u64>,
    trajectories: Map<Seq<char>, Seq<char>>,
    changes: Seq<FileChange>,
    deltas: Seq<Option<u32>>,
) -> Map<Seq<char>, u64>
    decreases changes.len(),
{
    if changes.len() == 0 {
        m
    } else {
        let n = changes.len() - 1;
        let before = with_drift(m, trajectories, changes.drop_last(), deltas);
        let p = lineage::canonical_in(trajectories, changes.last().path@);
        match deltas[n] {
            Some(d) => before.insert(
                p,
                capped_sum(
                    if before.contains_key(p) {
                        before[p]
                    } else {
                        0
                    },
                    d,
                ),
            ),
            None => before,
        }
    }
}

/// The files that some changes touch.
pub open spec fn touched_set(
    trajectories: Map<Seq<char>, Seq<char>>,
    changes: Seq<FileChange>,
) -> Set<Seq<char>> {
    Set::new(
        |p: Seq<char>|
            exists|i: int|
                0 <= i < changes.len() && p == lineage::canonical_in(
                    trajectories,
                    (#[trigger] changes[i]).path@,
                ),
    )
}

/// The same in order.
pub open spec fn touched(
    trajectories: Map<Seq<char>, Seq<char>>,
    changes: Seq<FileChange>,
) -> Seq<Seq<char>> {
    sorted_map::in_key_order(touched_set(trajectories, changes))
}

/// One of the changes is to a test.
pub open spec fn touches_test(changes: Seq<FileChange>) -> bool {
    exists|i: int| 0 <= i < changes.len() && test_path((#[trigger] changes[i]).path@)
}

/// What is known of a file that was not touched yet.
pub open spec fn no_series() -> SeriesModel {
    SeriesModel { touches: Seq::empty(), authors: Seq::empty(), with_test: 0 }
}

/// A series with one more touch.
pub open spec fn with_touch(
    s: SeriesModel,
    t: TouchModel,
    author: Seq<char>,
    beside_test: bool,
) -> SeriesModel {
    SeriesModel {
        touches: s.touches.push(t),
        authors: s.authors.push(author),
        with_test: s.with_test + if beside_test {
            1nat
        } else {
            0
        },
    }
}

/// The series with one more touch of each of the files.
pub open spec fn with_touches(
    m: Map<Seq<char>, SeriesModel>,
    paths: Set<Seq<char>>,
    c: Commit,
    has_test: bool,
) -> Map<Seq<char>, SeriesModel> {
    Map::new(
        |p: Seq<char>| m.contains_key(p) || paths.contains(p),
        |p: Seq<char>|
            if paths.contains(p) {
                with_touch(
                    if m.contains_key(p) {
                        m[p]
                    } else {
                        no_series()
                    },
                    (c.time, c.sha@),
                    c.author@,
                    has_test && !test_path(p),
                )
            } else {
                m[p]
            },
    )
}

/// What the walk has gathered after one more commit.
pub open spec fn after_commit(
    m: ReplayModel,
    c: Commit,
    changes: Seq<FileChange>,
    deltas: Seq<Option<u32>>,
) -> ReplayModel {
    let trajectories = after_renames(m.trajectories, changes);
    ReplayModel {
        trajectories,
        series: with_touches(
            m.series,
            touched_set(trajectories, changes),
            c,
            touches_test(changes),
        ),
        renames: m.renames + renames_among(changes, c),
        drift: with_drift(m.drift, trajectories, changes, deltas),
        incidents: if incident_subject(c.subject@) {
            with_incidents(m.incidents, trajectories, changes, (c.time, c.sha@))
        } else {
            m.incidents
        },
        commit_paths: m.commit_paths.push(touched(trajectories, changes)),
        authors: if m.authors.contains(c.author@) {
            m.authors
        } else {
            m.authors.push(c.author@)
        },
    }
}

/// Before the first commit.
pub open spec fn at_start() -> ReplayModel {
    ReplayModel {
        trajectories: Map::empty(),
        series: Map::empty(),
        renames: Seq::empty(),
        drift: Map::empty(),
        incidents: Map::empty(),
        commit_paths: Seq::empty(),
        authors: Seq::empty(),
    }
}

// ---- one commit, computed -------------------------------------------

fn any_test(changes: &Vec<FileChange>) -> (r: bool)
    ensures
        r == touches_test(changes@),
{
    let mut i: usize = 0;
    while i < changes.len()
        invariant
            i <= changes@.len(),
            forall|j: int| 0 <= j < i ==> !test_path((#[trigger] changes@[j]).path@),
        decreases changes@.len() - i,
    {
        if is_test_path(changes[i].path.as_str()) {
            return true;
        }
        i = i + 1;
    }
    false
}

fn join_renames(l: &mut entropyx_git::LineageResolver, changes: &Vec<FileChange>)
    ensures
        lineage::trajectories(*final(l)) == after_renames(
            lineage::trajectories(*old(l)),
            changes@,
        ),
{
    let ghost m0 = lineage::trajectories(*l);
    let mut i: usize = 0;
    assert(changes@.take(0) =~= Seq::empty());
    while i < changes.len()
        invariant
            i <= changes@.len(),
            lineage::trajectories(*l) == after_renames(m0, changes@.take(i as int)),
        decreases changes@.len() - i,
    {
        assert(changes@.take(i + 1).drop_last() =~= changes@.take(i as int));
        let ch = &changes[i];
        if let ChangeKind::Renamed { from } = &ch.kind {
            join(l, from.as_str(), ch.path.as_str());
        }
        i = i + 1;
    }
    assert(changes@.take(i as int) =~= changes@);
}

fn note_renames(renames: &mut Vec<Rename>, changes: &Vec<FileChange>, c: &Commit)
    ensures
        rename_models(final(renames)@) == rename_models(old(renames)@) + renames_among(
            changes@,
            *c,
        ),
{
    let ghost r0 = rename_models(renames@);
    let mut i: usize = 0;
    assert(changes@.take(0) =~= Seq::empty());
    assert(r0 + Seq::empty() =~= r0);
    while i < changes.len()
        invariant
            i <= changes@.len(),
            rename_models(renames@) == r0 + renames_among(changes@.take(i as int), *c),
        decreases changes@.len() - i,
    {
        assert(changes@.take(i + 1).drop_last() =~= changes@.take(i as int));
        let ch = &changes[i];
        if let ChangeKind::Renamed { from } = &ch.kind {
            let r = Rename {
                from: from.clone(),
                to: ch.path.clone(),
                time: c.time,
                sha: c.sha.clone(),
            };
            let ghost before = renames@;
            renames.push(r);
            assert(rename_models(renames@) =~= rename_models(before).push(r@));
            assert(rename_models(renames@) =~= r0 + renames_among(changes@.take(i + 1), *c));
        }
        i = i + 1;
    }
    assert(changes@.take(i as int) =~= changes@);
}

fn note_incidents(
    m: &mut SortedMap<Vec<Touch>>,
    l: &mut entropyx_git::LineageResolver,
    changes: &Vec<FileChange>,
    c: &Commit,
)
    requires
        old(m).wf(),
    ensures
        final(m).wf(),
        lineage::trajectories(*final(l)) == lineage::trajectories(*old(l)),
        incident_models(final(m)@) == with_incidents(
            incident_models(old(m)@),
            lineage::trajectories(*old(l)),
            changes@,
            (c.time, c.sha@),
        ),
{
    let ghost ts = lineage::trajectories(*l);
    let ghost m0 = incident_models(m@);
    let ghost t = (c.time, c.sha@);
    let mut i: usize = 0;
    assert(changes@.take(0) =~= Seq::empty());
    while i < changes.len()
        invariant
            i <= changes@.len(),
            t == (c.time, c.sha@),
            m.wf(),
            lineage::trajectories(*l) == ts,
            incident_models(m@) == with_incidents(m0, ts, changes@.take(i as int), t),
        decreases changes@.len() - i,
    {
        assert(changes@.take(i + 1).drop_last() =~= changes@.take(i as int));
        let ghost before = m@;
        let p = canonical(l, changes[i].path.as_str());
        let k = m.place_or_put(p.as_str(), Vec::new());
        let v = m.value_mut(k);
        let ghost v0 = v@;
        let touch = Touch { time: c.time, sha: c.sha.clone() };
        v.push(touch);
        proof {
            assert(touch_models(v0.push(touch)) =~= touch_models(v0).push(t));
            assert(touch_models(v0) =~= touches_at(incident_models(before), p@));
            assert(incident_models(m@) =~= incident_models(before).insert(
                p@,
                touch_models(v0).push(t),
            ));
        }
        i = i + 1;
    }
    assert(changes@.take(i as int) =~= changes@);
}

fn note_drift(
    m: &mut SortedMap<u64>,
    l: &mut entropyx_git::LineageResolver,
    changes: &Vec<FileChange>,
    deltas: &Vec<Option<u32>>,
)
    requires
        old(m).wf(),
        deltas@.len() == changes@.len(),
    ensures
        final(m).wf(),
        lineage::trajectories(*final(l)) == lineage::trajectories(*old(l)),
        final(m)@ == with_drift(old(m)@, lineage::trajectories(*old(l)), changes@, deltas@),
{
    let ghost ts = lineage::trajectories(*l);
    let ghost m0 = m@;
    let mut i: usize = 0;
    assert(changes@.take(0) =~= Seq::empty());
    while i < changes.len()
        invariant
            i <= changes@.len(),
            deltas@.len() == changes@.len(),
            m.wf(),
            lineage::trajectories(*l) == ts,
            m@ == with_drift(m0, ts, changes@.take(i as int), deltas@),
        decreases changes@.len() - i,
    {
        assert(changes@.take(i + 1).drop_last() =~= changes@.take(i as int));
        if let Some(d) = deltas[i] {
            let p = canonical(l, changes[i].path.as_str());
            let sum: u64 = match m.get(p.as_str()) {
                Some(n) => *n,
                None => 0,
            };
            let sum: u64 = if sum > u64::MAX - d as u64 {
                u64::MAX
            } else {
                sum + d as u64
            };
            m.put(p.as_str(), sum);
        }
        i = i + 1;
    }
    assert(changes@.take(i as int) =~= changes@);
}

fn touched_paths(
    l: &mut entropyx_git::LineageResolver,
    changes: &Vec<FileChange>,
) -> (r: Vec<String>)
    ensures
        lineage::trajectories(*final(l)) == lineage::trajectories(*old(l)),
        sorted_map::texts(r@) == touched(lineage::trajectories(*old(l)), changes@),
        sorted_map::ascending(sorted_map::texts(r@)),
        sorted_map::texts(r@).to_set() == touched_set(lineage::trajectories(*old(l)), changes@),
{
    let ghost ts = lineage::trajectories(*l);
    let mut keys: SortedMap<()> = SortedMap::new();
    let mut i: usize = 0;
    assert(keys@.dom() =~= touched_set(ts, changes@.take(0)));
    while i < changes.len()
        invariant
            i <= changes@.len(),
            lineage::trajectories(*l) == ts,
            keys.wf(),
            keys@.dom() == touched_set(ts, changes@.take(i as int)),
        decreases changes@.len() - i,
    {
        let p = canonical(l, changes[i].path.as_str());
        keys.put(p.as_str(), ());
        proof {
            let a = changes@.take(i as int);
            let b = changes@.take(i + 1);
            assert forall|q: Seq<char>| #[trigger] touched_set(ts, b).contains(q) <==> touched_set(
                ts,
                a,
            ).contains(q) || q == p@ by {
                assert(b[i as int] == changes@[i as int]);
                if touched_set(ts, a).contains(q) {
                    let j = choose|j: int|
                        0 <= j < a.len() && q == lineage::canonical_in(
                            ts,
                            (#[trigger] a[j]).path@,
                        );
                    assert(b[j] == a[j]);
                }
                if touched_set(ts, b).contains(q) {
                    let j = choose|j: int|
                        0 <= j < b.len() && q == lineage::canonical_in(
                            ts,
                            (#[trigger] b[j]).path@,
                        );
                    if j < i {
                        assert(a[j] == b[j]);
                    }
                }
            }
            assert(keys@.dom() =~= touched_set(ts, b));
        }
        i = i + 1;
    }
    assert(changes@.take(i as int) =~= changes@);
    proof {
        keys.wf_keys();
        keys.wf_key_order();
    }
    keys.key_list()
}

/// Count a touch beside a test: the commit touched one, and the file is none.
pub fn beside_test(has_test: bool, is_test: bool) -> (r: bool)
    ensures
        r == (has_test && !is_test),
{
    has_test && !is_test
}

/// Every file has as many authors as touches, and no more touches beside a
/// test than touches.
pub open spec fn series_consistent(s: SeriesModel) -> bool {
    &&& s.authors.len() == s.touches.len()
    &&& s.with_test <= s.touches.len()
}

/// The series of all files are consistent.
pub open spec fn all_consistent(m: Map<Seq<char>, SeriesModel>) -> bool {
    forall|p: Seq<char>| #[trigger] m.contains_key(p) ==> series_consistent(m[p])
}

/// Every author of a touch is an author of the walk.
pub open spec fn authors_known(m: ReplayModel) -> bool {
    forall|p: Seq<char>, i: int|
        m.series.contains_key(p) && 0 <= i < m.series[p].authors.len() ==> m.authors.contains(
            #[trigger] m.series[p].authors[i],
        )
}

proof fn lemma_author_known(
    m: ReplayModel,
    c: Commit,
    changes: Seq<FileChange>,
    deltas: Seq<Option<u32>>,
)
    requires
        authors_known(m),
    ensures
        authors_known(after_commit(m, c, changes, deltas)),
{
    let r = after_commit(m, c, changes, deltas);
    assert(r.authors.contains(c.author@)) by {
        if !m.authors.contains(c.author@) {
            assert(r.authors[m.authors.len() as int] == c.author@);
        }
    }
    assert forall|p: Seq<char>, i: int|
        r.series.contains_key(p) && 0 <= i < r.series[p].authors.len() implies r.authors.contains(
        #[trigger] r.series[p].authors[i],
    ) by {
        let a = r.series[p].authors[i];
        if m.series.contains_key(p) && i < m.series[p].authors.len() {
            assert(m.series[p].authors[i] == a);
            assert(m.authors.contains(a));
            let j = choose|j: int| 0 <= j < m.authors.len() && m.authors[j] == a;
            assert(r.authors[j] == a);
        } else {
            assert(a == c.author@);
        }
    }
}

fn note_touches(
    m: &mut SortedMap<FileSeries>,
    paths: &Vec<String>,
    c: &Commit,
    has_test: bool,
)
    requires
        old(m).wf(),
        all_consistent(series_models(old(m)@)),
        sorted_map::ascending(sorted_map::texts(paths@)),
    ensures
        final(m).wf(),
        series_models(final(m)@) == with_touches(
            series_models(old(m)@),
            sorted_map::texts(paths@).to_set(),
            *c,
            has_test,
        ),
{
    let ghost ps = sorted_map::texts(paths@);
    let ghost m0 = series_models(m@);
    let mut i: usize = 0;
    assert(series_models(m@) =~= with_touches(m0, ps.take(0).to_set(), *c, has_test));
    while i < paths.len()
        invariant
            i <= paths@.len(),
            ps == sorted_map::texts(paths@),
            sorted_map::ascending(ps),
            m.wf(),
            all_consistent(m0),
            series_models(m@) == with_touches(m0, ps.take(i as int).to_set(), *c, has_test),
        decreases paths@.len() - i,
    {
        let p = paths[i].as_str();
        let ghost before = m@;
        let beside = beside_test(has_test, is_test_path(p));
        let k = m.place_or_put(
            p,
            FileSeries { touches: Vec::new(), authors: Vec::new(), with_test: 0 },
        );
        let s = m.value_mut(k);
        let ghost s0 = *s;
        let touch = Touch { time: c.time, sha: c.sha.clone() };
        proof {
            let seen = ps.take(i as int);
            assert(!seen.to_set().contains(p@)) by {
                if seen.contains(p@) {
                    let j = choose|j: int| 0 <= j < seen.len() && seen[j] == p@;
                    assert(crate::order::text_less(ps[j], ps[i as int]));
                    crate::order::text_less_irreflexive(p@);
                }
            }
            assert(series_models(before).contains_key(p@) <==> m0.contains_key(p@));
            if m0.contains_key(p@) {
                assert(series_models(before)[p@] == m0[p@]);
                assert(s0@ == m0[p@]);
                assert(series_consistent(s0@));
            } else {
                assert(s0@ =~= no_series());
            }
            assert(s0@.touches.len() == s0.touches@.len());
        }
        s.touches.push(touch);
        s.authors.push(c.author.clone());
        if beside {
            let with_this: usize = s.touches.len();
            assert(s.with_test < with_this);
            s.with_test = s.with_test + 1;
        }
        let ghost s1 = *s;
        proof {
            assert(touch_models(s0.touches@.push(touch)) =~= touch_models(s0.touches@).push(
                touch@,
            ));
            assert(sorted_map::texts(s1.authors@) =~= sorted_map::texts(s0.authors@).push(
                c.author@,
            ));
            assert(s1@ =~= with_touch(s0@, (c.time, c.sha@), c.author@, beside));
            assert(series_models(m@) =~= series_models(before).insert(p@, s1@));
            let a = ps.take(i as int);
            let b = ps.take(i + 1);
            assert forall|q: Seq<char>| #[trigger] b.to_set().contains(q) <==> a.to_set().contains(
                q,
            ) || q == p@ by {
                assert(b[i as int] == p@);
                if a.contains(q) {
                    let j = choose|j: int| 0 <= j < a.len() && a[j] == q;
                    assert(b[j] == q);
                }
                if b.contains(q) {
                    let j = choose|j: int| 0 <= j < b.len() && b[j] == q;
                    if j < i {
                        assert(a[j] == q);
                    }
                }
            }
            assert(series_models(m@) =~= with_touches(m0, b.to_set(), *c, has_test));
        }
        i = i + 1;
    }
    assert(ps.take(i as int) =~= ps);
}

// ---- the walk --------------------------------------------------------

/// How much of the public interface each change of a commit touched; none for
/// a change without sides.
pub open spec fn deltas_of(
    items: Map<Seq<char>, Vec<String>>,
    p: PreparedCommit,
) -> Seq<Option<u32>> {
    Seq::new(
        p.api@.len(),
        |i: int|
            match p.api@[i] {
                Some(sides) => Some(blobs::change_drift(items, sides) as u32),
                None => None,
            },
    )
}

/// What the walk has gathered after some commits, from `m` on.
pub open spec fn replayed(
    m: ReplayModel,
    commits: Seq<Commit>,
    prepared: Seq<PreparedCommit>,
    items: Map<Seq<char>, Vec<String>>,
) -> ReplayModel
    decreases commits.len(),
{
    if commits.len() == 0 || prepared.len() == 0 {
        m
    } else {
        after_commit(
            replayed(m, commits.drop_last(), prepared.drop_last(), items),
            commits.last(),
            prepared.last().changes@,
            deltas_of(items, prepared.last()),
        )
    }
}

/// The drifts of a commit's changes.
pub fn commit_deltas(items: &ItemIndex, p: &PreparedCommit) -> (r: Vec<Option<u32>>)
    requires
        items.wf(),
        blobs::items_fit(items@),
    ensures
        r@ == deltas_of(items@, *p),
{
    let mut r: Vec<Option<u32>> = Vec::new();
    let mut i: usize = 0;
    while i < p.api.len()
        invariant
            i <= p.api@.len(),
            items.wf(),
            blobs::items_fit(items@),
            r@ == deltas_of(items@, *p).take(i as int),
        decreases p.api@.len() - i,
    {
        let d: Option<u32> = match &p.api[i] {
            Some(sides) => Some(drift_of(items, sides)),
            None => None,
        };
        r.push(d);
        assert(deltas_of(items@, *p).take(i + 1) =~= deltas_of(items@, *p).take(i as int).push(
            d,
        ));
        i = i + 1;
    }
    assert(deltas_of(items@, *p).take(i as int) =~= deltas_of(items@, *p));
    r
}

impl Replay {
    /// The maps are in order, and the series consistent.
    pub open spec fn wf(&self) -> bool {
        &&& self.series.wf()
        &&& self.drift.wf()
        &&& self.incidents.wf()
        &&& all_consistent(self@.series)
        &&& authors_known(self@)
        &&& self.author_set.wf()
        &&& self.author_set@.dom() == self@.authors.to_set()
        &&& self@.authors.no_duplicates()
    }

    /// Before the first commit.
    pub fn new() -> (r: Replay)
        ensures
            r.wf(),
            r@ == at_start(),
    {
        let r = Replay {
            lineage: new_lineage(),
            series: SortedMap::new(),
            renames: Vec::new(),
            drift: SortedMap::new(),
            incidents: SortedMap::new(),
            commit_paths: Vec::new(),
            authors: Vec::new(),
            author_set: SortedMap::new(),
        };
        assert(r@.authors =~= Seq::empty());
        assert(r.author_set@.dom() =~= r@.authors.to_set());
        assert(r@.trajectories =~= Map::empty());
        assert(r@.series =~= Map::empty());
        assert(r@.renames =~= Seq::empty());
        assert(r@.incidents =~= Map::empty());
        assert(r@.commit_paths =~= Seq::empty());
        r
    }

    /// Take one more commit, given how much of the public interface each of its
    /// changes touched.
    pub fn step(&mut self, c: &Commit, p: &PreparedCommit, deltas: &Vec<Option<u32>>)
        requires
            old(self).wf(),
            p.wf(),
            deltas@.len() == p.changes@.len(),
        ensures
            final(self).wf(),
            final(self)@ == after_commit(old(self)@, *c, p.changes@, deltas@),
    {
        let ghost m0 = self@;
        let incident = is_incident_subject(c.subject.as_str());
        let has_test = any_test(&p.changes);
        join_renames(&mut self.lineage, &p.changes);
        note_renames(&mut self.renames, &p.changes, c);
        if incident {
            note_incidents(&mut self.incidents, &mut self.lineage, &p.changes, c);
        }
        note_drift(&mut self.drift, &mut self.lineage, &p.changes, deltas);
        let paths = touched_paths(&mut self.lineage, &p.changes);
        note_touches(&mut self.series, &paths, c, has_test);
        let ghost lists = self.commit_paths@;
        self.commit_paths.push(paths);
        let ghost authors0 = self.authors@;
        if !self.author_set.contains(c.author.as_str()) {
            self.author_set.put(c.author.as_str(), ());
            self.authors.push(c.author.clone());
            proof {
                assert(sorted_map::texts(self.authors@) =~= sorted_map::texts(authors0).push(
                    c.author@,
                ));
            }
        }
        proof {
            lemma_author_known(m0, *c, p.changes@, deltas@);
            assert(sorted_map::texts(self.authors@).no_duplicates());
            assert(self.author_set@.dom() =~= sorted_map::texts(self.authors@).to_set()) by {
                assert forall|a: Seq<char>| #[trigger] self.author_set@.dom().contains(a)
                    <==> sorted_map::texts(self.authors@).to_set().contains(a) by {
                    let now = sorted_map::texts(self.authors@);
                    assert(m0.authors.to_set().contains(a) <==> m0.authors.contains(a));
                    if m0.authors.contains(a) {
                        let j = choose|j: int| 0 <= j < m0.authors.len() && m0.authors[j] == a;
                        assert(now[j] == a);
                    }
                    if !m0.authors.contains(c.author@) {
                        assert(now[m0.authors.len() as int] == c.author@);
                    }
                    if now.contains(a) {
                        let j = choose|j: int| 0 <= j < now.len() && now[j] == a;
                        if j < m0.authors.len() {
                            assert(m0.authors[j] == a);
                        }
                    }
                }
            }
        }
        proof {
            assert(brandes::commit_texts(self.commit_paths@) =~= brandes::commit_texts(lists).push(
                sorted_map::texts(paths@),
            ));
            let m1 = after_commit(m0, *c, p.changes@, deltas@);
            touches_keep_consistent(
                m0.series,
                touched_set(m1.trajectories, p.changes@),
                *c,
                has_test,
            );
            assert(self@ =~= m1);
        }
    }

    /// Take the commits from `from` up to `to`.
    pub fn run(
        &mut self,
        commits: &[Commit],
        prepared: &[PreparedCommit],
        items: &ItemIndex,
        from: usize,
        to: usize,
    )
        requires
            old(self).wf(),
            items.wf(),
            blobs::items_fit(items@),
            from <= to <= commits@.len(),
            to <= prepared@.len(),
            forall|i: int| 0 <= i < prepared@.len() ==> (#[trigger] prepared@[i]).wf(),
        ensures
            final(self).wf(),
            final(self)@ == replayed(
                old(self)@,
                commits@.subrange(from as int, to as int),
                prepared@.subrange(from as int, to as int),
                items@,
            ),
    {
        let ghost m0 = self@;
        let mut i: usize = from;
        while i < to
            invariant
                self.wf(),
                items.wf(),
                blobs::items_fit(items@),
                from <= i <= to <= commits@.len(),
                to <= prepared@.len(),
                forall|i: int| 0 <= i < prepared@.len() ==> (#[trigger] prepared@[i]).wf(),
                self@ == replayed(
                    m0,
                    commits@.subrange(from as int, i as int),
                    prepared@.subrange(from as int, i as int),
                    items@,
                ),
            decreases to - i,
        {
            let p = &prepared[i];
            let deltas = commit_deltas(items, p);
            self.step(&commits[i], p, &deltas);
            proof {
                let cs = commits@.subrange(from as int, i + 1);
                let ps = prepared@.subrange(from as int, i + 1);
                assert(cs.drop_last() =~= commits@.subrange(from as int, i as int));
                assert(ps.drop_last() =~= prepared@.subrange(from as int, i as int));
            }
            i = i + 1;
        }
    }
}

// ---- what holds of the walk -----------------------------------------

/// A touch keeps the series consistent.
pub proof fn touches_keep_consistent(
    m: Map<Seq<char>, SeriesModel>,
    paths: Set<Seq<char>>,
    c: Commit,
    has_test: bool,
)
    requires
        all_consistent(m),
    ensures
        all_consistent(with_touches(m, paths, c, has_test)),
{
    let r = with_touches(m, paths, c, has_test);
    assert forall|p: Seq<char>| #[trigger] r.contains_key(p) implies series_consistent(r[p]) by {
        if m.contains_key(p) {
            assert(series_consistent(m[p]));
        }
    }
}

/// The walk in two parts is the walk.
pub proof fn walk_in_parts(
    m: ReplayModel,
    commits: Seq<Commit>,
    prepared: Seq<PreparedCommit>,
    items: Map<Seq<char>, Vec<String>>,
    k: int,
)
    requires
        commits.len() == prepared.len(),
        0 <= k <= commits.len(),
    ensures
        replayed(
            replayed(m, commits.take(k), prepared.take(k), items),
            commits.skip(k),
            prepared.skip(k),
            items,
        ) == replayed(m, commits, prepared, items),
    decreases commits.len(),
{
    if k == commits.len() {
        assert(commits.take(k) =~= commits);
        assert(prepared.take(k) =~= prepared);
        assert(commits.skip(k).len() == 0);
    } else {
        let cs = commits.drop_last();
        let ps = prepared.drop_last();
        walk_in_parts(m, cs, ps, items, k);
        assert(cs.take(k) =~= commits.take(k));
        assert(ps.take(k) =~= prepared.take(k));
        assert(commits.skip(k).drop_last() =~= cs.skip(k));
        assert(prepared.skip(k).drop_last() =~= ps.skip(k));
        assert(commits.skip(k).last() == commits.last());
        assert(prepared.skip(k).last() == prepared.last());
    }
}

/// Every commit gives one list of files, in order and each once.
pub proof fn one_list_per_commit(
    m: ReplayModel,
    commits: Seq<Commit>,
    prepared: Seq<PreparedCommit>,
    items: Map<Seq<char>, Vec<String>>,
)
    requires
        commits.len() == prepared.len(),
    ensures
        replayed(m, commits, prepared, items).commit_paths.len() == m.commit_paths.len()
            + commits.len(),
    decreases commits.len(),
{
    if commits.len() > 0 {
        one_list_per_commit(m, commits.drop_last(), prepared.drop_last(), items);
    }
}

/// The authors of the walk are those of its commits, in the order in which
/// they first occur.
pub proof fn authors_are_first_seen(
    commits: Seq<Commit>,
    prepared: Seq<PreparedCommit>,
    items: Map<Seq<char>, Vec<String>>,
)
    requires
        commits.len() == prepared.len(),
    ensures
        replayed(at_start(), commits, prepared, items).authors == brandes::first_seen(
            commits.map_values(|c: Commit| c.author@),
        ),
    decreases commits.len(),
{
    let emails = commits.map_values(|c: Commit| c.author@);
    if commits.len() > 0 {
        authors_are_first_seen(commits.drop_last(), prepared.drop_last(), items);
        assert(emails.drop_last() =~= commits.drop_last().map_values(|c: Commit| c.author@));
    }
}

/// How often a commit touched the file.
pub open spec fn list_count(lists: Seq<Seq<Seq<char>>>, p: Seq<char>) -> nat
    decreases lists.len(),
{
    if lists.len() == 0 {
        0
    } else {
        list_count(lists.drop_last(), p) + if lists.last().contains(p) {
            1nat
        } else {
            0
        }
    }
}

/// How many touches a file has.
pub open spec fn touch_count(m: ReplayModel, p: Seq<char>) -> nat {
    if m.series.contains_key(p) {
        m.series[p].touches.len()
    } else {
        0
    }
}

/// The changes of a commit have an order.
pub proof fn touched_lists_changes(
    trajectories: Map<Seq<char>, Seq<char>>,
    changes: Seq<FileChange>,
)
    ensures
        sorted_map::ascending(touched(trajectories, changes)),
        touched(trajectories, changes).to_set() == touched_set(trajectories, changes),
    decreases changes.len(),
{
    let s = touched_set(trajectories, changes);
    let ps = Seq::new(
        changes.len(),
        |i: int| lineage::canonical_in(trajectories, changes[i].path@),
    );
    assert(s =~= ps.to_set()) by {
        assert forall|p: Seq<char>| #[trigger] s.contains(p) <==> ps.to_set().contains(p) by {
            if s.contains(p) {
                let i = choose|i: int|
                    0 <= i < changes.len() && p == lineage::canonical_in(
                        trajectories,
                        (#[trigger] changes[i]).path@,
                    );
                assert(ps[i] == p);
            }
            if ps.contains(p) {
                let i = choose|i: int| 0 <= i < ps.len() && ps[i] == p;
                assert(p == lineage::canonical_in(trajectories, changes[i].path@));
            }
        }
    }
    sorted_map::set_of_list_has_order(ps);
}

/// A file has one touch for each commit that lists it: every touch is counted,
/// and none twice.
pub proof fn touches_match_lists(
    commits: Seq<Commit>,
    prepared: Seq<PreparedCommit>,
    items: Map<Seq<char>, Vec<String>>,
    p: Seq<char>,
)
    requires
        commits.len() == prepared.len(),
    ensures
        touch_count(replayed(at_start(), commits, prepared, items), p) == list_count(
            replayed(at_start(), commits, prepared, items).commit_paths,
            p,
        ),
    decreases commits.len(),
{
    if commits.len() > 0 {
        let m = replayed(at_start(), commits.drop_last(), prepared.drop_last(), items);
        touches_match_lists(commits.drop_last(), prepared.drop_last(), items, p);
        let changes = prepared.last().changes@;
        let ts = after_renames(m.trajectories, changes);
        touched_lists_changes(ts, changes);
        let list = touched(ts, changes);
        let r = replayed(at_start(), commits, prepared, items);
        assert(r.commit_paths.drop_last() =~= m.commit_paths);
        assert(list.to_set().contains(p) <==> list.contains(p));
    }
}

/// Renames join trajectories and split none: what shared one keeps sharing it.
pub proof fn renames_split_nothing(
    m: Map<Seq<char>, Seq<char>>,
    changes: Seq<FileChange>,
    p: Seq<char>,
    q: Seq<char>,
)
    requires
        m.contains_key(p),
        m.contains_key(q),
        m[p] == m[q],
    ensures
        after_renames(m, changes).contains_key(p),
        after_renames(m, changes).contains_key(q),
        after_renames(m, changes)[p] == after_renames(m, changes)[q],
    decreases changes.len(),
{
    if changes.len() > 0 {
        let before = after_renames(m, changes.drop_last());
        renames_split_nothing(m, changes.drop_last(), p, q);
        match changes.last().kind {
            ChangeKind::Renamed { from } => {
                lineage::rename_splits_nothing(before, from@, changes.last().path@, p, q);
            },
            _ => {},
        }
    }
}

/// Paths that shared a trajectory at some point of the walk share it at the
/// end.
pub proof fn trajectories_are_kept(
    m: ReplayModel,
    commits: Seq<Commit>,
    prepared: Seq<PreparedCommit>,
    items: Map<Seq<char>, Vec<String>>,
    p: Seq<char>,
    q: Seq<char>,
)
    requires
        m.trajectories.contains_key(p),
        m.trajectories.contains_key(q),
        m.trajectories[p] == m.trajectories[q],
    ensures
        replayed(m, commits, prepared, items).trajectories.contains_key(p),
        replayed(m, commits, prepared, items).trajectories.contains_key(q),
        replayed(m, commits, prepared, items).trajectories[p] == replayed(
            m,
            commits,
            prepared,
            items,
        ).trajectories[q],
    decreases commits.len(),
{
    if commits.len() > 0 && prepared.len() > 0 {
        let before = replayed(m, commits.drop_last(), prepared.drop_last(), items);
        trajectories_are_kept(m, commits.drop_last(), prepared.drop_last(), items, p, q);
        renames_split_nothing(before.trajectories, prepared.last().changes@, p, q);
    }
}

/// Every file that the walk knows was touched, and its series are consistent.
pub proof fn series_are_consistent(
    commits: Seq<Commit>,
    prepared: Seq<PreparedCommit>,
    items: Map<Seq<char>, Vec<String>>,
)
    ensures
        all_consistent(replayed(at_start(), commits, prepared, items).series),
    decreases commits.len(),
{
    if commits.len() > 0 && prepared.len() > 0 {
        let m = replayed(at_start(), commits.drop_last(), prepared.drop_last(), items);
        series_are_consistent(commits.drop_last(), prepared.drop_last(), items);
        let changes = prepared.last().changes@;
        touches_keep_consistent(
            m.series,
            touched_set(after_renames(m.trajectories, changes), changes),
            commits.last(),
            touches_test(changes),
        );
    }
}

// ---- what the walk says of every commit ------------------------------

/// The file is among those that a commit touched: one of its changes is to a
/// path on the file's trajectory as the commit left it.
pub proof fn lists_hold_changed_files(
    commits: Seq<Commit>,
    prepared: Seq<PreparedCommit>,
    items: Map<Seq<char>, Vec<String>>,
    k: int,
    p: Seq<char>,
)
    requires
        commits.len() == prepared.len(),
        0 <= k < commits.len(),
    ensures
        replayed(at_start(), commits, prepared, items).commit_paths[k].contains(p) <==> exists|
            j: int,
        |
            0 <= j < prepared[k].changes@.len() && p == lineage::canonical_in(
                replayed(at_start(), commits.take(k + 1), prepared.take(k + 1), items).trajectories,
                (#[trigger] prepared[k].changes@[j]).path@,
            ),
    decreases commits.len(),
{
    let r = replayed(at_start(), commits, prepared, items);
    let cs = commits.drop_last();
    let ps = prepared.drop_last();
    one_list_per_commit(at_start(), cs, ps, items);
    if k < cs.len() {
        lists_hold_changed_files(cs, ps, items, k, p);
        assert(cs.take(k + 1) =~= commits.take(k + 1));
        assert(ps.take(k + 1) =~= prepared.take(k + 1));
        assert(r.commit_paths[k] == replayed(at_start(), cs, ps, items).commit_paths[k]);
    } else {
        assert(commits.take(k + 1) =~= commits);
        assert(prepared.take(k + 1) =~= prepared);
        let changes = prepared[k].changes@;
        touched_lists_changes(r.trajectories, changes);
        let list = touched(r.trajectories, changes);
        assert(list.to_set().contains(p) <==> list.contains(p));
    }
}

/// A file's touches are the commits that list it, one each and in the order of
/// the walk: their times and shas, and beside them their authors.
pub proof fn touches_are_commits_that_list(
    commits: Seq<Commit>,
    prepared: Seq<PreparedCommit>,
    items: Map<Seq<char>, Vec<String>>,
    p: Seq<char>,
)
    requires
        commits.len() == prepared.len(),
    ensures
        ({
            let r = replayed(at_start(), commits, prepared, items);
            let at = ranking::places(commits.len(), |k: int| r.commit_paths[k].contains(p));
            &&& r.series.contains_key(p) <==> at.len() > 0
            &&& r.series.contains_key(p) ==> r.series[p].touches == at.map_values(
                |k: int| (commits[k].time, commits[k].sha@),
            )
            &&& r.series.contains_key(p) ==> r.series[p].authors == at.map_values(
                |k: int| commits[k].author@,
            )
        }),
    decreases commits.len(),
{
    let r = replayed(at_start(), commits, prepared, items);
    if commits.len() > 0 {
        let n = (commits.len() - 1) as nat;
        let cs = commits.drop_last();
        let ps = prepared.drop_last();
        let m = replayed(at_start(), cs, ps, items);
        touches_are_commits_that_list(cs, ps, items, p);
        one_list_per_commit(at_start(), cs, ps, items);
        let now = |k: int| r.commit_paths[k].contains(p);
        let then = |k: int| m.commit_paths[k].contains(p);
        assert forall|k: int| 0 <= k < n implies #[trigger] then(k) == now(k) by {
            assert(m.commit_paths[k] == r.commit_paths[k]);
        }
        ranking::places_agree(n, then, now);
        let before = ranking::places(n, then);
        ranking::places_are_exact(n, then);
        let changes = prepared.last().changes@;
        touched_lists_changes(r.trajectories, changes);
        let list = touched(r.trajectories, changes);
        assert(list.to_set().contains(p) <==> list.contains(p));
        assert(r.commit_paths[n as int] == list);
        let at = ranking::places(commits.len(), now);
        let touch = |k: int| (commits[k].time, commits[k].sha@);
        let author = |k: int| commits[k].author@;
        assert forall|i: int| 0 <= i < before.len() implies 0 <= #[trigger] before[i] < n by {
            assert(before.contains(before[i]));
        }
        assert(before.map_values(|k: int| (cs[k].time, cs[k].sha@)) =~= before.map_values(touch));
        assert(before.map_values(|k: int| cs[k].author@) =~= before.map_values(author));
        if now(n as int) {
            assert(at.map_values(touch) =~= before.map_values(touch).push(touch(n as int)));
            assert(at.map_values(author) =~= before.map_values(author).push(author(n as int)));
            if !m.series.contains_key(p) {
                assert(before.map_values(touch) =~= Seq::empty());
                assert(before.map_values(author) =~= Seq::empty());
            }
        }
    }
}

/// The touches of a file beside a test are as many as the commits that list
/// the file and have a test's path among their changes; a test has none.
pub proof fn touches_beside_tests_are_counted(
    commits: Seq<Commit>,
    prepared: Seq<PreparedCommit>,
    items: Map<Seq<char>, Vec<String>>,
    p: Seq<char>,
)
    requires
        commits.len() == prepared.len(),
        replayed(at_start(), commits, prepared, items).series.contains_key(p),
    ensures
        test_path(p) ==> replayed(at_start(), commits, prepared, items).series[p].with_test == 0,
        !test_path(p) ==> replayed(at_start(), commits, prepared, items).series[p].with_test
            == ranking::places(
            commits.len(),
            |k: int|
                replayed(at_start(), commits, prepared, items).commit_paths[k].contains(p)
                    && exists|j: int|
                    0 <= j < prepared[k].changes@.len() && test_path(
                        (#[trigger] prepared[k].changes@[j]).path@,
                    ),
        ).len(),
{
    lemma_beside_tests(commits, prepared, items, p);
}

proof fn lemma_beside_tests(
    commits: Seq<Commit>,
    prepared: Seq<PreparedCommit>,
    items: Map<Seq<char>, Vec<String>>,
    p: Seq<char>,
)
    requires
        commits.len() == prepared.len(),
    ensures
        ({
            let r = replayed(at_start(), commits, prepared, items);
            let n = ranking::places(
                commits.len(),
                |k: int|
                    r.commit_paths[k].contains(p) && exists|j: int|
                        0 <= j < prepared[k].changes@.len() && test_path(
                            (#[trigger] prepared[k].changes@[j]).path@,
                        ),
            ).len();
            &&& r.series.contains_key(p) && test_path(p) ==> r.series[p].with_test == 0
            &&& r.series.contains_key(p) && !test_path(p) ==> r.series[p].with_test == n
            &&& !r.series.contains_key(p) ==> n == 0
        }),
    decreases commits.len(),
{
    let r = replayed(at_start(), commits, prepared, items);
    if commits.len() > 0 {
        let n = (commits.len() - 1) as nat;
        let cs = commits.drop_last();
        let ps = prepared.drop_last();
        let m = replayed(at_start(), cs, ps, items);
        lemma_beside_tests(cs, ps, items, p);
        one_list_per_commit(at_start(), cs, ps, items);
        let now = |k: int|
            r.commit_paths[k].contains(p) && exists|j: int|
                0 <= j < prepared[k].changes@.len() && test_path(
                    (#[trigger] prepared[k].changes@[j]).path@,
                );
        let then = |k: int|
            m.commit_paths[k].contains(p) && exists|j: int|
                0 <= j < ps[k].changes@.len() && test_path((#[trigger] ps[k].changes@[j]).path@);
        assert forall|k: int| 0 <= k < n implies #[trigger] then(k) == now(k) by {
            assert(m.commit_paths[k] == r.commit_paths[k]);
            assert(ps[k] == prepared[k]);
        }
        ranking::places_agree(n, then, now);
        let changes = prepared.last().changes@;
        touched_lists_changes(r.trajectories, changes);
        let list = touched(r.trajectories, changes);
        assert(list.to_set().contains(p) <==> list.contains(p));
        assert(r.commit_paths[n as int] == list);
        assert(prepared[n as int] == prepared.last());
        assert(now(n as int) <==> list.contains(p) && touches_test(changes));
    }
}

/// A commit whose subject speaks of an incident adds one touch per change of
/// the file to the file's incidents, with its own time and sha; any other adds
/// none.
pub proof fn incidents_grow_by_changes(
    m: ReplayModel,
    c: Commit,
    changes: Seq<FileChange>,
    deltas: Seq<Option<u32>>,
    p: Seq<char>,
)
    ensures
        ({
            let r = after_commit(m, c, changes, deltas);
            let n = ranking::places(
                changes.len(),
                |j: int| lineage::canonical_in(r.trajectories, changes[j].path@) == p,
            ).len();
            let none = Seq::<TouchModel>::empty();
            let before = if m.incidents.contains_key(p) {
                m.incidents[p]
            } else {
                none
            };
            let after = if r.incidents.contains_key(p) {
                r.incidents[p]
            } else {
                none
            };
            after == before + Seq::new(
                if incident_subject(c.subject@) {
                    n
                } else {
                    0
                },
                |i: int| (c.time, c.sha@),
            )
        }),
{
    let t = (c.time, c.sha@);
    let ts = after_renames(m.trajectories, changes);
    lemma_incidents(m.incidents, ts, changes, t, p);
    assert(touches_at(m.incidents, p) + Seq::new(0, |i: int| t) =~= touches_at(m.incidents, p));
}

proof fn lemma_incidents(
    m: Map<Seq<char>, Seq<TouchModel>>,
    ts: Map<Seq<char>, Seq<char>>,
    changes: Seq<FileChange>,
    t: TouchModel,
    p: Seq<char>,
)
    ensures
        touches_at(with_incidents(m, ts, changes, t), p) == touches_at(m, p) + Seq::new(
            ranking::places(
                changes.len(),
                |j: int| lineage::canonical_in(ts, changes[j].path@) == p,
            ).len(),
            |i: int| t,
        ),
    decreases changes.len(),
{
    let now = |j: int| lineage::canonical_in(ts, changes[j].path@) == p;
    if changes.len() > 0 {
        let front = changes.drop_last();
        lemma_incidents(m, ts, front, t, p);
        let then = |j: int| lineage::canonical_in(ts, front[j].path@) == p;
        ranking::places_agree(front.len(), then, now);
        let n = ranking::places(front.len(), then).len();
        assert((touches_at(m, p) + Seq::new(n, |i: int| t)).push(t) =~= touches_at(m, p)
            + Seq::new(n + 1, |i: int| t));
        assert(now(changes.len() - 1) <==> lineage::canonical_in(ts, changes.last().path@) == p);
    } else {
        assert(touches_at(m, p) =~= touches_at(m, p) + Seq::new(0, |i: int| t));
    }
}

/// A commit's renames are noted one by one, in the order of its changes: where
/// from, where to, and when; nothing else is noted as a rename.
pub proof fn renames_are_renamed_changes(
    m: ReplayModel,
    c: Commit,
    changes: Seq<FileChange>,
    deltas: Seq<Option<u32>>,
)
    ensures
        ({
            let r = after_commit(m, c, changes, deltas);
            let at = ranking::places(changes.len(), |j: int| changes[j].kind is Renamed);
            &&& r.renames.len() == m.renames.len() + at.len()
            &&& forall|i: int| 0 <= i < m.renames.len() ==> #[trigger] r.renames[i] == m.renames[i]
            &&& forall|i: int|
                #![trigger at[i]]
                0 <= i < at.len() ==> {
                    let x = r.renames[m.renames.len() + i];
                    &&& changes[at[i]].kind matches ChangeKind::Renamed { from } && from@ == x.from
                    &&& x.to == changes[at[i]].path@
                    &&& x.time == c.time
                    &&& x.sha == c.sha@
                }
        }),
{
    lemma_renames(changes, c);
}

proof fn lemma_renames(changes: Seq<FileChange>, c: Commit)
    ensures
        ({
            let at = ranking::places(changes.len(), |j: int| changes[j].kind is Renamed);
            let rs = renames_among(changes, c);
            &&& rs.len() == at.len()
            &&& forall|i: int|
                #![trigger at[i]]
                0 <= i < at.len() ==> {
                    &&& changes[at[i]].kind matches ChangeKind::Renamed { from } && from@
                        == rs[i].from
                    &&& rs[i].to == changes[at[i]].path@
                    &&& rs[i].time == c.time
                    &&& rs[i].sha == c.sha@
                }
        }),
    decreases changes.len(),
{
    if changes.len() > 0 {
        let front = changes.drop_last();
        lemma_renames(front, c);
        let now = |j: int| changes[j].kind is Renamed;
        let then = |j: int| front[j].kind is Renamed;
        ranking::places_agree(front.len(), then, now);
        let before = ranking::places(front.len(), then);
        ranking::places_are_exact(front.len(), then);
        let at = ranking::places(changes.len(), now);
        let rs = renames_among(changes, c);
        assert forall|i: int|
            #![trigger at[i]]
            0 <= i < at.len() implies {
            &&& changes[at[i]].kind matches ChangeKind::Renamed { from } && from@ == rs[i].from
            &&& rs[i].to == changes[at[i]].path@
            &&& rs[i].time == c.time
            &&& rs[i].sha == c.sha@
        } by {
            if i < before.len() {
                assert(before[i] == at[i]);
                assert(before.contains(before[i]));
                assert(front[before[i]] == changes[at[i]]);
            } else {
                assert(now(changes.len() - 1));
            }
        }
    }
}

/// After a commit that renames a file, the old and the new path are one
/// trajectory; a commit without renames leaves every trajectory as it was.
pub proof fn renamed_paths_share_a_trajectory(
    m: Map<Seq<char>, Seq<char>>,
    changes: Seq<FileChange>,
    j: int,
)
    requires
        0 <= j < changes.len(),
    ensures
        changes[j].kind matches ChangeKind::Renamed { from } ==> lineage::canonical_in(
            after_renames(m, changes),
            from@,
        ) == lineage::canonical_in(after_renames(m, changes), changes[j].path@),
        (forall|i: int| 0 <= i < changes.len() ==> !((#[trigger] changes[i]).kind is Renamed))
            ==> after_renames(m, changes) == m,
{
    lemma_no_renames(m, changes);
    if changes[j].kind is Renamed {
        lemma_share(m, changes, j);
    }
}

proof fn lemma_no_renames(m: Map<Seq<char>, Seq<char>>, changes: Seq<FileChange>)
    ensures
        (forall|i: int| 0 <= i < changes.len() ==> !((#[trigger] changes[i]).kind is Renamed))
            ==> after_renames(m, changes) == m,
    decreases changes.len(),
{
    if changes.len() > 0 {
        lemma_no_renames(m, changes.drop_last());
        assert(changes[changes.len() - 1] == changes.last());
        if forall|i: int| 0 <= i < changes.len() ==> !((#[trigger] changes[i]).kind is Renamed) {
            assert forall|i: int| 0 <= i < changes.drop_last().len() implies !((
            #[trigger] changes.drop_last()[i]).kind is Renamed) by {
                assert(changes[i] == changes.drop_last()[i]);
            }
        }
    }
}

proof fn lemma_share(m: Map<Seq<char>, Seq<char>>, changes: Seq<FileChange>, j: int)
    requires
        0 <= j < changes.len(),
        changes[j].kind is Renamed,
    ensures
        changes[j].kind matches ChangeKind::Renamed { from } ==> {
            let r = after_renames(m, changes);
            &&& r.contains_key(from@)
            &&& r.contains_key(changes[j].path@)
            &&& r[from@] == r[changes[j].path@]
        },
    decreases changes.len(),
{
    if j < changes.len() - 1 {
        let front = changes.drop_last();
        lemma_share(m, front, j);
        assert(front[j] == changes[j]);
    }
}

/// The drift of a file grows by the drifts of its changes and by nothing else;
/// one beyond 64 bits stays at the greatest number.
pub proof fn drift_sums_changes(
    m: ReplayModel,
    c: Commit,
    changes: Seq<FileChange>,
    deltas: Seq<Option<u32>>,
    p: Seq<char>,
)
    requires
        deltas.len() == changes.len(),
    ensures
        ({
            let r = after_commit(m, c, changes, deltas);
            let at = ranking::places(
                changes.len(),
                |j: int|
                    lineage::canonical_in(r.trajectories, changes[j].path@) == p
                        && deltas[j] is Some,
            );
            let before: int = if m.drift.contains_key(p) {
                m.drift[p] as int
            } else {
                0
            };
            let sum = at.fold_left(before, |s: int, j: int| s + deltas[j]->0);
            &&& r.drift.contains_key(p) <==> m.drift.contains_key(p) || at.len() > 0
            &&& r.drift.contains_key(p) ==> r.drift[p] == if sum <= u64::MAX {
                sum
            } else {
                u64::MAX as int
            }
        }),
{
    lemma_drift(m.drift, after_renames(m.trajectories, changes), changes, deltas, p);
}

proof fn lemma_drift(
    m: Map<Seq<char>, u64>,
    ts: Map<Seq<char>, Seq<char>>,
    changes: Seq<FileChange>,
    deltas: Seq<Option<u32>>,
    p: Seq<char>,
)
    ensures
        ({
            let r = with_drift(m, ts, changes, deltas);
            let at = ranking::places(
                changes.len(),
                |j: int| lineage::canonical_in(ts, changes[j].path@) == p && deltas[j] is Some,
            );
            let before: int = if m.contains_key(p) {
                m[p] as int
            } else {
                0
            };
            let sum = at.fold_left(before, |s: int, j: int| s + deltas[j]->0);
            &&& sum >= before
            &&& r.contains_key(p) <==> m.contains_key(p) || at.len() > 0
            &&& r.contains_key(p) ==> r[p] == if sum <= u64::MAX {
                sum
            } else {
                u64::MAX as int
            }
        }),
    decreases changes.len(),
{
    if changes.len() > 0 {
        let front = changes.drop_last();
        let n = front.len();
        lemma_drift(m, ts, front, deltas, p);
        let now = |j: int|
            lineage::canonical_in(ts, changes[j].path@) == p && deltas[j] is Some;
        let then = |j: int| lineage::canonical_in(ts, front[j].path@) == p && deltas[j] is Some;
        ranking::places_agree(n, then, now);
        let before = ranking::places(n, then);
        let at = ranking::places(changes.len(), now);
        assert(now(n as int) <==> lineage::canonical_in(ts, changes.last().path@) == p
            && deltas[n as int] is Some);
        if now(n as int) {
            assert(at.drop_last() =~= before);
            assert(at.last() == n);
        }
    }
}

/// Every change of a commit has its own drift: that between its own two sides,
/// and none where it has no sides.
pub proof fn deltas_are_of_their_changes(
    items: Map<Seq<char>, Vec<String>>,
    p: PreparedCommit,
    i: int,
)
    requires
        0 <= i < p.api@.len(),
    ensures
        deltas_of(items, p).len() == p.api@.len(),
        deltas_of(items, p)[i] is Some <==> p.api@[i] is Some,
        p.api@[i] matches Some(sides) ==> deltas_of(items, p)[i] == Some(
            blobs::change_drift(items, sides) as u32,
        ),
{
}

/// A walk begins with nothing.
pub proof fn walks_begin_with_nothing(p: Seq<char>)
    ensures
        !at_start().series.contains_key(p),
        !at_start().drift.contains_key(p),
        !at_start().incidents.contains_key(p),
        lineage::canonical_in(at_start().trajectories, p) == p,
        at_start().renames.len() == 0,
        at_start().commit_paths.len() == 0,
        at_start().authors.len() == 0,
{
}

/// As values, a touch, a series and a rename are their own fields.
pub proof fn histories_are_own_fields(t: Touch, s: FileSeries, r: Rename, i: int)
    ensures
        t@ == (t.time, t.sha@),
        s@.touches.len() == s.touches@.len(),
        0 <= i < s.touches@.len() ==> s@.touches[i] == (s.touches@[i].time, s.touches@[i].sha@),
        s@.authors.len() == s.authors@.len(),
        0 <= i < s.authors@.len() ==> s@.authors[i] == s.authors@[i]@,
        s@.with_test == s.with_test,
        r@.from == r.from@,
        r@.to == r.to@,
        r@.time == r.time,
        r@.sha == r.sha@,
{
}

/// As a value, a walk is what it has gathered: of every file its own series,
/// drift and incidents, the renames and lists in their order, and the authors.
pub proof fn walks_are_own_fields(w: Replay, p: Seq<char>, i: int)
    ensures
        w@.trajectories == lineage::trajectories(w.lineage),
        w@.series.contains_key(p) <==> w.series@.contains_key(p),
        w.series@.contains_key(p) ==> w@.series[p] == w.series@[p]@,
        w@.drift == w.drift@,
        w@.incidents.contains_key(p) <==> w.incidents@.contains_key(p),
        w.incidents@.contains_key(p) ==> w@.incidents[p] == w.incidents@[p]@.map_values(
            |t: Touch| (t.time, t.sha@),
        ),
        w@.renames.len() == w.renames@.len(),
        0 <= i < w.renames@.len() ==> w@.renames[i] == w.renames@[i]@,
        w@.commit_paths.len() == w.commit_paths@.len(),
        0 <= i < w.commit_paths@.len() ==> w@.commit_paths[i]
            == w.commit_paths@[i]@.map_values(|s: String| s@),
        w@.authors == w.authors@.map_values(|s: String| s@),
{
    if w.incidents@.contains_key(p) {
        assert(w@.incidents[p] =~= w.incidents@[p]@.map_values(|t: Touch| (t.time, t.sha@)));
    }
    if 0 <= i < w.commit_paths@.len() {
        assert(w@.commit_paths[i] =~= w.commit_paths@[i]@.map_values(|s: String| s@));
    }
}

} // verus!
