//! The row of each file: its axes, its score and its class.
//!
//! Measures stand as the bits of double-precision numbers. Those that need
//! arithmetic are computed by the caller; here they are brought together.

use vstd::prelude::*;

use crate::graph;
use crate::graph::measure;
use crate::replay;
use crate::replay::{is_test_path, FileSeries, Replay, Touch};
use crate::signal;
use crate::signal::{classify_with, Axes, SignalClass};
use crate::sorted_map::SortedMap;
use crate::vertices;
use crate::vertices::intern_file;

verus! {

/// How a file moves along with tests.
#[derive(Clone, Copy, PartialEq, Eq, Structural, Debug)]
pub enum TestShare {
    /// It is a test itself.
    Test,
    /// So many of its touches were by commits that also touched a test.
    Share { with_test: u64, touches: usize },
}

/// How a file moves along with tests, given whether it is one.
pub open spec fn share_of(is_test: bool, s: replay::SeriesModel) -> TestShare {
    if is_test {
        TestShare::Test
    } else {
        TestShare::Share { with_test: s.with_test as u64, touches: s.touches.len() as usize }
    }
}

/// How a file moves along with tests.
pub fn test_share(path: &str, s: &FileSeries) -> (r: TestShare)
    ensures
        r == share_of(replay::test_path(path@), s@),
{
    share_given(is_test_path(path), s)
}

/// How a file moves along with tests, given whether it is one.
pub fn share_given(is_test: bool, s: &FileSeries) -> (r: TestShare)
    ensures
        r == share_of(is_test, s@),
{
    if is_test {
        TestShare::Test
    } else {
        TestShare::Share { with_test: s.with_test, touches: s.touches.len() }
    }
}

/// The measures of a file that are computed from its series.
#[derive(Clone, Copy)]
pub struct SeriesMeasures {
    pub author_entropy: u64,
    pub temporal_volatility: u64,
    pub test_cooevolution: u64,
}

/// The measures of all files by path; a path without one measures zero.
pub struct PathMeasures {
    pub change_density: SortedMap<u64>,
    pub coupling_stress: SortedMap<u64>,
    pub blame_youth: SortedMap<u64>,
    pub semantic_drift: SortedMap<u64>,
}

impl PathMeasures {
    pub open spec fn wf(&self) -> bool {
        &&& self.change_density.wf()
        &&& self.coupling_stress.wf()
        &&& self.blame_youth.wf()
        &&& self.semantic_drift.wf()
    }
}

/// The axes of a file.
pub open spec fn axes_at(m: PathMeasures, s: SeriesMeasures, p: Seq<char>) -> Axes {
    Axes {
        change_density: graph::measure_at(m.change_density@, p),
        author_entropy: s.author_entropy,
        temporal_volatility: s.temporal_volatility,
        coupling_stress: graph::measure_at(m.coupling_stress@, p),
        blame_youth: graph::measure_at(m.blame_youth@, p),
        semantic_drift: graph::measure_at(m.semantic_drift@, p),
        test_cooevolution: s.test_cooevolution,
    }
}

/// Bring the axes of every file together, in the order of the files.
pub fn gather_axes(
    series: &SortedMap<FileSeries>,
    m: &PathMeasures,
    given: &Vec<SeriesMeasures>,
) -> (r: Vec<Axes>)
    requires
        series.wf(),
        m.wf(),
        given@.len() == series.key_seq().len(),
    ensures
        r@ == Seq::new(
            series.key_seq().len(),
            |i: int| axes_at(*m, given@[i], series.key_seq()[i]),
        ),
{
    let ghost want = Seq::new(
        series.key_seq().len(),
        |i: int| axes_at(*m, given@[i], series.key_seq()[i]),
    );
    let n: usize = series.len();
    let mut r: Vec<Axes> = Vec::new();
    let mut i: usize = 0;
    while i < n
        invariant
            series.wf(),
            m.wf(),
            n == series.key_seq().len(),
            given@.len() == n,
            i <= n,
            want == Seq::new(
                series.key_seq().len(),
                |i: int| axes_at(*m, given@[i], series.key_seq()[i]),
            ),
            r@ == want.take(i as int),
        decreases n - i,
    {
        let p = series.key_at(i).as_str();
        let g = given[i];
        let a = Axes {
            change_density: measure(&m.change_density, p),
            author_entropy: g.author_entropy,
            temporal_volatility: g.temporal_volatility,
            coupling_stress: measure(&m.coupling_stress, p),
            blame_youth: measure(&m.blame_youth, p),
            semantic_drift: measure(&m.semantic_drift, p),
            test_cooevolution: g.test_cooevolution,
        };
        r.push(a);
        assert(want.take(i + 1) =~= want.take(i as int).push(a));
        i = i + 1;
    }
    assert(want.take(i as int) =~= want);
    r
}

/// The row of a file.
#[derive(Clone, Copy)]
pub struct FileRow {
    pub file: u32,
    pub axes: Axes,
    pub composite: u64,
    pub signal_class: Option<SignalClass>,
}

/// A file whose public interface drifts, with its latest touch.
pub struct DriftNotice {
    pub path: String,
    pub at: i64,
    pub sha: String,
    pub pub_items_changed: u32,
}

/// The same as a value.
pub struct NoticeModel {
    pub path: Seq<char>,
    pub at: i64,
    pub sha: Seq<char>,
    pub pub_items_changed: u32,
}

impl View for DriftNotice {
    type V = NoticeModel;

    open spec fn view(&self) -> NoticeModel {
        NoticeModel {
            path: self.path@,
            at: self.at,
            sha: self.sha@,
            pub_items_changed: self.pub_items_changed,
        }
    }
}

/// The place of the latest touch, the last of several at one time.
pub open spec fn latest(ts: Seq<replay::TouchModel>) -> int
    decreases ts.len(),
{
    if ts.len() <= 1 {
        0
    } else {
        let m = latest(ts.drop_last());
        if ts.last().0 >= ts[m].0 {
            ts.len() - 1
        } else {
            m
        }
    }
}

/// No touch is later than the latest, and none behind it as late.
pub proof fn latest_is_latest(ts: Seq<replay::TouchModel>)
    requires
        ts.len() > 0,
    ensures
        0 <= latest(ts) < ts.len(),
        forall|i: int| 0 <= i < ts.len() ==> (#[trigger] ts[i]).0 <= ts[latest(ts)].0,
        forall|i: int| latest(ts) < i < ts.len() ==> (#[trigger] ts[i]).0 < ts[latest(ts)].0,
    decreases ts.len(),
{
    if ts.len() > 1 {
        let f = ts.drop_last();
        latest_is_latest(f);
        assert forall|i: int| 0 <= i < f.len() implies ts[i] == #[trigger] f[i] by {}
        assert forall|i: int| 0 <= i < ts.len() implies (#[trigger] ts[i]).0 <= ts[latest(
            ts,
        )].0 by {
            if i < f.len() {
                assert(f[i] == ts[i]);
            }
        }
        assert forall|i: int| latest(ts) < i < ts.len() implies (#[trigger] ts[i]).0 < ts[latest(
            ts,
        )].0 by {
            if i < f.len() {
                assert(f[i] == ts[i]);
            }
        }
    }
}

/// The place of the latest touch.
pub fn latest_touch(ts: &Vec<Touch>) -> (r: usize)
    requires
        ts@.len() > 0,
    ensures
        r < ts@.len(),
        r == latest(replay::touch_models(ts@)),
{
    let ghost m = replay::touch_models(ts@);
    let mut best: usize = 0;
    let mut i: usize = 1;
    assert(m.take(1).len() == 1);
    while i < ts.len()
        invariant
            1 <= i <= ts@.len(),
            m == replay::touch_models(ts@),
            best < i,
            best == latest(m.take(i as int)),
        decreases ts@.len() - i,
    {
        proof {
            assert(m.take(i + 1).drop_last() =~= m.take(i as int));
            assert(m.take(i + 1).last() == ts@[i as int]@);
            assert(m.take(i + 1)[best as int] == ts@[best as int]@);
        }
        if ts[i].time >= ts[best].time {
            best = i;
        }
        i = i + 1;
    }
    assert(m.take(i as int) =~= m);
    best
}

/// The file had an incident.
pub open spec fn had_incident(m: replay::ReplayModel, p: Seq<char>) -> bool {
    m.incidents.contains_key(p) && m.incidents[p].len() > 0
}

/// The row of the `i`-th file.
pub open spec fn row_at(
    m: replay::ReplayModel,
    files: Seq<Seq<char>>,
    axes: Seq<Axes>,
    composites: Seq<u64>,
    i: int,
) -> FileRow {
    FileRow {
        file: i as u32,
        axes: axes[i],
        composite: composites[i],
        signal_class: signal::class_of(axes[i], had_incident(m, files[i])),
    }
}

/// What is said of a file whose interface drifts.
pub open spec fn notice_of(m: replay::ReplayModel, p: Seq<char>) -> NoticeModel {
    let ts = m.series[p].touches;
    NoticeModel {
        path: p,
        at: if ts.len() > 0 {
            ts[latest(ts)].0
        } else {
            0
        },
        sha: if ts.len() > 0 {
            ts[latest(ts)].1
        } else {
            Seq::empty()
        },
        pub_items_changed: graph::measure_at(m.drift, p) as u32,
    }
}

/// The notices of the rows of drifting files, in the order of the rows.
pub open spec fn notices_of(
    m: replay::ReplayModel,
    files: Seq<Seq<char>>,
    rows: Seq<FileRow>,
) -> Seq<NoticeModel>
    decreases rows.len(),
{
    if rows.len() == 0 {
        Seq::empty()
    } else {
        let before = notices_of(m, files, rows.drop_last());
        if rows.last().signal_class == Some(SignalClass::ApiDrift) {
            before.push(notice_of(m, files[rows.len() - 1]))
        } else {
            before
        }
    }
}

/// Every notice names one of the files.
pub proof fn notices_name_files(
    m: replay::ReplayModel,
    files: Seq<Seq<char>>,
    rows: Seq<FileRow>,
)
    requires
        rows.len() <= files.len(),
    ensures
        forall|i: int|
            0 <= i < notices_of(m, files, rows).len() ==> files.contains(
                (#[trigger] notices_of(m, files, rows)[i]).path,
            ),
    decreases rows.len(),
{
    if rows.len() > 0 {
        notices_name_files(m, files, rows.drop_last());
        let before = notices_of(m, files, rows.drop_last());
        assert(files.contains(files[rows.len() - 1]));
        assert forall|i: int| 0 <= i < notices_of(m, files, rows).len() implies files.contains(
            (#[trigger] notices_of(m, files, rows)[i]).path,
        ) by {
            if i < before.len() {
                assert(notices_of(m, files, rows)[i] == before[i]);
            }
        }
    }
}

/// Notices as values.
pub open spec fn notice_models(s: Seq<DriftNotice>) -> Seq<NoticeModel> {
    s.map_values(|n: DriftNotice| n@)
}

fn drift_notice(w: &Replay, p: &str, s: &FileSeries) -> (r: DriftNotice)
    requires
        w.wf(),
        w.series@.contains_key(p@),
        *s == w.series@[p@],
    ensures
        r@ == notice_of(w@, p@),
{
    let ghost ts = replay::touch_models(s.touches@);
    assert(w@.series[p@] == s@);
    let raw: u64 = measure(&w.drift, p);
    let pub_items_changed: u32 = #[verifier::truncate]
    (raw as u32);
    let (at, sha) = if s.touches.len() > 0 {
        let k: usize = latest_touch(&s.touches);
        assert(ts[k as int] == s.touches@[k as int]@);
        (s.touches[k].time, s.touches[k].sha.clone())
    } else {
        (0, String::new())
    };
    let r = DriftNotice { path: p.to_owned(), at, sha, pub_items_changed };
    assert(r@.sha =~= notice_of(w@, p@).sha);
    r
}

/// The row of every file, in the order of the files, and the notices of those
/// whose interface drifts.
pub fn score_rows(
    w: &Replay,
    t: &mut entropyx_core::VertexTable,
    axes: &Vec<Axes>,
    composites: &Vec<u64>,
) -> (r: (Vec<FileRow>, Vec<DriftNotice>))
    requires
        w.wf(),
        vertices::table_indexed(*old(t)),
        vertices::table_files(*old(t)) == w.series.key_seq(),
        w.series.key_seq().len() <= u32::MAX,
        axes@.len() == w.series.key_seq().len(),
        composites@.len() == w.series.key_seq().len(),
    ensures
        vertices::table_indexed(*final(t)),
        vertices::table_files(*final(t)) == vertices::table_files(*old(t)),
        vertices::table_authors(*final(t)) == vertices::table_authors(*old(t)),
        r.0@ == Seq::new(
            w.series.key_seq().len(),
            |i: int| row_at(w@, w.series.key_seq(), axes@, composites@, i),
        ),
        notice_models(r.1@) == notices_of(w@, w.series.key_seq(), r.0@),
{
    let ghost keys = w.series.key_seq();
    let ghost authors = vertices::table_authors(*t);
    let ghost want = Seq::new(keys.len(), |i: int| row_at(w@, keys, axes@, composites@, i));
    let n: usize = w.series.len();
    let mut rows: Vec<FileRow> = Vec::new();
    let mut notices: Vec<DriftNotice> = Vec::new();
    let mut i: usize = 0;
    proof {
        w.series.wf_keys();
        assert(notice_models(notices@) =~= Seq::empty());
    }
    while i < n
        invariant
            w.wf(),
            keys == w.series.key_seq(),
            keys.no_duplicates(),
            n == keys.len(),
            n <= u32::MAX,
            axes@.len() == n,
            composites@.len() == n,
            i <= n,
            want == Seq::new(keys.len(), |i: int| row_at(w@, keys, axes@, composites@, i)),
            vertices::table_indexed(*t),
            vertices::table_files(*t) == keys,
            vertices::table_authors(*t) == authors,
            rows@ == want.take(i as int),
            notice_models(notices@) == notices_of(w@, keys, rows@),
        decreases n - i,
    {
        let p = w.series.key_at(i).as_str();
        let s = w.series.value_at(i);
        proof {
            assert(keys[i as int] == p@);
            assert(keys.contains(p@));
            let j = keys.index_of(p@);
            assert(keys[j] == keys[i as int]);
        }
        let file: u32 = intern_file(t, p);
        let incident = match w.incidents.get(p) {
            Some(v) => {
                assert(w@.incidents[p@].len() == v@.len());
                v.len() > 0
            },
            None => false,
        };
        let signal_class = classify_with(&axes[i], incident);
        let row = FileRow { file, axes: axes[i], composite: composites[i], signal_class };
        let ghost rows0 = rows@;
        let ghost notices0 = notices@;
        rows.push(row);
        proof {
            assert(row == want[i as int]);
            assert(want.take(i + 1) =~= want.take(i as int).push(row));
            assert(rows@.drop_last() =~= rows0);
        }
        let drifts = match signal_class {
            Some(SignalClass::ApiDrift) => true,
            _ => false,
        };
        if drifts {
            let notice = drift_notice(w, p, s);
            notices.push(notice);
            assert(notice_models(notices@) =~= notice_models(notices0).push(notice@));
        }
        i = i + 1;
    }
    assert(want.take(i as int) =~= want);
    (rows, notices)
}

// ---- what a row says -------------------------------------------------

/// Every axis of a file is its own measure: density, coupling, youth and drift
/// are those of its path, and zero where the path has none; entropy,
/// volatility and the move with tests are those of its series.
pub proof fn axes_are_own_measures(m: PathMeasures, s: SeriesMeasures, p: Seq<char>)
    ensures
        axes_at(m, s, p).change_density == if m.change_density@.contains_key(p) {
            m.change_density@[p]
        } else {
            0
        },
        axes_at(m, s, p).coupling_stress == if m.coupling_stress@.contains_key(p) {
            m.coupling_stress@[p]
        } else {
            0
        },
        axes_at(m, s, p).blame_youth == if m.blame_youth@.contains_key(p) {
            m.blame_youth@[p]
        } else {
            0
        },
        axes_at(m, s, p).semantic_drift == if m.semantic_drift@.contains_key(p) {
            m.semantic_drift@[p]
        } else {
            0
        },
        axes_at(m, s, p).author_entropy == s.author_entropy,
        axes_at(m, s, p).temporal_volatility == s.temporal_volatility,
        axes_at(m, s, p).test_cooevolution == s.test_cooevolution,
{
}

/// A row has the number of its file, the file's axes and the file's composite.
/// Its class is an aftershock where the walk knows of an incident of the file
/// and the file is volatile (above 0.3), and goes by the axes otherwise.
pub proof fn rows_are_of_their_files(
    m: replay::ReplayModel,
    files: Seq<Seq<char>>,
    axes: Seq<Axes>,
    composites: Seq<u64>,
    i: int,
)
    requires
        0 <= i <= u32::MAX,
    ensures
        row_at(m, files, axes, composites, i).file == i,
        row_at(m, files, axes, composites, i).axes == axes[i],
        row_at(m, files, axes, composites, i).composite == composites[i],
        row_at(m, files, axes, composites, i).signal_class == if m.incidents.contains_key(files[i])
            && m.incidents[files[i]].len() != 0 && crate::ieee::greater(
            axes[i].temporal_volatility,
            0x3fd3_3333_3333_3333,
        ) {
            Some(SignalClass::IncidentAftershock)
        } else {
            signal::class_by_rule(axes[i])
        },
{
}

/// The notice is of this file: at a touch of it that no other is later than,
/// the last of several at that time, with that touch's sha, and with the drift
/// of the file's interface.
pub open spec fn tells_of(m: replay::ReplayModel, p: Seq<char>, n: NoticeModel) -> bool {
    let ts = m.series[p].touches;
    &&& n.path == p
    &&& n.pub_items_changed == (if m.drift.contains_key(p) {
        m.drift[p]
    } else {
        0
    }) as u32
    &&& ts.len() > 0 ==> (exists|k: int|
        0 <= k < ts.len() && #[trigger] ts[k] == (n.at, n.sha) && forall|j: int|
            #![trigger ts[j]]
            0 <= j < ts.len() ==> ts[j].0 <= n.at && (j > k ==> ts[j].0 < n.at))
    &&& ts.len() == 0 ==> n.at == 0 && n.sha.len() == 0
}

proof fn lemma_notice_tells(m: replay::ReplayModel, p: Seq<char>)
    ensures
        tells_of(m, p, notice_of(m, p)),
{
    let ts = m.series[p].touches;
    let n = notice_of(m, p);
    if ts.len() > 0 {
        latest_is_latest(ts);
        assert(ts[latest(ts)] == (n.at, n.sha));
    }
}

/// There is one notice for each row whose class is drift, in the order of the
/// rows, and it is of that row's file.
pub proof fn notices_are_of_drifting_rows(
    m: replay::ReplayModel,
    files: Seq<Seq<char>>,
    rows: Seq<FileRow>,
)
    ensures
        ({
            let at = crate::ranking::places(
                rows.len(),
                |k: int| rows[k].signal_class == Some(SignalClass::ApiDrift),
            );
            let ns = notices_of(m, files, rows);
            &&& ns.len() == at.len()
            &&& forall|i: int| 0 <= i < ns.len() ==> tells_of(m, files[at[i]], #[trigger] ns[i])
        }),
    decreases rows.len(),
{
    let now = |k: int| rows[k].signal_class == Some(SignalClass::ApiDrift);
    let ns = notices_of(m, files, rows);
    let at = crate::ranking::places(rows.len(), now);
    if rows.len() > 0 {
        let front = rows.drop_last();
        let n = front.len();
        notices_are_of_drifting_rows(m, files, front);
        let then = |k: int| front[k].signal_class == Some(SignalClass::ApiDrift);
        crate::ranking::places_agree(n, then, now);
        let before = notices_of(m, files, front);
        let a = crate::ranking::places(n, then);
        assert(before.len() == a.len());
        assert(now(n as int) <==> rows.last().signal_class == Some(SignalClass::ApiDrift));
        assert forall|i: int| 0 <= i < ns.len() implies tells_of(
            m,
            files[at[i]],
            #[trigger] ns[i],
        ) by {
            if i < before.len() {
                assert(ns[i] == before[i]);
                assert(at[i] == a[i]);
                assert(tells_of(m, files[a[i]], before[i]));
            } else {
                assert(at[i] == n);
                lemma_notice_tells(m, files[n as int]);
            }
        }
    }
}

/// A test has no share; any other file has as many touches as it was touched,
/// and of these as many beside a test as were counted.
pub proof fn shares_are_counted(is_test: bool, s: replay::SeriesModel)
    requires
        replay::series_consistent(s),
        s.touches.len() <= usize::MAX,
    ensures
        is_test ==> share_of(is_test, s) == TestShare::Test,
        !is_test ==> (share_of(is_test, s) matches TestShare::Share { with_test, touches }
            && with_test == s.with_test && touches == s.touches.len() && with_test <= touches),
{
}

/// As a value, a notice is its own fields, and notices stand in their order.
pub proof fn notices_are_own_fields(s: Seq<DriftNotice>, i: int)
    requires
        0 <= i < s.len(),
    ensures
        notice_models(s).len() == s.len(),
        notice_models(s)[i].path == s[i].path@,
        notice_models(s)[i].at == s[i].at,
        notice_models(s)[i].sha == s[i].sha@,
        notice_models(s)[i].pub_items_changed == s[i].pub_items_changed,
{
}

} // verus!
