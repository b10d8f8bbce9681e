//! What happened to files: renames, bursts, splits of ownership, aftershocks
//! and drifts.

use vstd::prelude::*;

use crate::ieee;
use crate::lineage;
use crate::lineage::canonical;
use crate::ranking;
use crate::ranking::{sort_stable, Ranked};
use crate::replay;
use crate::replay::{FileSeries, Rename, Replay, Touch};
use crate::rows;
use crate::rows::{latest_touch, DriftNotice};
use crate::signal;
use crate::sorted_map;
use crate::vertices;
use crate::vertices::{intern_author, intern_file};

verus! {

/// Something that happened to a file at a time, by a commit.
pub enum Event {
    Rename { file: u32, at: i64, sha: String, from: String, to: String },
    Hotspot { file: u32, at: i64, sha: String, reason: String },
    OwnershipSplit { file: u32, at: i64, sha: String, authors: Vec<u32> },
    IncidentAftershock { file: u32, at: i64, sha: String, window_days: u32 },
    ApiDrift { file: u32, at: i64, sha: String, pub_items_changed: u32 },
}

/// An event as a value.
pub enum EventModel {
    Rename { file: u32, at: i64, sha: Seq<char>, from: Seq<char>, to: Seq<char> },
    Hotspot { file: u32, at: i64, sha: Seq<char>, reason: Seq<char> },
    OwnershipSplit { file: u32, at: i64, sha: Seq<char>, authors: Seq<u32> },
    IncidentAftershock { file: u32, at: i64, sha: Seq<char>, window_days: u32 },
    ApiDrift { file: u32, at: i64, sha: Seq<char>, pub_items_changed: u32 },
}

impl View for Event {
    type V = EventModel;

    open spec fn view(&self) -> EventModel {
        match *self {
            Event::Rename { file, at, sha, from, to } => EventModel::Rename {
                file,
                at,
                sha: sha@,
                from: from@,
                to: to@,
            },
            Event::Hotspot { file, at, sha, reason } => EventModel::Hotspot {
                file,
                at,
                sha: sha@,
                reason: reason@,
            },
            Event::OwnershipSplit { file, at, sha, authors } => EventModel::OwnershipSplit {
                file,
                at,
                sha: sha@,
                authors: authors@,
            },
            Event::IncidentAftershock { file, at, sha, window_days } => {
                EventModel::IncidentAftershock { file, at, sha: sha@, window_days }
            },
            Event::ApiDrift { file, at, sha, pub_items_changed } => EventModel::ApiDrift {
                file,
                at,
                sha: sha@,
                pub_items_changed,
            },
        }
    }
}

/// Events as values.
pub open spec fn event_models(s: Seq<Event>) -> Seq<EventModel> {
    s.map_values(|e: Event| e@)
}

proof fn lemma_push(s: Seq<Event>, e: Event)
    ensures
        event_models(s.push(e)) == event_models(s).push(e@),
{
    assert(event_models(s.push(e)) =~= event_models(s).push(e@));
}

// ---- renames ---------------------------------------------------------

/// The files, with the trajectories of the renamed ones.
pub open spec fn files_with_renamed(
    files: Seq<Seq<char>>,
    trajectories: Map<Seq<char>, Seq<char>>,
    renames: Seq<replay::RenameModel>,
) -> Seq<Seq<char>>
    decreases renames.len(),
{
    if renames.len() == 0 {
        files
    } else {
        vertices::interned(
            files_with_renamed(files, trajectories, renames.drop_last()),
            lineage::canonical_in(trajectories, renames.last().to),
        )
    }
}

/// A rename, under the number of the trajectory.
pub open spec fn rename_event(
    files: Seq<Seq<char>>,
    trajectories: Map<Seq<char>, Seq<char>>,
    r: replay::RenameModel,
) -> EventModel {
    EventModel::Rename {
        file: vertices::number_of(files, lineage::canonical_in(trajectories, r.to)),
        at: r.time,
        sha: r.sha,
        from: r.from,
        to: r.to,
    }
}

/// The renames in the order of the walk.
pub open spec fn rename_events(
    files: Seq<Seq<char>>,
    trajectories: Map<Seq<char>, Seq<char>>,
    renames: Seq<replay::RenameModel>,
) -> Seq<EventModel> {
    renames.map_values(|r: replay::RenameModel| rename_event(files, trajectories, r))
}

proof fn lemma_files_distinct(
    files: Seq<Seq<char>>,
    trajectories: Map<Seq<char>, Seq<char>>,
    renames: Seq<replay::RenameModel>,
)
    requires
        files.no_duplicates(),
    ensures
        files_with_renamed(files, trajectories, renames).no_duplicates(),
        files_with_renamed(files, trajectories, renames).len() <= files.len() + renames.len(),
        forall|i: int|
            0 <= i < renames.len() ==> files_with_renamed(files, trajectories, renames).contains(
                lineage::canonical_in(trajectories, (#[trigger] renames[i]).to),
            ),
    decreases renames.len(),
{
    if renames.len() > 0 {
        let f = renames.drop_last();
        let names = files_with_renamed(files, trajectories, f);
        let all = files_with_renamed(files, trajectories, renames);
        lemma_files_distinct(files, trajectories, f);
        vertices::added_has_number(
            names,
            lineage::canonical_in(trajectories, renames.last().to),
        );
        assert forall|i: int| 0 <= i < renames.len() implies all.contains(
            lineage::canonical_in(trajectories, (#[trigger] renames[i]).to),
        ) by {
            if i < f.len() {
                assert(f[i] == renames[i]);
                vertices::numbers_stay(
                    names,
                    lineage::canonical_in(trajectories, renames[i].to),
                    lineage::canonical_in(trajectories, renames.last().to),
                );
            }
        }
    }
}

/// One more rename leaves the earlier ones as they are.
proof fn lemma_rename_events_push(
    files: Seq<Seq<char>>,
    trajectories: Map<Seq<char>, Seq<char>>,
    renames: Seq<replay::RenameModel>,
)
    requires
        files.no_duplicates(),
        renames.len() > 0,
    ensures
        rename_events(
            files_with_renamed(files, trajectories, renames),
            trajectories,
            renames,
        ) == rename_events(
            files_with_renamed(files, trajectories, renames.drop_last()),
            trajectories,
            renames.drop_last(),
        ).push(
            rename_event(
                files_with_renamed(files, trajectories, renames),
                trajectories,
                renames.last(),
            ),
        ),
{
    let f = renames.drop_last();
    let a = files_with_renamed(files, trajectories, f);
    let b = files_with_renamed(files, trajectories, renames);
    lemma_files_distinct(files, trajectories, f);
    let x = rename_events(b, trajectories, renames);
    let y = rename_events(a, trajectories, f).push(
        rename_event(b, trajectories, renames.last()),
    );
    assert forall|i: int| 0 <= i < x.len() implies x[i] == #[trigger] y[i] by {
        if i < f.len() {
            assert(f[i] == renames[i]);
            vertices::numbers_stay(
                a,
                lineage::canonical_in(trajectories, renames[i].to),
                lineage::canonical_in(trajectories, renames.last().to),
            );
        }
    }
    assert(x =~= y);
}

fn push_renames(
    events: &mut Vec<Event>,
    renames: &Vec<Rename>,
    l: &mut entropyx_git::LineageResolver,
    t: &mut entropyx_core::VertexTable,
)
    requires
        old(events)@.len() == 0,
        vertices::table_indexed(*old(t)),
        vertices::table_files(*old(t)).no_duplicates(),
        vertices::table_files(*old(t)).len() + renames@.len() <= u32::MAX,
    ensures
        lineage::trajectories(*final(l)) == lineage::trajectories(*old(l)),
        vertices::table_indexed(*final(t)),
        vertices::table_authors(*final(t)) == vertices::table_authors(*old(t)),
        vertices::table_files(*final(t)) == files_with_renamed(
            vertices::table_files(*old(t)),
            lineage::trajectories(*old(l)),
            replay::rename_models(renames@),
        ),
        event_models(final(events)@) == rename_events(
            vertices::table_files(*final(t)),
            lineage::trajectories(*old(l)),
            replay::rename_models(renames@),
        ),
{
    let ghost files = vertices::table_files(*t);
    let ghost authors = vertices::table_authors(*t);
    let ghost ts = lineage::trajectories(*l);
    let ghost rs = replay::rename_models(renames@);
    let mut i: usize = 0;
    proof {
        assert(rs.take(0) =~= Seq::empty());
        assert(event_models(events@) =~= rename_events(files, ts, rs.take(0)));
    }
    while i < renames.len()
        invariant
            i <= renames@.len(),
            rs == replay::rename_models(renames@),
            files.no_duplicates(),
            files.len() + renames@.len() <= u32::MAX,
            lineage::trajectories(*l) == ts,
            vertices::table_indexed(*t),
            vertices::table_authors(*t) == authors,
            vertices::table_files(*t) == files_with_renamed(files, ts, rs.take(i as int)),
            event_models(events@) == rename_events(
                vertices::table_files(*t),
                ts,
                rs.take(i as int),
            ),
        decreases renames@.len() - i,
    {
        let r = &renames[i];
        proof {
            lemma_files_distinct(files, ts, rs.take(i as int));
            assert(rs.take(i + 1).drop_last() =~= rs.take(i as int));
            assert(rs.take(i + 1).last() == r@);
            lemma_rename_events_push(files, ts, rs.take(i + 1));
        }
        let to = canonical(l, r.to.as_str());
        let file: u32 = intern_file(t, to.as_str());
        let e = Event::Rename {
            file,
            at: r.time,
            sha: r.sha.clone(),
            from: r.from.clone(),
            to: r.to.clone(),
        };
        proof {
            lemma_push(events@, e);
        }
        events.push(e);
        i = i + 1;
    }
    assert(rs.take(i as int) =~= rs);
}

// ---- bursts ----------------------------------------------------------

/// The sha of the first touch at the time; empty without one.
pub open spec fn sha_at(ts: Seq<replay::TouchModel>, at: i64) -> Seq<char>
    decreases ts.len(),
{
    if ts.len() == 0 {
        Seq::empty()
    } else if ts[0].0 == at {
        ts[0].1
    } else {
        sha_at(ts.drop_first(), at)
    }
}

fn find_sha(ts: &Vec<Touch>, at: i64) -> (r: String)
    ensures
        r@ == sha_at(replay::touch_models(ts@), at),
{
    let ghost m = replay::touch_models(ts@);
    let mut i: usize = 0;
    assert(m.skip(0) =~= m);
    while i < ts.len()
        invariant
            i <= ts@.len(),
            m == replay::touch_models(ts@),
            sha_at(m, at) == sha_at(m.skip(i as int), at),
        decreases ts@.len() - i,
    {
        proof {
            assert(m.skip(i as int)[0] == ts@[i as int]@);
            assert(m.skip(i as int).drop_first() =~= m.skip(i + 1));
        }
        if ts[i].time == at {
            return ts[i].sha.clone();
        }
        i = i + 1;
    }
    let r = String::new();
    assert(r@ =~= Seq::<char>::empty());
    r
}

/// The bursts of the first `n` files, in the order of the files.
pub open spec fn burst_events(
    series: Map<Seq<char>, replay::SeriesModel>,
    files: Seq<Seq<char>>,
    bursts: Seq<Option<i64>>,
    n: nat,
) -> Seq<EventModel>
    decreases n,
{
    if n == 0 {
        Seq::empty()
    } else {
        let before = burst_events(series, files, bursts, (n - 1) as nat);
        match bursts[n - 1] {
            Some(at) => before.push(
                EventModel::Hotspot {
                    file: (n - 1) as u32,
                    at,
                    sha: sha_at(series[files[n - 1]].touches, at),
                    reason: "recent_burst"@,
                },
            ),
            None => before,
        }
    }
}

fn push_bursts(events: &mut Vec<Event>, w: &Replay, bursts: &Vec<Option<i64>>)
    requires
        w.wf(),
        bursts@.len() == w.series.key_seq().len(),
        w.series.key_seq().len() <= u32::MAX,
    ensures
        event_models(final(events)@) == event_models(old(events)@) + burst_events(
            w@.series,
            w.series.key_seq(),
            bursts@,
            w.series.key_seq().len(),
        ),
{
    let ghost e0 = event_models(events@);
    let ghost files = w.series.key_seq();
    let n: usize = w.series.len();
    let mut i: usize = 0;
    assert(e0 + Seq::empty() =~= e0);
    while i < n
        invariant
            w.wf(),
            files == w.series.key_seq(),
            n == files.len(),
            n <= u32::MAX,
            bursts@.len() == n,
            i <= n,
            event_models(events@) == e0 + burst_events(w@.series, files, bursts@, i as nat),
        decreases n - i,
    {
        if let Some(at) = bursts[i] {
            let s = w.series.value_at(i);
            assert(w@.series[files[i as int]] == s@);
            let e = Event::Hotspot {
                file: i as u32,
                at,
                sha: find_sha(&s.touches, at),
                reason: "recent_burst".to_owned(),
            };
            proof {
                lemma_push(events@, e);
            }
            events.push(e);
            assert(event_models(events@) =~= e0 + burst_events(
                w@.series,
                files,
                bursts@,
                (i + 1) as nat,
            ));
        }
        i = i + 1;
    }
}

// ---- splits of ownership --------------------------------------------

/// A touch by its time and author.
pub struct Timed {
    pub time: i64,
    pub author: String,
}

impl View for Timed {
    type V = (i64, Seq<char>);

    open spec fn view(&self) -> (i64, Seq<char>) {
        (self.time, self.author@)
    }
}

impl Ranked for Timed {
    open spec fn leq(self, other: Timed) -> bool {
        self.time <= other.time
    }

    proof fn leq_total_preorder() {
    }

    fn at_most(&self, other: &Timed) -> (r: bool) {
        self.time <= other.time
    }
}

/// Earlier touches first.
pub open spec fn by_time() -> spec_fn((i64, Seq<char>), (i64, Seq<char>)) -> bool {
    |a: (i64, Seq<char>), b: (i64, Seq<char>)| a.0 <= b.0
}

/// The touches of a series with their authors.
pub open spec fn authored(s: replay::SeriesModel) -> Seq<(i64, Seq<char>)> {
    Seq::new(s.touches.len(), |i: int| (s.touches[i].0, s.authors[i]))
}

/// The touches of a series with their authors, in the order of time.
pub open spec fn chronological(s: replay::SeriesModel) -> Seq<(i64, Seq<char>)> {
    ranking::ranked(authored(s), by_time())
}

/// How many touches at the beginning are by the first author.
pub open spec fn leading(pairs: Seq<(i64, Seq<char>)>, author: Seq<char>) -> nat
    decreases pairs.len(),
{
    if pairs.len() > 0 && pairs[0].1 == author {
        1 + leading(pairs.drop_first(), author)
    } else {
        0
    }
}

/// The authors of touches.
pub open spec fn pair_authors(pairs: Seq<(i64, Seq<char>)>) -> Seq<Seq<char>> {
    pairs.map_values(|p: (i64, Seq<char>)| p.1)
}

/// When a file that had one owner got another: its first author made the first
/// two touches or more, and somebody else the next. All authors are named.
pub open spec fn split_of(pairs: Seq<(i64, Seq<char>)>) -> Option<(i64, Seq<Seq<char>>)> {
    if pairs.len() < 3 {
        None
    } else {
        let n = leading(pairs, pairs[0].1);
        if n < 2 || n >= pairs.len() {
            None
        } else {
            Some((pairs[n as int].0, sorted_map::in_key_order(pair_authors(pairs).to_set())))
        }
    }
}

/// Touches as values.
pub open spec fn pair_models(s: Seq<Timed>) -> Seq<(i64, Seq<char>)> {
    s.map_values(|t: Timed| t@)
}

/// `entropyx_core::metric::detect_ownership_split` finds the first touch by
/// somebody else than the first author, if that one made two touches or more
/// before it, and lists all authors in order, as `split_of` says.
#[verifier::external_body]
fn ownership_split(pairs: &Vec<Timed>) -> (r: Option<(i64, Vec<String>)>)
    ensures
        match r {
            Some(s) => split_of(pair_models(pairs@)) == Some((s.0, sorted_map::texts(s.1@))),
            None => split_of(pair_models(pairs@)) is None,
        },
{
    let v: Vec<(i64, &str)> = pairs.iter().map(|p| (p.time, p.author.as_str())).collect();
    entropyx_core::metric::detect_ownership_split(&v).map(
        |(at, names)| (at, names.into_iter().map(String::from).collect()),
    )
}

/// A split, with the numbers of the authors.
pub open spec fn split_event(
    file: u32,
    touches: Seq<replay::TouchModel>,
    authors: Seq<Seq<char>>,
    split: (i64, Seq<Seq<char>>),
) -> EventModel {
    EventModel::OwnershipSplit {
        file,
        at: split.0,
        sha: sha_at(touches, split.0),
        authors: split.1.map_values(|a: Seq<char>| vertices::number_of(authors, a)),
    }
}

/// The splits of the first `n` files, in the order of the files.
pub open spec fn split_events(
    series: Map<Seq<char>, replay::SeriesModel>,
    files: Seq<Seq<char>>,
    authors: Seq<Seq<char>>,
    n: nat,
) -> Seq<EventModel>
    decreases n,
{
    if n == 0 {
        Seq::empty()
    } else {
        let before = split_events(series, files, authors, (n - 1) as nat);
        let s = series[files[n - 1]];
        match split_of(chronological(s)) {
            Some(split) => before.push(split_event((n - 1) as u32, s.touches, authors, split)),
            None => before,
        }
    }
}

fn in_time_order(s: &FileSeries) -> (r: Vec<Timed>)
    requires
        replay::series_consistent(s@),
    ensures
        pair_models(r@) == chronological(s@),
{
    let ghost want = authored(s@);
    let ghost model = |t: Timed| t@;
    let mut pairs: Vec<Timed> = Vec::new();
    let mut i: usize = 0;
    while i < s.touches.len()
        invariant
            i <= s.touches@.len(),
            s.touches@.len() == s@.touches.len(),
            s.authors@.len() == s@.authors.len(),
            replay::series_consistent(s@),
            want == authored(s@),
            pair_models(pairs@) == want.take(i as int),
        decreases s.touches@.len() - i,
    {
        let t = Timed { time: s.touches[i].time, author: s.authors[i].clone() };
        let ghost before = pairs@;
        pairs.push(t);
        proof {
            assert(s@.touches[i as int] == s.touches@[i as int]@);
            assert(pair_models(pairs@) =~= pair_models(before).push(t@));
            assert(want.take(i + 1) =~= want.take(i as int).push(t@));
        }
        i = i + 1;
    }
    proof {
        assert(want.take(i as int) =~= want);
        ranking::ranked_map(pairs@, ranking::by_rank::<Timed>(), model, by_time());
    }
    sort_stable(pairs)
}

proof fn lemma_split_authors_known(
    s: replay::SeriesModel,
    authors: Seq<Seq<char>>,
    split: (i64, Seq<Seq<char>>),
)
    requires
        replay::series_consistent(s),
        split_of(chronological(s)) == Some(split),
        forall|i: int| 0 <= i < s.authors.len() ==> authors.contains(#[trigger] s.authors[i]),
    ensures
        forall|j: int| 0 <= j < split.1.len() ==> authors.contains(#[trigger] split.1[j]),
{
    let pairs = chronological(s);
    let names = pair_authors(pairs);
    sorted_map::set_of_list_has_order(names);
    assert forall|j: int| 0 <= j < split.1.len() implies authors.contains(
        #[trigger] split.1[j],
    ) by {
        let a = split.1[j];
        assert(split.1.contains(a));
        assert(split.1.to_set().contains(a));
        assert(names.to_set().contains(a));
        assert(names.contains(a));
        let i = choose|i: int| 0 <= i < names.len() && names[i] == a;
        ranking::ranked_same_members(authored(s), by_time(), pairs[i]);
        assert(pairs.contains(pairs[i]));
        let k = choose|k: int| 0 <= k < authored(s).len() && authored(s)[k] == pairs[i];
        assert(s.authors[k] == a);
    }
}

fn number_authors(names: &Vec<String>, t: &mut entropyx_core::VertexTable) -> (r: Vec<u32>)
    requires
        vertices::table_indexed(*old(t)),
        forall|j: int|
            0 <= j < names@.len() ==> vertices::table_authors(*old(t)).contains(
                #[trigger] sorted_map::texts(names@)[j],
            ),
    ensures
        vertices::table_indexed(*final(t)),
        vertices::table_files(*final(t)) == vertices::table_files(*old(t)),
        vertices::table_authors(*final(t)) == vertices::table_authors(*old(t)),
        r@ == sorted_map::texts(names@).map_values(
            |a: Seq<char>| vertices::number_of(vertices::table_authors(*old(t)), a),
        ),
{
    let ghost authors = vertices::table_authors(*t);
    let ghost files = vertices::table_files(*t);
    let ghost ns = sorted_map::texts(names@);
    let ghost want = ns.map_values(|a: Seq<char>| vertices::number_of(authors, a));
    let mut r: Vec<u32> = Vec::new();
    let mut i: usize = 0;
    while i < names.len()
        invariant
            i <= names@.len(),
            ns == sorted_map::texts(names@),
            want == ns.map_values(|a: Seq<char>| vertices::number_of(authors, a)),
            vertices::table_indexed(*t),
            vertices::table_files(*t) == files,
            vertices::table_authors(*t) == authors,
            forall|j: int| 0 <= j < names@.len() ==> authors.contains(#[trigger] ns[j]),
            r@ == want.take(i as int),
        decreases names@.len() - i,
    {
        assert(ns[i as int] == names@[i as int]@);
        let number: u32 = intern_author(t, names[i].as_str());
        r.push(number);
        assert(want.take(i + 1) =~= want.take(i as int).push(number));
        i = i + 1;
    }
    assert(want.take(i as int) =~= want);
    r
}

fn push_splits(events: &mut Vec<Event>, w: &Replay, t: &mut entropyx_core::VertexTable)
    requires
        w.wf(),
        vertices::table_indexed(*old(t)),
        vertices::table_authors(*old(t)) == w@.authors,
        w.series.key_seq().len() <= u32::MAX,
    ensures
        vertices::table_indexed(*final(t)),
        vertices::table_files(*final(t)) == vertices::table_files(*old(t)),
        vertices::table_authors(*final(t)) == vertices::table_authors(*old(t)),
        event_models(final(events)@) == event_models(old(events)@) + split_events(
            w@.series,
            w.series.key_seq(),
            w@.authors,
            w.series.key_seq().len(),
        ),
{
    let ghost e0 = event_models(events@);
    let ghost files = w.series.key_seq();
    let ghost names = vertices::table_files(*t);
    let ghost authors = w@.authors;
    let n: usize = w.series.len();
    let mut i: usize = 0;
    assert(e0 + Seq::empty() =~= e0);
    while i < n
        invariant
            w.wf(),
            files == w.series.key_seq(),
            authors == w@.authors,
            n == files.len(),
            n <= u32::MAX,
            i <= n,
            vertices::table_indexed(*t),
            vertices::table_files(*t) == names,
            vertices::table_authors(*t) == authors,
            event_models(events@) == e0 + split_events(w@.series, files, authors, i as nat),
        decreases n - i,
    {
        let s = w.series.value_at(i);
        proof {
            assert(w@.series.contains_key(files[i as int]));
            assert(w@.series[files[i as int]] == s@);
            assert(replay::series_consistent(s@));
            assert forall|k: int| 0 <= k < s@.authors.len() implies authors.contains(
                #[trigger] s@.authors[k],
            ) by {
                assert(authors.contains(w@.series[files[i as int]].authors[k]));
            }
        }
        let pairs = in_time_order(s);
        if let Some((at, owners)) = ownership_split(&pairs) {
            let ghost split = (at, sorted_map::texts(owners@));
            proof {
                lemma_split_authors_known(s@, authors, split);
            }
            let numbers = number_authors(&owners, t);
            let e = Event::OwnershipSplit {
                file: i as u32,
                at,
                sha: find_sha(&s.touches, at),
                authors: numbers,
            };
            proof {
                assert(e@ == split_event(i as u32, s@.touches, authors, split));
                lemma_push(events@, e);
            }
            events.push(e);
            assert(event_models(events@) =~= e0 + split_events(
                w@.series,
                files,
                authors,
                (i + 1) as nat,
            ));
        }
        i = i + 1;
    }
}

// ---- aftershocks -----------------------------------------------------

/// The earliest time of some touches.
pub open spec fn earliest(ts: Seq<replay::TouchModel>) -> i64
    decreases ts.len(),
{
    if ts.len() <= 1 {
        ts[0].0
    } else {
        let e = earliest(ts.drop_last());
        if ts.last().0 < e {
            ts.last().0
        } else {
            e
        }
    }
}

/// No touch is before the earliest.
pub proof fn earliest_is_earliest(ts: Seq<replay::TouchModel>)
    requires
        ts.len() > 0,
    ensures
        exists|i: int| 0 <= i < ts.len() && (#[trigger] ts[i]).0 == earliest(ts),
        forall|i: int| 0 <= i < ts.len() ==> earliest(ts) <= (#[trigger] ts[i]).0,
    decreases ts.len(),
{
    if ts.len() == 1 {
        assert(ts[0].0 == earliest(ts));
    } else {
        let f = ts.drop_last();
        earliest_is_earliest(f);
        let k = choose|k: int| 0 <= k < f.len() && (#[trigger] f[k]).0 == earliest(f);
        assert(f[k] == ts[k]);
        assert(ts[ts.len() - 1] == ts.last());
        assert forall|i: int| 0 <= i < ts.len() implies earliest(ts) <= (#[trigger] ts[i]).0 by {
            if i < f.len() {
                assert(f[i] == ts[i]);
            }
        }
    }
}

/// Whole days between two times.
pub open spec fn days_between(first: i64, last: i64) -> int {
    (last - first) / 86_400
}

/// A volatile file with incidents: since the first of them, so many days.
pub open spec fn aftershock(file: u32, ts: Seq<replay::TouchModel>) -> EventModel {
    EventModel::IncidentAftershock {
        file,
        at: ts[rows::latest(ts)].0,
        sha: ts[rows::latest(ts)].1,
        window_days: days_between(earliest(ts), ts[rows::latest(ts)].0) as u32,
    }
}

/// The file has incidents and touches, and is not known to be calm.
pub open spec fn in_aftershock(
    m: replay::ReplayModel,
    files: Seq<Seq<char>>,
    volatility: Seq<u64>,
    p: Seq<char>,
) -> bool {
    &&& m.incidents[p].len() > 0
    &&& m.series.contains_key(p)
    &&& !ieee::at_least(signal::AFTERSHOCK_VT_THRESHOLD, volatility[files.index_of(p)])
}

/// The aftershocks among the first `n` files with incidents, in their order.
pub open spec fn aftershock_events(
    m: replay::ReplayModel,
    files: Seq<Seq<char>>,
    volatility: Seq<u64>,
    hit: Seq<Seq<char>>,
    n: nat,
) -> Seq<EventModel>
    decreases n,
{
    if n == 0 {
        Seq::empty()
    } else {
        let before = aftershock_events(m, files, volatility, hit, (n - 1) as nat);
        let p = hit[n - 1];
        if in_aftershock(m, files, volatility, p) {
            before.push(aftershock(files.index_of(p) as u32, m.incidents[p]))
        } else {
            before
        }
    }
}

fn earliest_time(ts: &Vec<Touch>) -> (r: i64)
    requires
        ts@.len() > 0,
    ensures
        r == earliest(replay::touch_models(ts@)),
{
    let ghost m = replay::touch_models(ts@);
    let mut best: i64 = ts[0].time;
    let mut i: usize = 1;
    proof {
        assert(m[0] == ts@[0]@);
        assert(m.take(1).len() == 1 && m.take(1)[0] == m[0]);
    }
    while i < ts.len()
        invariant
            1 <= i <= ts@.len(),
            m == replay::touch_models(ts@),
            best == earliest(m.take(i as int)),
        decreases ts@.len() - i,
    {
        proof {
            assert(m.take(i + 1).drop_last() =~= m.take(i as int));
            assert(m.take(i + 1).last() == ts@[i as int]@);
        }
        if ts[i].time < best {
            best = ts[i].time;
        }
        i = i + 1;
    }
    assert(m.take(i as int) =~= m);
    best
}

/// Whole days between two times, in 32 bits.
pub fn window_days(first: i64, last: i64) -> (r: u32)
    requires
        first <= last,
    ensures
        r == days_between(first, last) as u32,
{
    let span: i128 = last as i128 - first as i128;
    let days: u128 = (span as u128) / 86_400;
    #[verifier::truncate]
    (days as u32)
}

fn push_aftershocks(events: &mut Vec<Event>, w: &Replay, volatility: &Vec<u64>)
    requires
        w.wf(),
        volatility@.len() == w.series.key_seq().len(),
        w.series.key_seq().len() <= u32::MAX,
    ensures
        event_models(final(events)@) == event_models(old(events)@) + aftershock_events(
            w@,
            w.series.key_seq(),
            volatility@,
            w.incidents.key_seq(),
            w.incidents.key_seq().len(),
        ),
{
    let ghost e0 = event_models(events@);
    let ghost files = w.series.key_seq();
    let ghost hit = w.incidents.key_seq();
    let n: usize = w.incidents.len();
    let mut i: usize = 0;
    proof {
        w.series.wf_keys();
        assert(e0 + Seq::empty() =~= e0);
    }
    while i < n
        invariant
            w.wf(),
            files == w.series.key_seq(),
            files.no_duplicates(),
            files.len() <= u32::MAX,
            volatility@.len() == files.len(),
            hit == w.incidents.key_seq(),
            n == hit.len(),
            i <= n,
            event_models(events@) == e0 + aftershock_events(
                w@,
                files,
                volatility@,
                hit,
                i as nat,
            ),
        decreases n - i,
    {
        let p = w.incidents.key_at(i).as_str();
        let incidents = w.incidents.value_at(i);
        let ghost ts = replay::touch_models(incidents@);
        proof {
            assert(w@.incidents[p@] == ts);
        }
        if incidents.len() > 0 {
            if let Some(k) = w.series.position(p) {
                proof {
                    assert(files.contains(p@));
                    assert(files[files.index_of(p@)] == files[k as int]);
                    assert(w@.series.contains_key(p@));
                }
                if !ieee::is_at_least(signal::AFTERSHOCK_VT_THRESHOLD, volatility[k]) {
                    let last: usize = latest_touch(incidents);
                    let first: i64 = earliest_time(incidents);
                    let at: i64 = incidents[last].time;
                    proof {
                        assert(ts[last as int] == incidents@[last as int]@);
                        earliest_is_earliest(ts);
                    }
                    let e = Event::IncidentAftershock {
                        file: k as u32,
                        at,
                        sha: incidents[last].sha.clone(),
                        window_days: window_days(first, at),
                    };
                    proof {
                        assert(e@ == aftershock(k as u32, ts));
                        lemma_push(events@, e);
                    }
                    events.push(e);
                    assert(event_models(events@) =~= e0 + aftershock_events(
                        w@,
                        files,
                        volatility@,
                        hit,
                        (i + 1) as nat,
                    ));
                }
            } else {
                assert(!w@.series.contains_key(p@));
            }
        }
        i = i + 1;
    }
}

// ---- drifts ----------------------------------------------------------

/// The drifts of the notices.
pub open spec fn drift_events(
    files: Seq<Seq<char>>,
    notices: Seq<rows::NoticeModel>,
) -> Seq<EventModel> {
    notices.map_values(
        |n: rows::NoticeModel|
            EventModel::ApiDrift {
                file: vertices::number_of(files, n.path),
                at: n.at,
                sha: n.sha,
                pub_items_changed: n.pub_items_changed,
            },
    )
}

fn push_drifts(
    events: &mut Vec<Event>,
    notices: &Vec<DriftNotice>,
    t: &mut entropyx_core::VertexTable,
)
    requires
        vertices::table_indexed(*old(t)),
        forall|i: int|
            0 <= i < notices@.len() ==> vertices::table_files(*old(t)).contains(
                (#[trigger] rows::notice_models(notices@)[i]).path,
            ),
    ensures
        vertices::table_indexed(*final(t)),
        vertices::table_files(*final(t)) == vertices::table_files(*old(t)),
        vertices::table_authors(*final(t)) == vertices::table_authors(*old(t)),
        event_models(final(events)@) == event_models(old(events)@) + drift_events(
            vertices::table_files(*old(t)),
            rows::notice_models(notices@),
        ),
{
    let ghost e0 = event_models(events@);
    let ghost files = vertices::table_files(*t);
    let ghost authors = vertices::table_authors(*t);
    let ghost ns = rows::notice_models(notices@);
    let ghost want = drift_events(files, ns);
    let mut i: usize = 0;
    assert(e0 + want.take(0) =~= e0);
    while i < notices.len()
        invariant
            i <= notices@.len(),
            ns == rows::notice_models(notices@),
            want == drift_events(files, ns),
            vertices::table_indexed(*t),
            vertices::table_files(*t) == files,
            vertices::table_authors(*t) == authors,
            forall|i: int| 0 <= i < notices@.len() ==> files.contains((#[trigger] ns[i]).path),
            event_models(events@) == e0 + want.take(i as int),
        decreases notices@.len() - i,
    {
        let n = &notices[i];
        assert(ns[i as int] == n@);
        let file: u32 = intern_file(t, n.path.as_str());
        let e = Event::ApiDrift {
            file,
            at: n.at,
            sha: n.sha.clone(),
            pub_items_changed: n.pub_items_changed,
        };
        proof {
            lemma_push(events@, e);
        }
        events.push(e);
        proof {
            assert(want.take(i + 1) =~= want.take(i as int).push(e@));
            assert(event_models(events@) =~= e0 + want.take(i + 1));
        }
        i = i + 1;
    }
    assert(want.take(i as int) =~= want);
}

// ---- all events ------------------------------------------------------

/// The files that the dictionary has once the events were numbered.
pub open spec fn final_files(m: replay::ReplayModel, files: Seq<Seq<char>>) -> Seq<Seq<char>> {
    files_with_renamed(files, m.trajectories, m.renames)
}

/// All events: renames, bursts, splits, aftershocks and drifts.
pub open spec fn all_events(
    m: replay::ReplayModel,
    files: Seq<Seq<char>>,
    hit: Seq<Seq<char>>,
    bursts: Seq<Option<i64>>,
    volatility: Seq<u64>,
    notices: Seq<rows::NoticeModel>,
) -> Seq<EventModel> {
    rename_events(final_files(m, files), m.trajectories, m.renames) + burst_events(
        m.series,
        files,
        bursts,
        files.len(),
    ) + split_events(m.series, files, m.authors, files.len()) + aftershock_events(
        m,
        files,
        volatility,
        hit,
        hit.len(),
    ) + drift_events(final_files(m, files), notices)
}

/// The name stays in the dictionary.
proof fn lemma_still_listed(
    files: Seq<Seq<char>>,
    trajectories: Map<Seq<char>, Seq<char>>,
    renames: Seq<replay::RenameModel>,
    name: Seq<char>,
)
    requires
        files.no_duplicates(),
        files.contains(name),
    ensures
        files_with_renamed(files, trajectories, renames).contains(name),
        files_with_renamed(files, trajectories, renames).index_of(name) == files.index_of(name),
    decreases renames.len(),
{
    if renames.len() > 0 {
        lemma_still_listed(files, trajectories, renames.drop_last(), name);
        lemma_files_distinct(files, trajectories, renames.drop_last());
        vertices::numbers_stay(
            files_with_renamed(files, trajectories, renames.drop_last()),
            name,
            lineage::canonical_in(trajectories, renames.last().to),
        );
    }
}

/// A file has the same number in its row and in every event.
pub proof fn row_numbers_stay(m: replay::ReplayModel, files: Seq<Seq<char>>, i: int)
    requires
        files.no_duplicates(),
        0 <= i < files.len(),
    ensures
        final_files(m, files).contains(files[i]),
        final_files(m, files).index_of(files[i]) == i,
{
    assert(files.contains(files[i]));
    assert(files[files.index_of(files[i])] == files[i]);
    lemma_still_listed(files, m.trajectories, m.renames, files[i]);
}

/// The number of an event's file.
pub open spec fn event_file(e: EventModel) -> u32 {
    match e {
        EventModel::Rename { file, .. } => file,
        EventModel::Hotspot { file, .. } => file,
        EventModel::OwnershipSplit { file, .. } => file,
        EventModel::IncidentAftershock { file, .. } => file,
        EventModel::ApiDrift { file, .. } => file,
    }
}

/// Work out all events. The bursts and the volatility of the files are given in
/// the order of the files.
pub fn detect_events(
    w: &mut Replay,
    t: &mut entropyx_core::VertexTable,
    bursts: &Vec<Option<i64>>,
    volatility: &Vec<u64>,
    notices: &Vec<DriftNotice>,
) -> (r: Vec<Event>)
    requires
        old(w).wf(),
        vertices::table_indexed(*old(t)),
        vertices::table_files(*old(t)) == old(w).series.key_seq(),
        vertices::table_authors(*old(t)) == old(w)@.authors,
        old(w).series.key_seq().len() + old(w).renames@.len() <= u32::MAX,
        bursts@.len() == old(w).series.key_seq().len(),
        volatility@.len() == old(w).series.key_seq().len(),
        forall|i: int|
            0 <= i < notices@.len() ==> old(w).series.key_seq().contains(
                (#[trigger] rows::notice_models(notices@)[i]).path,
            ),
    ensures
        final(w).wf(),
        final(w)@ == old(w)@,
        final(w).series == old(w).series,
        vertices::table_indexed(*final(t)),
        vertices::table_authors(*final(t)) == vertices::table_authors(*old(t)),
        vertices::table_files(*final(t)) == final_files(old(w)@, old(w).series.key_seq()),
        event_models(r@) == all_events(
            old(w)@,
            old(w).series.key_seq(),
            old(w).incidents.key_seq(),
            bursts@,
            volatility@,
            rows::notice_models(notices@),
        ),
{
    let ghost files = w.series.key_seq();
    let mut events: Vec<Event> = Vec::new();
    proof {
        w.series.wf_keys();
    }
    push_renames(&mut events, &w.renames, &mut w.lineage, t);
    proof {
        assert(w@ =~= old(w)@);
        assert forall|i: int| 0 <= i < notices@.len() implies vertices::table_files(*t).contains(
            (#[trigger] rows::notice_models(notices@)[i]).path,
        ) by {
            lemma_still_listed(
                files,
                w@.trajectories,
                w@.renames,
                rows::notice_models(notices@)[i].path,
            );
        }
    }
    push_bursts(&mut events, w, bursts);
    push_splits(&mut events, w, t);
    push_aftershocks(&mut events, w, volatility);
    push_drifts(&mut events, notices, t);
    events
}

/// The file of the aftershock at `i` among those of the first `n` files with
/// incidents.
proof fn lemma_aftershock_from(
    m: replay::ReplayModel,
    files: Seq<Seq<char>>,
    volatility: Seq<u64>,
    hit: Seq<Seq<char>>,
    n: nat,
    i: int,
) -> (k: int)
    requires
        n <= hit.len(),
        0 <= i < aftershock_events(m, files, volatility, hit, n).len(),
    ensures
        0 <= k < n,
        in_aftershock(m, files, volatility, hit[k]),
        aftershock_events(m, files, volatility, hit, n)[i] == aftershock(
            files.index_of(hit[k]) as u32,
            m.incidents[hit[k]],
        ),
        i == aftershock_events(m, files, volatility, hit, k as nat).len(),
    decreases n,
{
    let before = aftershock_events(m, files, volatility, hit, (n - 1) as nat);
    if i < before.len() {
        lemma_aftershock_from(m, files, volatility, hit, (n - 1) as nat, i)
    } else {
        n - 1
    }
}

/// There is at most one aftershock per file: counting the events is counting
/// the files.
pub proof fn one_aftershock_per_file(
    m: replay::ReplayModel,
    files: Seq<Seq<char>>,
    volatility: Seq<u64>,
    hit: Seq<Seq<char>>,
    i: int,
    j: int,
)
    requires
        files.len() <= u32::MAX,
        hit.no_duplicates(),
        forall|p: Seq<char>| #[trigger] m.series.contains_key(p) <==> files.contains(p),
        0 <= i < j < aftershock_events(m, files, volatility, hit, hit.len()).len(),
    ensures
        event_file(aftershock_events(m, files, volatility, hit, hit.len())[i]) != event_file(
            aftershock_events(m, files, volatility, hit, hit.len())[j],
        ),
{
    let a = lemma_aftershock_from(m, files, volatility, hit, hit.len(), i);
    let b = lemma_aftershock_from(m, files, volatility, hit, hit.len(), j);
    assert(hit[a] != hit[b]);
    assert(files.contains(hit[a]) && files.contains(hit[b]));
    assert(files[files.index_of(hit[a])] == hit[a]);
    assert(files[files.index_of(hit[b])] == hit[b]);
}

/// A file is in an aftershock exactly when its row says so.
pub proof fn aftershock_matches_row(
    m: replay::ReplayModel,
    files: Seq<Seq<char>>,
    axes: Seq<signal::Axes>,
    composites: Seq<u64>,
    volatility: Seq<u64>,
    i: int,
)
    requires
        files.no_duplicates(),
        0 <= i < files.len(),
        m.series.contains_key(files[i]),
        volatility[i] == axes[i].temporal_volatility,
        !ieee::is_nan(volatility[i]),
    ensures
        m.incidents.contains_key(files[i]) && in_aftershock(m, files, volatility, files[i])
            <==> rows::row_at(m, files, axes, composites, i).signal_class == Some(
            signal::SignalClass::IncidentAftershock,
        ),
{
    assert(files.contains(files[i]));
    assert(files[files.index_of(files[i])] == files[i]);
}

// ---- what an event says ----------------------------------------------

/// Every rename of the walk is told of, in its order: with its own two paths,
/// time and sha, under the number that the dictionary gives to the trajectory
/// of the new path.
pub proof fn renames_are_told(m: replay::ReplayModel, files: Seq<Seq<char>>, i: int)
    requires
        files.no_duplicates(),
        files.len() + m.renames.len() <= u32::MAX,
        0 <= i < m.renames.len(),
    ensures
        ({
            let all = final_files(m, files);
            let events = rename_events(all, m.trajectories, m.renames);
            &&& events.len() == m.renames.len()
            &&& events[i] matches EventModel::Rename { file, at, sha, from, to } && {
                &&& from == m.renames[i].from
                &&& to == m.renames[i].to
                &&& at == m.renames[i].time
                &&& sha == m.renames[i].sha
                &&& file < all.len()
                &&& all[file as int] == lineage::canonical_in(m.trajectories, m.renames[i].to)
            }
        }),
{
    lemma_files_distinct(files, m.trajectories, m.renames);
    let all = final_files(m, files);
    let name = lineage::canonical_in(m.trajectories, m.renames[i].to);
    assert(all.contains(name));
    assert(all[all.index_of(name)] == name);
}

/// The sha for a time is that of the first touch at that time, and there is none
/// only where no touch was then.
pub proof fn shas_are_of_touches(ts: Seq<replay::TouchModel>, at: i64)
    ensures
        (exists|k: int|
            0 <= k < ts.len() && #[trigger] ts[k] == (at, sha_at(ts, at)) && forall|j: int|
                0 <= j < k ==> (#[trigger] ts[j]).0 != at) || sha_at(ts, at).len() == 0
            && forall|j: int| 0 <= j < ts.len() ==> (#[trigger] ts[j]).0 != at,
    decreases ts.len(),
{
    if ts.len() > 0 {
        let rest = ts.drop_first();
        shas_are_of_touches(rest, at);
        if ts[0].0 == at {
            assert(ts[0] == (at, sha_at(ts, at)));
        } else if exists|k: int|
            0 <= k < rest.len() && #[trigger] rest[k] == (at, sha_at(rest, at)) && forall|j: int|
                0 <= j < k ==> (#[trigger] rest[j]).0 != at {
            let k = choose|k: int|
                0 <= k < rest.len() && #[trigger] rest[k] == (at, sha_at(rest, at)) && forall|
                    j: int,
                |
                    0 <= j < k ==> (#[trigger] rest[j]).0 != at;
            assert(ts[k + 1] == (at, sha_at(ts, at)));
            assert forall|j: int| 0 <= j < k + 1 implies (#[trigger] ts[j]).0 != at by {
                if j > 0 {
                    assert(rest[j - 1] == ts[j]);
                }
            }
        } else {
            assert forall|j: int| 0 <= j < ts.len() implies (#[trigger] ts[j]).0 != at by {
                if j > 0 {
                    assert(rest[j - 1] == ts[j]);
                }
            }
        }
    }
}

/// There is one hotspot for each file with a burst, in the order of the files:
/// under the file's number, at the time of the burst, with the sha of the
/// file's first touch at that time.
pub proof fn hotspots_are_bursts(
    series: Map<Seq<char>, replay::SeriesModel>,
    files: Seq<Seq<char>>,
    bursts: Seq<Option<i64>>,
    n: nat,
)
    requires
        n <= u32::MAX,
    ensures
        ({
            let at = ranking::places(n, |k: int| bursts[k] is Some);
            let events = burst_events(series, files, bursts, n);
            &&& events.len() == at.len()
            &&& forall|i: int|
                #![trigger events[i]]
                0 <= i < events.len() ==> (events[i] matches EventModel::Hotspot {
                    file,
                    at: time,
                    sha,
                    reason,
                } && file == at[i] && bursts[at[i]] == Some(time) && sha == sha_at(
                    series[files[at[i]]].touches,
                    time,
                ) && reason == "recent_burst"@)
        }),
    decreases n,
{
    if n > 0 {
        hotspots_are_bursts(series, files, bursts, (n - 1) as nat);
        let keep = |k: int| bursts[k] is Some;
        let before = ranking::places((n - 1) as nat, keep);
        let at = ranking::places(n, keep);
        let past = burst_events(series, files, bursts, (n - 1) as nat);
        let events = burst_events(series, files, bursts, n);
        assert forall|i: int|
            #![trigger events[i]]
            0 <= i < events.len() implies (events[i] matches EventModel::Hotspot {
            file,
            at: time,
            sha,
            reason,
        } && file == at[i] && bursts[at[i]] == Some(time) && sha == sha_at(
            series[files[at[i]]].touches,
            time,
        ) && reason == "recent_burst"@) by {
            if i < past.len() {
                assert(events[i] == past[i]);
                assert(at[i] == before[i]);
            }
        }
    }
}

/// There is one split for each file whose touches show one, in the order of the
/// files: under the file's number, at the time of the split, with the sha of
/// the file's first touch at that time, and with the numbers of the authors.
pub proof fn splits_are_of_their_files(
    series: Map<Seq<char>, replay::SeriesModel>,
    files: Seq<Seq<char>>,
    authors: Seq<Seq<char>>,
    n: nat,
)
    requires
        n <= u32::MAX,
    ensures
        ({
            let at = ranking::places(
                n,
                |k: int| split_of(chronological(series[files[k]])) is Some,
            );
            let events = split_events(series, files, authors, n);
            &&& events.len() == at.len()
            &&& forall|i: int|
                #![trigger events[i]]
                0 <= i < events.len() ==> (events[i] matches EventModel::OwnershipSplit {
                    file,
                    at: time,
                    sha,
                    authors: numbers,
                } && {
                    let s = series[files[at[i]]];
                    let split = split_of(chronological(s))->0;
                    &&& file == at[i]
                    &&& time == split.0
                    &&& sha == sha_at(s.touches, time)
                    &&& numbers.len() == split.1.len()
                    &&& forall|j: int|
                        0 <= j < numbers.len() ==> #[trigger] numbers[j] == authors.index_of(
                            split.1[j],
                        ) as u32
                })
        }),
    decreases n,
{
    if n > 0 {
        splits_are_of_their_files(series, files, authors, (n - 1) as nat);
        let keep = |k: int| split_of(chronological(series[files[k]])) is Some;
        let before = ranking::places((n - 1) as nat, keep);
        let at = ranking::places(n, keep);
        let past = split_events(series, files, authors, (n - 1) as nat);
        let events = split_events(series, files, authors, n);
        assert(keep(n - 1) <==> split_of(chronological(series[files[n - 1]])) is Some);
        assert forall|i: int|
            #![trigger events[i]]
            0 <= i < events.len() implies (events[i] matches EventModel::OwnershipSplit {
            file,
            at: time,
            sha,
            authors: numbers,
        } && {
            let s = series[files[at[i]]];
            let split = split_of(chronological(s))->0;
            &&& file == at[i]
            &&& time == split.0
            &&& sha == sha_at(s.touches, time)
            &&& numbers.len() == split.1.len()
            &&& forall|j: int|
                0 <= j < numbers.len() ==> #[trigger] numbers[j] == authors.index_of(split.1[j])
                    as u32
        }) by {
            if i < past.len() {
                assert(events[i] == past[i]);
                assert(at[i] == before[i]);
            }
        }
    }
}

/// The touches stand in the order of time, those of one time as they came, and
/// each with its own author; none is lost.
pub proof fn touches_stand_in_time(s: replay::SeriesModel)
    requires
        replay::series_consistent(s),
    ensures
        ({
            let pairs = chronological(s);
            let given = Seq::new(s.touches.len(), |i: int| (s.touches[i].0, s.authors[i]));
            &&& pairs.to_multiset() == given.to_multiset()
            &&& pairs.len() == s.touches.len()
            &&& forall|i: int, j: int|
                #![trigger pairs[i], pairs[j]]
                0 <= i < j < pairs.len() ==> pairs[i].0 <= pairs[j].0
            &&& forall|x: (i64, Seq<char>)| #[trigger]
                ranking::tied(pairs, x, by_time()) == ranking::tied(given, x, by_time())
        }),
{
    let given = Seq::new(s.touches.len(), |i: int| (s.touches[i].0, s.authors[i]));
    assert(given =~= authored(s));
    let leq = by_time();
    assert(ranking::total_preorder(leq));
    ranking::ranked_is_ordered(given, leq);
    ranking::ranked_keeps_items(given, leq);
    let pairs = chronological(s);
    assert forall|i: int, j: int|
        #![trigger pairs[i], pairs[j]]
        0 <= i < j < pairs.len() implies pairs[i].0 <= pairs[j].0 by {
        assert(leq(pairs[i], pairs[j]));
    }
    assert forall|x: (i64, Seq<char>)| #[trigger]
        ranking::tied(pairs, x, leq) == ranking::tied(given, x, leq) by {
        ranking::ranked_keeps_ties(given, leq, x);
    }
}

/// A file's ownership splits where its first author made two touches or more,
/// nobody else made one before, and somebody else made the next one. All its
/// authors are named, each once and in order.
pub proof fn splits_follow_a_first_owner(pairs: Seq<(i64, Seq<char>)>, n: int)
    requires
        2 <= n < pairs.len(),
        forall|k: int| 0 <= k < n ==> (#[trigger] pairs[k]).1 == pairs[0].1,
        pairs[n].1 != pairs[0].1,
    ensures
        split_of(pairs) matches Some(s) && s.0 == pairs[n].0 && sorted_map::ascending(s.1)
            && forall|a: Seq<char>| #[trigger]
            s.1.contains(a) <==> exists|k: int| 0 <= k < pairs.len() && (#[trigger] pairs[k]).1
                == a,
{
    lemma_leading(pairs, pairs[0].1, n);
    let names = pair_authors(pairs);
    sorted_map::set_of_list_has_order(names);
    let list = sorted_map::in_key_order(names.to_set());
    assert forall|a: Seq<char>| #[trigger] list.contains(a) <==> exists|k: int|
        0 <= k < pairs.len() && (#[trigger] pairs[k]).1 == a by {
        assert(list.to_set().contains(a) <==> list.contains(a));
        assert(names.to_set().contains(a) <==> names.contains(a));
        if names.contains(a) {
            let k = names.index_of(a);
            assert(pairs[k].1 == a);
        }
        if exists|k: int| 0 <= k < pairs.len() && (#[trigger] pairs[k]).1 == a {
            let k = choose|k: int| 0 <= k < pairs.len() && (#[trigger] pairs[k]).1 == a;
            assert(names[k] == a);
        }
    }
}

/// It does not split where the second touch is by somebody else already, or
/// where there is one author only.
pub proof fn others_do_not_split(pairs: Seq<(i64, Seq<char>)>)
    requires
        pairs.len() < 3 || pairs[1].1 != pairs[0].1 || forall|k: int|
            0 <= k < pairs.len() ==> (#[trigger] pairs[k]).1 == pairs[0].1,
    ensures
        split_of(pairs) is None,
{
    if pairs.len() >= 3 {
        if pairs[1].1 != pairs[0].1 {
            lemma_leading(pairs, pairs[0].1, 1);
        } else {
            lemma_leading(pairs, pairs[0].1, pairs.len() as int);
        }
    }
}

proof fn lemma_leading(pairs: Seq<(i64, Seq<char>)>, author: Seq<char>, n: int)
    requires
        0 <= n <= pairs.len(),
        forall|k: int| 0 <= k < n ==> (#[trigger] pairs[k]).1 == author,
        n < pairs.len() ==> pairs[n].1 != author,
    ensures
        leading(pairs, author) == n,
    decreases n,
{
    if n > 0 {
        let rest = pairs.drop_first();
        assert forall|k: int| 0 <= k < n - 1 implies (#[trigger] rest[k]).1 == author by {
            assert(rest[k] == pairs[k + 1]);
        }
        lemma_leading(rest, author, n - 1);
        assert(pairs[0].1 == author);
    }
}

/// An aftershock is of a file that had incidents, was touched and is not at or
/// below 0.3 in its volatility. It is at an incident that none is later than,
/// with that one's sha, and its window is the whole days since an incident that
/// none is earlier than.
pub proof fn aftershocks_span_their_incidents(
    m: replay::ReplayModel,
    files: Seq<Seq<char>>,
    volatility: Seq<u64>,
    hit: Seq<Seq<char>>,
    i: int,
) -> (k: int)
    requires
        files.len() <= u32::MAX,
        forall|p: Seq<char>| #[trigger] m.series.contains_key(p) <==> files.contains(p),
        0 <= i < aftershock_events(m, files, volatility, hit, hit.len()).len(),
    ensures
        0 <= k < hit.len(),
        m.incidents[hit[k]].len() > 0,
        aftershock_events(m, files, volatility, hit, hit.len())[i]
            matches EventModel::IncidentAftershock { file, at, sha, window_days } && {
            let ts = m.incidents[hit[k]];
            &&& file < files.len()
            &&& files[file as int] == hit[k]
            &&& !ieee::at_least(0x3fd3_3333_3333_3333, volatility[file as int])
            &&& exists|x: int, y: int| #[trigger]
                is_span(ts, x, y) && ts[x] == (at, sha) && window_days == ((ts[x].0 - ts[y].0)
                    / 86_400) as u32
        },
{
    let k = lemma_aftershock_from(m, files, volatility, hit, hit.len(), i);
    let ts = m.incidents[hit[k]];
    rows::latest_is_latest(ts);
    earliest_is_earliest(ts);
    let x = rows::latest(ts);
    let y = choose|y: int| 0 <= y < ts.len() && (#[trigger] ts[y]).0 == earliest(ts);
    assert(is_span(ts, x, y));
    assert(files.contains(hit[k]));
    assert(files[files.index_of(hit[k])] == hit[k]);
    k
}

/// No touch is later than that at `x` or earlier than that at `y`.
pub open spec fn is_span(ts: Seq<replay::TouchModel>, x: int, y: int) -> bool {
    &&& 0 <= x < ts.len()
    &&& 0 <= y < ts.len()
    &&& forall|j: int| 0 <= j < ts.len() ==> ts[y].0 <= (#[trigger] ts[j]).0 <= ts[x].0
}

/// Every file that had incidents, was touched and is volatile is in an
/// aftershock.
pub proof fn volatile_files_are_in_aftershock(
    m: replay::ReplayModel,
    files: Seq<Seq<char>>,
    volatility: Seq<u64>,
    hit: Seq<Seq<char>>,
    n: nat,
    k: int,
)
    requires
        0 <= k < n <= hit.len(),
        files.len() <= u32::MAX,
        files.contains(hit[k]),
        m.series.contains_key(hit[k]),
        m.incidents[hit[k]].len() > 0,
        ieee::greater(volatility[files.index_of(hit[k])], 0x3fd3_3333_3333_3333),
    ensures
        exists|i: int|
            0 <= i < aftershock_events(m, files, volatility, hit, n).len() && (
            #[trigger] aftershock_events(m, files, volatility, hit, n)[i]
                matches EventModel::IncidentAftershock { file, .. } && file < files.len()
                && files[file as int] == hit[k]),
    decreases n,
{
    let before = aftershock_events(m, files, volatility, hit, (n - 1) as nat);
    let all = aftershock_events(m, files, volatility, hit, n);
    assert(files[files.index_of(hit[k])] == hit[k]);
    if k < n - 1 {
        volatile_files_are_in_aftershock(m, files, volatility, hit, (n - 1) as nat, k);
        let i = choose|i: int|
            0 <= i < before.len() && (#[trigger] before[i] matches EventModel::IncidentAftershock {
                file,
                ..
            } && file < files.len() && files[file as int] == hit[k]);
        assert(all[i] == before[i]);
    } else {
        assert(all[before.len() as int] == aftershock(
            files.index_of(hit[k]) as u32,
            m.incidents[hit[k]],
        ));
    }
}

/// Every notice is told of as a drift, in its order: under the number that the
/// dictionary gives to its file, with its own time, sha and count.
pub proof fn drifts_are_notices(
    files: Seq<Seq<char>>,
    notices: Seq<rows::NoticeModel>,
    i: int,
)
    requires
        files.len() <= u32::MAX,
        0 <= i < notices.len(),
        files.contains(notices[i].path),
    ensures
        drift_events(files, notices).len() == notices.len(),
        drift_events(files, notices)[i] matches EventModel::ApiDrift {
            file,
            at,
            sha,
            pub_items_changed,
        } && file < files.len() && files[file as int] == notices[i].path && at == notices[i].at
            && sha == notices[i].sha && pub_items_changed == notices[i].pub_items_changed,
{
    assert(files[files.index_of(notices[i].path)] == notices[i].path);
}

/// The events come kind by kind: renames, hotspots, splits, aftershocks and
/// drifts, and there are no others.
pub proof fn events_come_by_kind(
    m: replay::ReplayModel,
    files: Seq<Seq<char>>,
    hit: Seq<Seq<char>>,
    bursts: Seq<Option<i64>>,
    volatility: Seq<u64>,
    notices: Seq<rows::NoticeModel>,
    i: int,
)
    requires
        files.len() <= u32::MAX,
        0 <= i < all_events(m, files, hit, bursts, volatility, notices).len(),
    ensures
        ({
            let a = m.renames.len() as int;
            let b = a + burst_events(m.series, files, bursts, files.len()).len();
            let c = b + split_events(m.series, files, m.authors, files.len()).len();
            let d = c + aftershock_events(m, files, volatility, hit, hit.len()).len();
            let all = all_events(m, files, hit, bursts, volatility, notices);
            let e = all[i];
            &&& all.len() == d + notices.len()
            &&& e is Rename <==> i < a
            &&& e is Hotspot <==> a <= i < b
            &&& e is OwnershipSplit <==> b <= i < c
            &&& e is IncidentAftershock <==> c <= i < d
            &&& e is ApiDrift <==> d <= i
        }),
{
    let a = m.renames.len() as int;
    let bs = burst_events(m.series, files, bursts, files.len());
    let ss = split_events(m.series, files, m.authors, files.len());
    let hs = aftershock_events(m, files, volatility, hit, hit.len());
    let ds = drift_events(final_files(m, files), notices);
    hotspots_are_bursts(m.series, files, bursts, files.len());
    splits_are_of_their_files(m.series, files, m.authors, files.len());
    let b = a + bs.len();
    let c = b + ss.len();
    let d = c + hs.len();
    let e = all_events(m, files, hit, bursts, volatility, notices)[i];
    if i < a {
    } else if i < b {
        assert(e == bs[i - a]);
    } else if i < c {
        assert(e == ss[i - b]);
    } else if i < d {
        assert(e == hs[i - c]);
        let k = lemma_aftershock_from(m, files, volatility, hit, hit.len(), i - c);
    } else {
        assert(e == ds[i - d]);
    }
}

/// As a value, an event is of the same kind and has the same fields.
pub proof fn events_are_own_fields(e: Event)
    ensures
        e matches Event::Rename { file, at, sha, from, to } ==> e@ == (EventModel::Rename {
            file,
            at,
            sha: sha@,
            from: from@,
            to: to@,
        }),
        e matches Event::Hotspot { file, at, sha, reason } ==> e@ == (EventModel::Hotspot {
            file,
            at,
            sha: sha@,
            reason: reason@,
        }),
        e matches Event::OwnershipSplit { file, at, sha, authors } ==> e@ == (
        EventModel::OwnershipSplit { file, at, sha: sha@, authors: authors@ }),
        e matches Event::IncidentAftershock { file, at, sha, window_days } ==> e@ == (
        EventModel::IncidentAftershock { file, at, sha: sha@, window_days }),
        e matches Event::ApiDrift { file, at, sha, pub_items_changed } ==> e@ == (
        EventModel::ApiDrift { file, at, sha: sha@, pub_items_changed }),
{
}

/// Events are told one by one.
pub proof fn events_are_told_one_by_one(s: Seq<Event>, i: int)
    requires
        0 <= i < s.len(),
    ensures
        event_models(s).len() == s.len(),
        event_models(s)[i] == s[i]@,
{
}

} // verus!
