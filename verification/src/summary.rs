//! The summary of a walk: dictionary, rows, events and handles.

use vstd::prelude::*;

use crate::events;
use crate::events::{detect_events, Event};
use crate::evidence;
use crate::handles;
use crate::handles::{mint_handles, resolve_handles, FileHandle};
use crate::replay;
use crate::replay::Replay;
use crate::rows;
use crate::rows::{score_rows, DriftNotice, FileRow};
use crate::signal::Axes;
use crate::sorted_map::SortedMap;
use crate::vertices;
use crate::vertices::number_all;

verus! {

/// What a scan comes to.
pub struct Summary {
    /// The dictionary of files and authors.
    pub table: entropyx_core::VertexTable,
    /// A row per file, in the order of the dictionary.
    pub rows: Vec<FileRow>,
    pub events: Vec<Event>,
    /// The handles of the files that the head has.
    pub handles: SortedMap<FileHandle>,
    /// The path that each handle leads to.
    pub handle_paths: SortedMap<String>,
}

/// Everything in the summary can be numbered.
pub open spec fn can_be_numbered(w: Replay) -> bool {
    &&& w.series.key_seq().len() + w.renames@.len() <= u32::MAX
    &&& w.authors@.len() <= u32::MAX
}

/// Whether everything in the summary can be numbered.
pub fn is_numberable(w: &Replay) -> (r: bool)
    requires
        w.wf(),
    ensures
        r == can_be_numbered(*w),
{
    let files: usize = w.series.len();
    let renames: usize = w.renames.len();
    let most: usize = 0xffff_ffff;
    files <= most && renames <= most - files && w.authors.len() <= most
}

/// The volatility of each file.
pub open spec fn volatility_of(axes: Seq<Axes>) -> Seq<u64> {
    axes.map_values(|a: Axes| a.temporal_volatility)
}

/// The rows of the files.
pub open spec fn rows_of(
    m: replay::ReplayModel,
    files: Seq<Seq<char>>,
    axes: Seq<Axes>,
    composites: Seq<u64>,
) -> Seq<FileRow> {
    Seq::new(files.len(), |i: int| rows::row_at(m, files, axes, composites, i))
}

fn volatilities(axes: &Vec<Axes>) -> (r: Vec<u64>)
    ensures
        r@ == volatility_of(axes@),
{
    let mut r: Vec<u64> = Vec::new();
    let mut i: usize = 0;
    while i < axes.len()
        invariant
            i <= axes@.len(),
            r@ == volatility_of(axes@).take(i as int),
        decreases axes@.len() - i,
    {
        let v: u64 = axes[i].temporal_volatility;
        r.push(v);
        assert(volatility_of(axes@).take(i + 1) =~= volatility_of(axes@).take(i as int).push(v));
        i = i + 1;
    }
    assert(volatility_of(axes@).take(i as int) =~= volatility_of(axes@));
    r
}

/// The rows of a scan, before its events are told.
pub struct Draft {
    pub table: entropyx_core::VertexTable,
    pub rows: Vec<FileRow>,
    pub notices: Vec<DriftNotice>,
}

/// The draft numbers the files and authors of the walk, and notes the drift of
/// its rows.
pub open spec fn is_draft(d: Draft, m: replay::ReplayModel, files: Seq<Seq<char>>) -> bool {
    &&& vertices::table_indexed(d.table)
    &&& vertices::table_files(d.table) == files
    &&& vertices::table_authors(d.table) == m.authors
    &&& d.rows@.len() == files.len()
    &&& rows::notice_models(d.notices@) == rows::notices_of(m, files, d.rows@)
}

/// Score the files of the walk, whose measures are given in the order of the
/// files.
pub fn draft_rows(w: &Replay, axes: &Vec<Axes>, composites: &Vec<u64>) -> (r: Draft)
    requires
        w.wf(),
        can_be_numbered(*w),
        axes@.len() == w.series.key_seq().len(),
        composites@.len() == w.series.key_seq().len(),
    ensures
        is_draft(r, w@, w.series.key_seq()),
        r.rows@ == rows_of(w@, w.series.key_seq(), axes@, composites@),
{
    let mut table = number_all(w);
    let (rows, notices) = score_rows(w, &mut table, axes, composites);
    assert(rows@ =~= rows_of(w@, w.series.key_seq(), axes@, composites@));
    Draft { table, rows, notices }
}

/// Tell the events of the walk. The dictionary gets the files that only a
/// rename names.
pub fn draft_events(
    w: &mut Replay,
    d: &mut Draft,
    axes: &Vec<Axes>,
    bursts: &Vec<Option<i64>>,
) -> (r: Vec<Event>)
    requires
        old(w).wf(),
        can_be_numbered(*old(w)),
        is_draft(*old(d), old(w)@, old(w).series.key_seq()),
        axes@.len() == old(w).series.key_seq().len(),
        bursts@.len() == old(w).series.key_seq().len(),
    ensures
        final(w).wf(),
        final(w)@ == old(w)@,
        final(w).series == old(w).series,
        final(d).rows == old(d).rows,
        vertices::table_files(final(d).table) == events::final_files(
            old(w)@,
            old(w).series.key_seq(),
        ),
        vertices::table_authors(final(d).table) == old(w)@.authors,
        events::event_models(r@) == events::all_events(
            old(w)@,
            old(w).series.key_seq(),
            old(w).incidents.key_seq(),
            bursts@,
            volatility_of(axes@),
            rows::notices_of(old(w)@, old(w).series.key_seq(), old(d).rows@),
        ),
{
    proof {
        rows::notices_name_files(w@, w.series.key_seq(), d.rows@);
    }
    let volatility = volatilities(axes);
    detect_events(w, &mut d.table, bursts, &volatility, &d.notices)
}

/// Mint the handles of the files, and put the summary together.
pub fn close_draft(d: Draft, events: Vec<Event>, w: &Replay, head: &SortedMap<String>) -> (r:
    Summary)
    requires
        w.wf(),
        w.series.key_seq().len() <= u32::MAX,
        head.wf(),
    ensures
        r.table == d.table,
        r.rows == d.rows,
        r.events == events,
        r.handles.wf(),
        handles::handle_models(r.handles@) == handles::handles_of(
            w.series.key_seq(),
            head@,
            w.series.key_seq().len(),
        ),
        r.handle_paths.wf(),
        handles::path_models(r.handle_paths@) == handles::paths_of(
            handles::handle_models(r.handles@),
            w.series.key_seq(),
        ),
{
    let ghost files = w.series.key_seq();
    let handles = mint_handles(&w.series, head);
    proof {
        assert forall|k: Seq<char>| #[trigger] handles@.contains_key(k) implies handles@[k].file
            < files.len() by {
            assert(handles::handle_models(handles@).contains_key(k));
            handles::handles_lead_to_files(files, head@, files.len(), k);
        }
    }
    let handle_paths = resolve_handles(&handles, &w.series);
    Summary { table: d.table, rows: d.rows, events, handles, handle_paths }
}

/// Put the summary together from the walk, the blobs at the head, and the
/// measures of the files, which are given in the order of the files.
pub fn summarize(
    w: &mut Replay,
    head: &SortedMap<String>,
    axes: &Vec<Axes>,
    composites: &Vec<u64>,
    bursts: &Vec<Option<i64>>,
) -> (r: Summary)
    requires
        old(w).wf(),
        can_be_numbered(*old(w)),
        head.wf(),
        axes@.len() == old(w).series.key_seq().len(),
        composites@.len() == old(w).series.key_seq().len(),
        bursts@.len() == old(w).series.key_seq().len(),
    ensures
        final(w).wf(),
        final(w)@ == old(w)@,
        final(w).series == old(w).series,
        vertices::table_files(r.table) == events::final_files(
            old(w)@,
            old(w).series.key_seq(),
        ),
        vertices::table_authors(r.table) == old(w)@.authors,
        r.rows@ == rows_of(old(w)@, old(w).series.key_seq(), axes@, composites@),
        events::event_models(r.events@) == events::all_events(
            old(w)@,
            old(w).series.key_seq(),
            old(w).incidents.key_seq(),
            bursts@,
            volatility_of(axes@),
            rows::notices_of(old(w)@, old(w).series.key_seq(), r.rows@),
        ),
        r.handles.wf(),
        handles::handle_models(r.handles@) == handles::handles_of(
            old(w).series.key_seq(),
            head@,
            old(w).series.key_seq().len(),
        ),
        r.handle_paths.wf(),
        handles::path_models(r.handle_paths@) == handles::paths_of(
            handles::handle_models(r.handles@),
            old(w).series.key_seq(),
        ),
{
    let mut d = draft_rows(w, axes, composites);
    let events = draft_events(w, &mut d, axes, bursts);
    close_draft(d, events, w, head)
}

/// Every file of a row has its name in the dictionary, at the row's number.
pub proof fn rows_name_files(
    m: replay::ReplayModel,
    files: Seq<Seq<char>>,
    axes: Seq<Axes>,
    composites: Seq<u64>,
    i: int,
)
    requires
        files.no_duplicates(),
        files.len() <= u32::MAX,
        0 <= i < files.len(),
    ensures
        rows_of(m, files, axes, composites)[i].file == i,
        i < events::final_files(m, files).len(),
        events::final_files(m, files)[i] == files[i],
{
    events::row_numbers_stay(m, files, i);
    let all = events::final_files(m, files);
    assert(all[all.index_of(files[i])] == files[i]);
}

/// A handle leads to the evidence of its file: its path is one that the walk
/// knows.
pub proof fn handles_lead_to_evidence(
    files: Seq<Seq<char>>,
    series: Map<Seq<char>, replay::SeriesModel>,
    commits: Seq<replay::Commit>,
    head: Map<Seq<char>, String>,
    key: Seq<char>,
)
    requires
        files.len() <= u32::MAX,
        forall|p: Seq<char>| #[trigger] series.contains_key(p) <==> files.contains(p),
        handles::handles_of(files, head, files.len()).contains_key(key),
    ensures
        evidence::refs_by_path(commits, series).contains_key(
            handles::paths_of(handles::handles_of(files, head, files.len()), files)[key],
        ),
{
    handles::handles_lead_to_files(files, head, files.len(), key);
    let h = handles::handles_of(files, head, files.len())[key];
    assert(files.contains(files[h.0 as int]));
}

/// There is one row per file, in the order of the files, and the volatility of
/// a file is that of its own axes.
pub proof fn rows_follow_files(
    m: replay::ReplayModel,
    files: Seq<Seq<char>>,
    axes: Seq<Axes>,
    composites: Seq<u64>,
    i: int,
)
    requires
        files.len() <= u32::MAX,
        axes.len() == files.len(),
        0 <= i < files.len(),
    ensures
        rows_of(m, files, axes, composites).len() == files.len(),
        rows_of(m, files, axes, composites)[i].file == i,
        rows_of(m, files, axes, composites)[i].axes == axes[i],
        rows_of(m, files, axes, composites)[i].composite == composites[i],
        volatility_of(axes).len() == files.len(),
        volatility_of(axes)[i] == axes[i].temporal_volatility,
{
}

/// Files and renames together are numbered in 32 bits, and so are the authors.
pub proof fn numbers_have_32_bits(w: Replay)
    ensures
        can_be_numbered(w) <==> w.series.key_seq().len() + w.renames@.len() <= 4_294_967_295
            && w.authors@.len() <= 4_294_967_295,
{
}

} // verus!
