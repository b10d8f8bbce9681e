//! What a client gets: which scan, in which order, and for how long.

use std::sync::Arc;

use vstd::prelude::*;
use vstd::string::*;

use crate::addresses;
use crate::ieee;
use crate::order;
use crate::order::{comes_before, same_text};
use crate::phases;
use crate::phases::{Phase, Told, Turn};
use crate::ranking;
use crate::ranking::{reversed, sort_stable, Ranked};
use crate::rows::FileRow;
use crate::sorted_map;
use crate::sorted_map::SortedMap;
use crate::text;
use crate::text::{chars_of, is_empty_text, split, string_of, to_lower, trim_chars, trimmed};

verus! {

// ---- which scan ------------------------------------------------------

/// A finished scan is kept under the repository and its head.
pub open spec fn scan_key(canonical: Seq<char>, head: Option<Seq<char>>) -> Seq<char> {
    canonical + "@"@ + match head {
        Some(h) => h,
        None => "unknown"@,
    }
}

/// The text of a head.
pub open spec fn head_text(head: Option<&str>) -> Option<Seq<char>> {
    match head {
        Some(h) => Some(h@),
        None => None,
    }
}

/// The key under which a finished scan is kept.
pub fn cache_key(canonical: &str, head: Option<&str>) -> (r: String)
    ensures
        r@ == scan_key(canonical@, head_text(head)),
{
    let mut k = canonical.to_owned();
    k.append("@");
    match head {
        Some(h) => k.append(h),
        None => k.append("unknown"),
    }
    k
}

/// The head that was asked for; none if that failed.
pub fn head_of(success: bool, printed: &str) -> (r: Option<String>)
    ensures
        match r {
            Some(h) => success && h@ == text::trim(printed@),
            None => !success,
        },
{
    if success {
        Some(trimmed(printed))
    } else {
        None
    }
}

/// How a request for a scan is met.
pub enum ScanStart {
    /// There is nothing to scan; the client is told so.
    Refuse { message: String },
    /// A finished scan is served again.
    Serve,
    /// A scan is run.
    Run,
}

/// What is no repository is refused, and a kept scan is served unless a fresh
/// one is asked for.
pub open spec fn starts(
    r: ScanStart,
    canonical: Seq<char>,
    is_repository: bool,
    fresh: bool,
    kept: bool,
) -> bool {
    match r {
        ScanStart::Refuse { message } => !is_repository && message@ == "not a git repository: "@
            + canonical,
        ScanStart::Serve => is_repository && !fresh && kept,
        ScanStart::Run => is_repository && (fresh || !kept),
    }
}

/// Decide how a request is met.
pub fn start_scan(canonical: &str, is_repository: bool, fresh: bool, kept: bool) -> (r: ScanStart)
    ensures
        starts(r, canonical@, is_repository, fresh, kept),
{
    if !is_repository {
        let mut message = "not a git repository: ".to_owned();
        message.append(canonical);
        return ScanStart::Refuse { message };
    }
    if !fresh && kept {
        ScanStart::Serve
    } else {
        ScanStart::Run
    }
}

/// The digest of `blake3` in hexadecimal digits.
pub uninterp spec fn blake3_hex(bytes: Seq<u8>) -> Seq<char>;

/// `blake3::hash` of the bytes, written out by `to_hex`: sixty-four digits.
#[verifier::external_body]
fn blake3_digest(bytes: &[u8]) -> (r: String)
    ensures
        r@ == blake3_hex(bytes@),
        r@.len() == 64,
{
    blake3::hash(bytes).to_hex().to_string()
}

/// The receipt of a scan: the digest of its canonical form, or nothing if there
/// is none.
pub fn receipt(bytes: Option<&[u8]>) -> (r: String)
    ensures
        match bytes {
            Some(b) => r@ == blake3_hex(b@) && r@.len() == 64,
            None => r@.len() == 0,
        },
{
    match bytes {
        Some(b) => blake3_digest(b),
        None => String::new(),
    }
}

// ---- in which order --------------------------------------------------

/// Rows or events that go out in one message.
pub const CHUNK: usize = 150;

/// A score as a client reads it: what is no finite number counts as zero.
pub open spec fn shown_score(bits: u64) -> u64 {
    if ieee::magnitude(bits) >= 0x7ff0_0000_0000_0000 {
        0
    } else {
        bits
    }
}

/// The row at `a` goes out before that at `b`: it scores higher, or the same
/// and stands earlier.
pub open spec fn goes_before(rows: Seq<FileRow>, a: usize, b: usize) -> bool {
    let x = ieee::key(shown_score(rows[a as int].composite));
    let y = ieee::key(shown_score(rows[b as int].composite));
    x > y || (x == y && a < b)
}

/// The rows, each once, the highest scores first.
pub open spec fn is_emission_order(rows: Seq<FileRow>, r: Seq<usize>) -> bool {
    &&& r.len() == rows.len()
    &&& forall|i: int| 0 <= i < r.len() ==> #[trigger] r[i] < rows.len()
    &&& forall|i: int, j: int|
        #![trigger r[i], r[j]]
        0 <= i < j < r.len() ==> goes_before(rows, r[i], r[j])
}

/// A row's place and its score.
pub struct Placed {
    pub score: u64,
    pub place: usize,
}

impl Ranked for Placed {
    open spec fn leq(self, other: Placed) -> bool {
        ieee::key(self.score) > ieee::key(other.score) || (ieee::key(self.score) == ieee::key(
            other.score,
        ) && self.place <= other.place)
    }

    proof fn leq_total_preorder() {
    }

    fn at_most(&self, other: &Placed) -> (r: bool) {
        if ieee::key_above(self.score, other.score) {
            return true;
        }
        !ieee::key_above(other.score, self.score) && self.place <= other.place
    }
}

fn score_shown(bits: u64) -> (r: u64)
    ensures
        r == shown_score(bits),
{
    let m: u64 = if bits >= 0x8000_0000_0000_0000 {
        bits - 0x8000_0000_0000_0000
    } else {
        bits
    };
    if m >= 0x7ff0_0000_0000_0000 {
        0
    } else {
        bits
    }
}

/// The order in which rows go out, so that a client can begin with those that
/// matter most.
pub fn emission_order(rows: &Vec<FileRow>) -> (r: Vec<usize>)
    ensures
        is_emission_order(rows@, r@),
{
    let n: usize = rows.len();
    let mut items: Vec<Placed> = Vec::new();
    let mut i: usize = 0;
    while i < n
        invariant
            i <= n,
            n == rows@.len(),
            items@.len() == i,
            forall|j: int|
                0 <= j < i ==> (#[trigger] items@[j]).place == j && items@[j].score == shown_score(
                    rows@[j].composite,
                ),
        decreases n - i,
    {
        items.push(Placed { score: score_shown(rows[i].composite), place: i });
        i = i + 1;
    }
    let ghost leq = ranking::by_rank::<Placed>();
    let ghost place = |x: Placed| x.place;
    let ghost given = items@;
    let sorted = sort_stable(items);
    proof {
        ranking::by_rank_is_total_preorder::<Placed>();
        ranking::ranked_is_ordered(given, leq);
        assert(given.map_values(place).no_duplicates());
        ranking::ranked_keeps_distinct(given, leq, place);
        assert forall|j: int| 0 <= j < sorted@.len() implies (#[trigger] sorted@[j]).place < n
            && sorted@[j].score == shown_score(rows@[sorted@[j].place as int].composite) by {
            ranking::ranked_same_members(given, leq, sorted@[j]);
            assert(sorted@.contains(sorted@[j]));
            let q = choose|q: int| 0 <= q < given.len() && given[q] == sorted@[j];
            assert(given[q].place == q);
        }
    }
    let mut r: Vec<usize> = Vec::new();
    let mut j: usize = 0;
    while j < sorted.len()
        invariant
            j <= sorted@.len(),
            place == |x: Placed| x.place,
            r@ == sorted@.map_values(place).take(j as int),
        decreases sorted@.len() - j,
    {
        r.push(sorted[j].place);
        assert(sorted@.map_values(place).take(j + 1) =~= sorted@.map_values(place).take(
            j as int,
        ).push(sorted@[j as int].place));
        j = j + 1;
    }
    proof {
        assert(r@ =~= sorted@.map_values(place));
        assert forall|x: int, y: int| 0 <= x < y < r@.len() implies goes_before(
            rows@,
            #[trigger] r@[x],
            #[trigger] r@[y],
        ) by {
            assert(leq(sorted@[x], sorted@[y]));
            assert(sorted@.map_values(place)[x] != sorted@.map_values(place)[y]);
        }
    }
    r
}

/// A message to a client.
#[derive(Clone, Copy, PartialEq, Eq, Structural, Debug)]
pub enum Message {
    /// Why there is no answer.
    Refusal,
    /// The repository, its head and the phases.
    Meta,
    /// The scan was kept.
    Cached,
    /// A phase starts or is done.
    Phase { phase: Phase, done: bool },
    /// So many of so many items of a phase are done.
    Tick { phase: Phase, done: usize, total: usize },
    /// How long it took, and the digest.
    Done { cached: bool },
    /// The dictionary.
    Dict,
    /// Rows from `offset` up to `end`, of `total`.
    Rows { offset: usize, end: usize, total: usize },
    /// Events from `offset` up to `end`, of `total`.
    Events { offset: usize, end: usize, total: usize },
    /// The handles.
    Handles,
}

/// How many messages so many items take.
pub open spec fn chunk_count(total: nat) -> nat {
    if total == 0 {
        0
    } else {
        ((total - 1) / (CHUNK as int) + 1) as nat
    }
}

/// Where the `i`-th message of items ends.
pub open spec fn chunk_end(total: nat, i: int) -> int {
    if (i + 1) * CHUNK < total {
        (i + 1) * CHUNK
    } else {
        total as int
    }
}

/// The messages of rows.
pub open spec fn row_messages(total: nat) -> Seq<Message> {
    Seq::new(
        chunk_count(total),
        |i: int|
            Message::Rows {
                offset: (i * CHUNK) as usize,
                end: chunk_end(total, i) as usize,
                total: total as usize,
            },
    )
}

/// The messages of events.
pub open spec fn event_messages(total: nat) -> Seq<Message> {
    Seq::new(
        chunk_count(total),
        |i: int|
            Message::Events {
                offset: (i * CHUNK) as usize,
                end: chunk_end(total, i) as usize,
                total: total as usize,
            },
    )
}

/// The messages of a summary: the dictionary first, then rows, events and
/// handles.
pub open spec fn summary_messages(rows: nat, events: nat) -> Seq<Message> {
    seq![Message::Dict] + row_messages(rows) + event_messages(events) + seq![Message::Handles]
}

/// The messages of items follow on one another, and together hold every item
/// once.
pub proof fn chunks_tile(total: nat, i: int)
    requires
        0 <= i < chunk_count(total),
    ensures
        0 <= i * CHUNK < chunk_end(total, i) <= total,
        chunk_end(total, i) - i * CHUNK <= CHUNK,
        i + 1 < chunk_count(total) ==> chunk_end(total, i) == (i + 1) * CHUNK,
        i + 1 == chunk_count(total) ==> chunk_end(total, i) == total,
{
    vstd::arithmetic::div_mod::lemma_fundamental_div_mod(total - 1, CHUNK as int);
}

/// The messages in which a summary goes out.
pub fn emission_plan(rows: usize, events: usize) -> (r: Vec<Message>)
    ensures
        r@ == summary_messages(rows as nat, events as nat),
{
    let mut r: Vec<Message> = Vec::new();
    r.push(Message::Dict);
    let ghost head = seq![Message::Dict];
    assert(r@ =~= head + row_messages(rows as nat).take(0));
    let mut offset: usize = 0;
    let ghost mut i: int = 0;
    while offset < rows
        invariant
            0 <= i <= chunk_count(rows as nat),
            offset == if i == chunk_count(rows as nat) {
                rows as int
            } else {
                i * CHUNK
            },
            r@ == head + row_messages(rows as nat).take(i),
        decreases rows - offset,
    {
        let end: usize = if rows - offset > CHUNK {
            offset + CHUNK
        } else {
            rows
        };
        let m = Message::Rows { offset, end, total: rows };
        r.push(m);
        proof {
            if i == chunk_count(rows as nat) {
                assert(false);
            }
            chunks_tile(rows as nat, i);
            assert(m == row_messages(rows as nat)[i]);
            assert(row_messages(rows as nat).take(i + 1) =~= row_messages(rows as nat).take(i).push(
                m,
            ));
            assert(r@ =~= head + row_messages(rows as nat).take(i + 1));
            i = i + 1;
        }
        offset = end;
    }
    proof {
        if i < chunk_count(rows as nat) {
            chunks_tile(rows as nat, i);
        }
        assert(row_messages(rows as nat).take(i) =~= row_messages(rows as nat));
    }
    let ghost front = head + row_messages(rows as nat);
    assert(r@ =~= front + event_messages(events as nat).take(0));
    let mut offset: usize = 0;
    let ghost mut i: int = 0;
    while offset < events
        invariant
            0 <= i <= chunk_count(events as nat),
            offset == if i == chunk_count(events as nat) {
                events as int
            } else {
                i * CHUNK
            },
            r@ == front + event_messages(events as nat).take(i),
        decreases events - offset,
    {
        let end: usize = if events - offset > CHUNK {
            offset + CHUNK
        } else {
            events
        };
        let m = Message::Events { offset, end, total: events };
        r.push(m);
        proof {
            if i == chunk_count(events as nat) {
                assert(false);
            }
            chunks_tile(events as nat, i);
            assert(m == event_messages(events as nat)[i]);
            assert(event_messages(events as nat).take(i + 1) =~= event_messages(
                events as nat,
            ).take(i).push(m));
            assert(r@ =~= front + event_messages(events as nat).take(i + 1));
            i = i + 1;
        }
        offset = end;
    }
    proof {
        if i < chunk_count(events as nat) {
            chunks_tile(events as nat, i);
        }
        assert(event_messages(events as nat).take(i) =~= event_messages(events as nat));
    }
    r.push(Message::Handles);
    assert(r@ =~= summary_messages(rows as nat, events as nat));
    r
}

// ---- the whole answer ------------------------------------------------

/// How an answer begins.
pub open spec fn opening(start: ScanStart) -> Seq<Message> {
    match start {
        ScanStart::Refuse { .. } => seq![Message::Refusal],
        ScanStart::Serve => seq![Message::Meta, Message::Cached],
        ScanStart::Run => seq![Message::Meta],
    }
}

/// The message in which something is told.
pub open spec fn message_of(told: Told) -> Message {
    match told {
        Told::Phase { phase, done } => Message::Phase { phase, done },
        Told::Tick { phase, done, total } => Message::Tick { phase, done, total },
    }
}

/// What is told of the phases.
pub open spec fn phase_messages() -> Seq<Message> {
    phases::phase_tellings().map_values(|told: Told| message_of(told))
}

/// What is sent while a scan runs; one that is kept does not run.
pub open spec fn running(start: ScanStart) -> Seq<Message> {
    match start {
        ScanStart::Run => phase_messages(),
        _ => Seq::empty(),
    }
}

/// How an answer ends.
pub open spec fn closing(start: ScanStart, rows: nat, events: nat) -> Seq<Message> {
    match start {
        ScanStart::Refuse { .. } => Seq::empty(),
        ScanStart::Serve => summary_messages(rows, events).push(Message::Done { cached: true }),
        ScanStart::Run => summary_messages(rows, events).push(Message::Done { cached: false }),
    }
}

/// The messages that answer a request, where the scan comes to its end and the
/// client stays. How far a long phase is may be told on top, while it runs: see
/// `all_sent`.
pub open spec fn answer(start: ScanStart, rows: nat, events: nat) -> Seq<Message> {
    opening(start) + running(start) + closing(start, rows, events)
}

/// The messages with which an answer begins.
pub fn opening_plan(start: &ScanStart) -> (r: Vec<Message>)
    ensures
        r@ == opening(*start),
{
    let mut r: Vec<Message> = Vec::new();
    match start {
        ScanStart::Refuse { .. } => {
            r.push(Message::Refusal);
        },
        ScanStart::Serve => {
            r.push(Message::Meta);
            r.push(Message::Cached);
        },
        ScanStart::Run => {
            r.push(Message::Meta);
        },
    }
    assert(r@ =~= opening(*start));
    r
}

/// The messages with which an answer ends: the summary, and that it is done.
pub fn closing_plan(start: &ScanStart, rows: usize, events: usize) -> (r: Vec<Message>)
    ensures
        r@ == closing(*start, rows as nat, events as nat),
{
    match start {
        ScanStart::Refuse { .. } => Vec::new(),
        ScanStart::Serve => {
            let mut r = emission_plan(rows, events);
            r.push(Message::Done { cached: true });
            r
        },
        ScanStart::Run => {
            let mut r = emission_plan(rows, events);
            r.push(Message::Done { cached: false });
            r
        },
    }
}

fn phase_plan() -> (r: Vec<Message>)
    ensures
        r@ == phase_messages(),
{
    let all = Phase::all();
    let mut r: Vec<Message> = Vec::new();
    let mut i: usize = 0;
    assert(phase_messages().take(0) =~= Seq::empty());
    while i < all.len()
        invariant
            i <= all@.len(),
            all@.len() == 11,
            forall|j: int| 0 <= j < all@.len() ==> phases::phase_place(#[trigger] all@[j]) == j,
            r@ == phase_messages().take(2 * i),
        decreases all@.len() - i,
    {
        let phase = all[i];
        let first = Message::Phase { phase, done: false };
        let second = Message::Phase { phase, done: true };
        r.push(first);
        r.push(second);
        proof {
            assert(phases::phase_place(all@[i as int]) == i);
            phases::each_phase_is_told_once(phase, 2 * i);
            phases::each_phase_is_told_once(phase, 2 * i + 1);
            assert(phase_messages()[2 * i] == first);
            assert(phase_messages()[2 * i + 1] == second);
            assert(phase_messages().take(2 * (i + 1)) =~= phase_messages().take(2 * i).push(
                first,
            ).push(second));
        }
        i = i + 1;
    }
    assert(phase_messages().take(2 * i) =~= phase_messages());
    r
}

/// All messages that answer a request.
pub fn answer_plan(start: &ScanStart, rows: usize, events: usize) -> (r: Vec<Message>)
    ensures
        r@ == answer(*start, rows as nat, events as nat),
{
    let mut r = opening_plan(start);
    match start {
        ScanStart::Run => {
            let mut told = phase_plan();
            r.append(&mut told);
        },
        _ => {},
    }
    assert(r@ =~= opening(*start) + running(*start));
    let mut end = closing_plan(start, rows, events);
    r.append(&mut end);
    r
}

/// All messages that answer a request, those of how far the scan is too. The
/// scan takes these turns, if it runs.
pub open spec fn all_sent(
    start: ScanStart,
    turns: Seq<Turn>,
    rows: nat,
    events: nat,
) -> Seq<Message> {
    let told = match start {
        ScanStart::Run => phases::told_after(turns).map_values(|t: Told| message_of(t)),
        _ => Seq::empty(),
    };
    opening(start) + told + closing(start, rows, events)
}

proof fn lemma_keeps_all<T>(s: Seq<T>, p: spec_fn(T) -> bool)
    requires
        forall|i: int| 0 <= i < s.len() ==> p(#[trigger] s[i]),
    ensures
        s.filter(p) == s,
    decreases s.len(),
{
    reveal(Seq::filter);
    if s.len() > 0 {
        let f = s.drop_last();
        assert forall|i: int| 0 <= i < f.len() implies p(#[trigger] f[i]) by {
            assert(f[i] == s[i]);
        }
        lemma_keeps_all(f, p);
        assert(p(s[s.len() - 1]));
        assert(f.push(s.last()) =~= s);
    } else {
        assert(s.filter(p) =~= s);
    }
}

proof fn lemma_told_without_ticks(told: Seq<Told>)
    ensures
        told.map_values(|t: Told| message_of(t)).filter(|m: Message| m !is Tick)
            == phases::phases_of(told).map_values(|t: Told| message_of(t)),
    decreases told.len(),
{
    let f = |t: Told| message_of(t);
    let p = |m: Message| m !is Tick;
    let q = |t: Told| t is Phase;
    reveal(Seq::filter);
    if told.len() == 0 {
        assert(told.map_values(f).filter(p) =~= told.filter(q).map_values(f));
    } else {
        let before = told.drop_last();
        lemma_told_without_ticks(before);
        assert(told.map_values(f).drop_last() =~= before.map_values(f));
        assert(told.map_values(f).last() == f(told.last()));
        if q(told.last()) {
            assert(before.filter(q).push(told.last()).map_values(f) =~= before.filter(
                q,
            ).map_values(f).push(f(told.last())));
        }
    }
}

/// But for how far the scan is, everything that a finished request is sent is
/// its answer.
pub proof fn answer_is_all_but_ticks(
    start: ScanStart,
    turns: Seq<Turn>,
    rows: nat,
    events: nat,
)
    requires
        start is Run ==> phases::course_after(turns) is Finished,
    ensures
        all_sent(start, turns, rows, events).filter(|m: Message| m !is Tick) == answer(
            start,
            rows,
            events,
        ),
{
    let p = |m: Message| m !is Tick;
    let told = match start {
        ScanStart::Run => phases::told_after(turns).map_values(|t: Told| message_of(t)),
        _ => Seq::empty(),
    };
    let begin = opening(start);
    let end = closing(start, rows, events);
    Seq::filter_distributes_over_add(begin + told, end, p);
    Seq::filter_distributes_over_add(begin, told, p);
    lemma_keeps_all(begin, p);
    assert forall|i: int| 0 <= i < end.len() implies p(#[trigger] end[i]) by {
        let payload = summary_messages(rows, events);
        if i < payload.len() {
            assert(end[i] == payload[i]);
        }
    }
    lemma_keeps_all(end, p);
    if start is Run {
        phases::finished_scan_told_every_phase(turns);
        lemma_told_without_ticks(phases::told_after(turns));
    } else {
        lemma_keeps_all(told, p);
    }
    assert(told.filter(p) =~= running(start));
}

// ---- scans that are kept ---------------------------------------------

/// A finished scan: what it sends, and what is kept of it. The payload is the
/// summary in the form of the wire, together with whatever else is wanted
/// later.
pub struct KeptScan<P> {
    pub payload: P,
    pub rows: Vec<FileRow>,
    /// How many events the summary has.
    pub events: usize,
    pub elapsed_ms: u128,
    pub digest: String,
}

/// The end of an answer.
pub struct DoneNote {
    pub elapsed_ms: u128,
    /// How long the scan took when it was run, if it was not run now.
    pub original_elapsed_ms: Option<u128>,
    pub cached: bool,
    pub digest: String,
}

/// The end of an answer as a value.
pub struct DoneModel {
    pub elapsed_ms: u128,
    pub original_elapsed_ms: Option<u128>,
    pub cached: bool,
    pub digest: Seq<char>,
}

impl View for DoneNote {
    type V = DoneModel;

    open spec fn view(&self) -> DoneModel {
        DoneModel {
            elapsed_ms: self.elapsed_ms,
            original_elapsed_ms: self.original_elapsed_ms,
            cached: self.cached,
            digest: self.digest@,
        }
    }
}

/// What is said at the end: a kept scan took no time now.
pub open spec fn note_of<P>(scan: KeptScan<P>, cached: bool) -> DoneModel {
    DoneModel {
        elapsed_ms: if cached {
            0
        } else {
            scan.elapsed_ms
        },
        original_elapsed_ms: if cached {
            Some(scan.elapsed_ms)
        } else {
            None
        },
        cached,
        digest: scan.digest@,
    }
}

impl<P> KeptScan<P> {
    /// A scan that has come to its end, with the receipt of its canonical form.
    pub fn new(
        payload: P,
        rows: Vec<FileRow>,
        events: usize,
        elapsed_ms: u128,
        canonical_form: Option<&[u8]>,
    ) -> (r: KeptScan<P>)
        ensures
            r.payload == payload,
            r.rows == rows,
            r.events == events,
            r.elapsed_ms == elapsed_ms,
            match canonical_form {
                Some(b) => r.digest@ == blake3_hex(b@),
                None => r.digest@.len() == 0,
            },
    {
        KeptScan { payload, rows, events, elapsed_ms, digest: receipt(canonical_form) }
    }

    /// What is said at the end of an answer.
    pub fn note(&self, cached: bool) -> (r: DoneNote)
        ensures
            r@ == note_of(*self, cached),
    {
        if cached {
            DoneNote {
                elapsed_ms: 0,
                original_elapsed_ms: Some(self.elapsed_ms),
                cached,
                digest: self.digest.clone(),
            }
        } else {
            DoneNote {
                elapsed_ms: self.elapsed_ms,
                original_elapsed_ms: None,
                cached,
                digest: self.digest.clone(),
            }
        }
    }
}

/// The finished scans, by repository and head.
pub struct Shelf<P> {
    kept: SortedMap<Arc<KeptScan<P>>>,
}

impl<P> View for Shelf<P> {
    type V = Map<Seq<char>, Arc<KeptScan<P>>>;

    closed spec fn view(&self) -> Map<Seq<char>, Arc<KeptScan<P>>> {
        self.kept@
    }
}

impl<P> Shelf<P> {
    /// Scans are found by their keys.
    pub closed spec fn wf(&self) -> bool {
        self.kept.wf()
    }

    /// Nothing is kept yet.
    pub fn new() -> (r: Shelf<P>)
        ensures
            r.wf(),
            r@ == Map::<Seq<char>, Arc<KeptScan<P>>>::empty(),
    {
        Shelf { kept: SortedMap::new() }
    }

    /// The scan that is kept of a repository at a head.
    pub fn find(&self, canonical: &str, head: Option<&str>) -> (r: Option<&Arc<KeptScan<P>>>)
        requires
            self.wf(),
        ensures
            ({
                let key = scan_key(canonical@, head_text(head));
                match r {
                    Some(scan) => self@.contains_key(key) && *scan == self@[key],
                    None => !self@.contains_key(key),
                }
            }),
    {
        let key = cache_key(canonical, head);
        self.kept.get(key.as_str())
    }

    /// Meet a request: how, and with which scan if one is served.
    pub fn request(
        &self,
        canonical: &str,
        head: Option<&str>,
        is_repository: bool,
        fresh: bool,
    ) -> (r: (ScanStart, Option<&Arc<KeptScan<P>>>))
        requires
            self.wf(),
        ensures
            ({
                let key = scan_key(canonical@, head_text(head));
                &&& starts(r.0, canonical@, is_repository, fresh, self@.contains_key(key))
                &&& match r.1 {
                    Some(scan) => r.0 is Serve && *scan == self@[key],
                    None => r.0 !is Serve,
                }
            }),
    {
        let found = self.find(canonical, head);
        let start = start_scan(canonical, is_repository, fresh, found.is_some());
        match start {
            ScanStart::Serve => (start, found),
            _ => (start, None),
        }
    }

    /// Keep a scan, in place of one that was kept of the repository at that
    /// head.
    pub fn keep(&mut self, canonical: &str, head: Option<&str>, scan: Arc<KeptScan<P>>)
        requires
            old(self).wf(),
        ensures
            final(self).wf(),
            final(self)@ == old(self)@.insert(scan_key(canonical@, head_text(head)), scan),
    {
        let key = cache_key(canonical, head);
        self.kept.put(key.as_str(), scan);
    }
}

/// What is kept after more was.
pub open spec fn kept_after<P>(
    m: Map<Seq<char>, Arc<KeptScan<P>>>,
    later: Seq<(Seq<char>, Arc<KeptScan<P>>)>,
) -> Map<Seq<char>, Arc<KeptScan<P>>>
    decreases later.len(),
{
    if later.len() == 0 {
        m
    } else {
        kept_after(m, later.drop_last()).insert(later.last().0, later.last().1)
    }
}

/// What is kept stays, as long as nothing else is kept under its key.
pub proof fn kept_scan_stays<P>(
    m: Map<Seq<char>, Arc<KeptScan<P>>>,
    later: Seq<(Seq<char>, Arc<KeptScan<P>>)>,
    key: Seq<char>,
)
    requires
        m.contains_key(key),
        forall|i: int| 0 <= i < later.len() ==> (#[trigger] later[i]).0 != key,
    ensures
        kept_after(m, later).contains_key(key),
        kept_after(m, later)[key] == m[key],
    decreases later.len(),
{
    if later.len() > 0 {
        let f = later.drop_last();
        assert forall|i: int| 0 <= i < f.len() implies (#[trigger] f[i]).0 != key by {
            assert(f[i] == later[i]);
        }
        kept_scan_stays(m, f, key);
        assert(later[later.len() - 1].0 != key);
    }
}

/// A request that a kept scan answers gets what the first one got. The scan
/// was run, sent and kept; the repository is asked for again at the same head,
/// and not afresh. Then the scan is served: after the messages that begin the
/// answer come those of the same dictionary, rows, events and handles, the rows
/// in the same order, and at the end the same digest. Nothing is told of phases
/// or of how far they are, and no time was taken.
pub proof fn kept_scan_is_answered_alike<P>(
    shelf: Map<Seq<char>, Arc<KeptScan<P>>>,
    canonical: Seq<char>,
    head: Option<Seq<char>>,
    scan: Arc<KeptScan<P>>,
    later: Seq<(Seq<char>, Arc<KeptScan<P>>)>,
    first: ScanStart,
    again: ScanStart,
    first_order: Seq<usize>,
    order_again: Seq<usize>,
)
    requires
        first is Run,
        forall|i: int|
            0 <= i < later.len() ==> (#[trigger] later[i]).0 != scan_key(canonical, head),
        starts(
            again,
            canonical,
            true,
            false,
            kept_after(shelf.insert(scan_key(canonical, head), scan), later).contains_key(
                scan_key(canonical, head),
            ),
        ),
        is_emission_order(scan.rows@, first_order),
        is_emission_order(
            kept_after(shelf.insert(scan_key(canonical, head), scan), later)[scan_key(
                canonical,
                head,
            )].rows@,
            order_again,
        ),
    ensures
        again is Serve,
        ({
            let key = scan_key(canonical, head);
            let served = kept_after(shelf.insert(key, scan), later)[key];
            let payload = summary_messages(scan.rows@.len(), scan.events as nat);
            let second = answer(again, served.rows@.len(), served.events as nat);
            &&& served == scan
            &&& answer(first, scan.rows@.len(), scan.events as nat) == seq![Message::Meta]
                + phase_messages() + payload + seq![Message::Done { cached: false }]
            &&& second == seq![Message::Meta, Message::Cached] + payload + seq![
                Message::Done { cached: true },
            ]
            &&& order_again == first_order
            &&& note_of(*served, true).digest == note_of(*scan, false).digest
            &&& note_of(*served, true).elapsed_ms == 0
            &&& note_of(*served, true).cached
            &&& forall|i: int|
                0 <= i < second.len() ==> (#[trigger] second[i]) !is Phase && second[i] !is Tick
        }),
{
    let key = scan_key(canonical, head);
    kept_scan_stays(shelf.insert(key, scan), later, key);
    let rows = scan.rows@.len();
    let events = scan.events as nat;
    let payload = summary_messages(rows, events);
    emission_order_is_unique(scan.rows@, first_order, order_again);
    assert(answer(first, rows, events) =~= seq![Message::Meta] + phase_messages() + payload + seq![
        Message::Done { cached: false },
    ]);
    let second = answer(again, rows, events);
    assert(second =~= seq![Message::Meta, Message::Cached] + payload + seq![
        Message::Done { cached: true },
    ]);
    let n = payload.len();
    assert forall|i: int| 0 <= i < second.len() implies (#[trigger] second[i]) !is Phase
        && second[i] !is Tick by {
        if 2 <= i < n + 2 {
            assert(second[i] == payload[i - 2]);
        }
    }
}

// ---- for how long ----------------------------------------------------

/// The line to a client. It is dead once a message could not be sent.
#[derive(Clone, Copy, Debug)]
pub struct Line {
    pub dead: bool,
}

/// The line after some attempts, each of which went through or not.
pub open spec fn line_after(l: Line, went: Seq<bool>) -> Line
    decreases went.len(),
{
    if went.len() == 0 {
        l
    } else {
        let before = line_after(l, went.drop_last());
        Line { dead: before.dead || !went.last() }
    }
}

/// A dead line stays dead.
pub proof fn dead_line_stays_dead(l: Line, went: Seq<bool>)
    requires
        l.dead,
    ensures
        line_after(l, went).dead,
    decreases went.len(),
{
    if went.len() > 0 {
        dead_line_stays_dead(l, went.drop_last());
    }
}

/// A line on which everything went through is alive.
pub proof fn live_line_stays_alive(l: Line, went: Seq<bool>)
    requires
        !l.dead,
    ensures
        line_after(l, went).dead <==> went.contains(false),
    decreases went.len(),
{
    if went.len() > 0 {
        let f = went.drop_last();
        live_line_stays_alive(l, f);
        if f.contains(false) {
            let i = choose|i: int| 0 <= i < f.len() && f[i] == false;
            assert(went[i] == false);
        }
        if went.contains(false) && went.last() {
            let i = choose|i: int| 0 <= i < went.len() && went[i] == false;
            assert(f[i] == false);
        }
        assert(went[went.len() - 1] == went.last());
    }
}

impl Line {
    /// A line to a client that listens.
    pub fn new() -> (r: Line)
        ensures
            !r.dead,
    {
        Line { dead: false }
    }

    /// Whether a message is sent at all; it is not on a dead line.
    pub fn sends(&self) -> (r: bool)
        ensures
            r == !self.dead,
    {
        !self.dead
    }

    /// Whether the scan should be given up.
    pub fn cancelled(&self) -> (r: bool)
        ensures
            r == self.dead,
    {
        self.dead
    }

    /// Note whether a message went through.
    pub fn note(&mut self, went: bool)
        ensures
            *final(self) == line_after(*old(self), seq![went]),
    {
        proof {
            reveal_with_fuel(line_after, 2);
            assert(seq![went].drop_last() =~= Seq::empty());
        }
        self.dead = self.dead || !went;
    }
}

// ---- what there is to scan ------------------------------------------

/// A repository that can be scanned.
pub struct RepoEntry {
    pub name: String,
    pub path: String,
}

impl Ranked for RepoEntry {
    open spec fn leq(self, other: RepoEntry) -> bool {
        order::text_leq(self.name@, other.name@)
    }

    proof fn leq_total_preorder() {
        assert forall|x: RepoEntry, y: RepoEntry| #[trigger] x.leq(y) || y.leq(x) by {
            order::text_less_total(x.name@, y.name@);
        }
        assert forall|x: RepoEntry, y: RepoEntry, z: RepoEntry| #[trigger]
            x.leq(y) && #[trigger] y.leq(z) implies x.leq(z) by {
            if order::text_less(x.name@, y.name@) && order::text_less(y.name@, z.name@) {
                order::text_less_transitive(x.name@, y.name@, z.name@);
            }
        }
    }

    fn at_most(&self, other: &RepoEntry) -> (r: bool) {
        same_text(self.name.as_str(), other.name.as_str()) || comes_before(
            self.name.as_str(),
            other.name.as_str(),
        )
    }
}

/// The entries without those that have the path of the one before.
pub open spec fn without_repeats(s: Seq<RepoEntry>) -> Seq<RepoEntry>
    decreases s.len(),
{
    if s.len() == 0 {
        s
    } else {
        let before = without_repeats(s.drop_last());
        if before.len() > 0 && before.last().path@ == s.last().path@ {
            before
        } else {
            before.push(s.last())
        }
    }
}

/// List repositories by name, as they were found where names are equal; one
/// that is found twice in a row is listed once.
pub fn list_repos(found: Vec<RepoEntry>) -> (r: Vec<RepoEntry>)
    ensures
        r@ == without_repeats(ranking::ranked(found@, ranking::by_rank::<RepoEntry>())),
{
    let sorted = sort_stable(found);
    let ghost all = sorted@;
    let mut rest = reversed(sorted);
    let mut r: Vec<RepoEntry> = Vec::new();
    let ghost mut i: int = 0;
    assert(all.take(0) =~= Seq::empty());
    while rest.len() > 0
        invariant
            0 <= i <= all.len(),
            rest@.len() == all.len() - i,
            forall|k: int| 0 <= k < rest@.len() ==> rest@[k] == all[all.len() - 1 - k],
            r@ == without_repeats(all.take(i)),
        decreases rest@.len(),
    {
        let e = rest.pop().unwrap();
        proof {
            assert(e == all[i]);
            assert(all.take(i + 1).drop_last() =~= all.take(i));
        }
        let repeated = r.len() > 0 && same_text(r[r.len() - 1].path.as_str(), e.path.as_str());
        if !repeated {
            r.push(e);
        }
        proof {
            i = i + 1;
        }
    }
    assert(all.take(i) =~= all);
    r
}

/// The author addresses of a log with one per line, in lower case, each once
/// and in order.
pub fn collect_authors(log: &str) -> (r: Vec<String>)
    ensures
        sorted_map::texts(r@) == sorted_map::in_key_order(
            addresses::log_addresses(log@).to_set(),
        ),
        sorted_map::ascending(sorted_map::texts(r@)),
        sorted_map::texts(r@).to_set() == addresses::log_addresses(log@).to_set(),
{
    let lines = split(&chars_of(log), '\n');
    let ghost ls = text::pieces(lines@);
    let mut seen: SortedMap<()> = SortedMap::new();
    let mut i: usize = 0;
    proof {
        assert(ls.take(0) =~= Seq::empty());
        assert(seen@.dom() =~= addresses::logged(ls.take(0)).to_set());
    }
    while i < lines.len()
        invariant
            i <= lines@.len(),
            ls == text::pieces(lines@),
            seen.wf(),
            seen@.dom() == addresses::logged(ls.take(i as int)).to_set(),
        decreases lines@.len() - i,
    {
        let t = string_of(trim_chars(&lines[i]).as_slice());
        let e = to_lower(t.as_str());
        let ghost before = addresses::logged(ls.take(i as int));
        proof {
            assert(ls[i as int] == lines@[i as int]@);
            assert(ls.take(i + 1).drop_last() =~= ls.take(i as int));
        }
        if !is_empty_text(e.as_str()) {
            seen.put(e.as_str(), ());
            proof {
                let after = before.push(e@);
                assert forall|a: Seq<char>| #[trigger] after.to_set().contains(a)
                    <==> before.to_set().contains(a) || a == e@ by {
                    assert(after[before.len() as int] == e@);
                    if before.contains(a) {
                        let j = choose|j: int| 0 <= j < before.len() && before[j] == a;
                        assert(after[j] == a);
                    }
                    if after.contains(a) && a != e@ {
                        let j = choose|j: int| 0 <= j < after.len() && after[j] == a;
                        assert(before[j] == a);
                    }
                }
                assert(seen@.dom() =~= after.to_set());
            }
        }
        i = i + 1;
    }
    proof {
        assert(ls.take(i as int) =~= ls);
        seen.wf_keys();
        seen.wf_key_order();
    }
    seen.key_list()
}

/// The key moves when the head does.
pub proof fn key_moves_with_head(canonical: Seq<char>, a: Seq<char>, b: Seq<char>)
    requires
        scan_key(canonical, Some(a)) == scan_key(canonical, Some(b)),
    ensures
        a == b,
{
    let n = (canonical + "@"@).len() as int;
    assert(scan_key(canonical, Some(a)).skip(n) =~= a);
    assert(scan_key(canonical, Some(b)).skip(n) =~= b);
}

/// Scans of different repositories have different keys, as long as a head has
/// no `@` in it.
pub proof fn keys_tell_repositories_apart(
    canonical: Seq<char>,
    head: Seq<char>,
    other: Seq<char>,
    other_head: Seq<char>,
)
    requires
        !head.contains('@'),
        !other_head.contains('@'),
        scan_key(canonical, Some(head)) == scan_key(other, Some(other_head)),
    ensures
        canonical == other,
        head == other_head,
{
    reveal_strlit("@");
    let s = scan_key(canonical, Some(head));
    assert forall|i: int| canonical.len() < i < s.len() implies #[trigger] s[i] != '@' by {
        assert(s[i] == head[i - canonical.len() - 1]);
    }
    assert(s[canonical.len() as int] == '@');
    text::last_place_unique(s, '@', canonical.len() as int);
    assert forall|i: int| other.len() < i < s.len() implies #[trigger] s[i] != '@' by {
        assert(s[i] == other_head[i - other.len() - 1]);
    }
    assert(s[other.len() as int] == '@');
    text::last_place_unique(s, '@', other.len() as int);
    assert(canonical =~= s.take(canonical.len() as int));
    assert(other =~= s.take(canonical.len() as int));
    key_moves_with_head(canonical, head, other_head);
}

/// The order in which rows go out is settled by their scores: there is one
/// only.
pub proof fn emission_order_is_unique(rows: Seq<FileRow>, a: Seq<usize>, b: Seq<usize>)
    requires
        is_emission_order(rows, a),
        is_emission_order(rows, b),
    ensures
        a == b,
{
    let less = |x: usize, y: usize| goes_before(rows, x, y);
    assert(ranking::strict_order(less));
    assert(ranking::strictly_ordered(a, less));
    assert(ranking::strictly_ordered(b, less));
    assert forall|x: usize| #[trigger] a.contains(x) <==> b.contains(x) by {
        every_row_goes_out(rows, a, x);
        every_row_goes_out(rows, b, x);
    }
    ranking::strict_listing_unique(a, b, less);
}

/// Every row goes out, once.
pub proof fn every_row_goes_out(rows: Seq<FileRow>, r: Seq<usize>, x: usize)
    requires
        is_emission_order(rows, r),
    ensures
        r.contains(x) <==> x < rows.len(),
        r.no_duplicates(),
{
    let s = r.map_values(|y: usize| y as int);
    assert forall|i: int, j: int| 0 <= i < r.len() && 0 <= j < r.len() && i != j implies r[i]
        != r[j] by {
        if i < j {
            assert(goes_before(rows, r[i], r[j]));
        } else {
            assert(goes_before(rows, r[j], r[i]));
        }
    }
    assert(s.no_duplicates());
    ranking::distinct_numbers_are_all(s, rows.len());
    if x < rows.len() {
        assert(s.contains(x as int));
        let i = choose|i: int| 0 <= i < s.len() && s[i] == x as int;
        assert(r[i] == x);
    }
}

// ---- what is sent, piece by piece ------------------------------------

/// A scan is kept under the repository, an at sign and the head; a head that is
/// not known is called unknown.
pub proof fn keys_are_repository_and_head(canonical: Seq<char>, head: Seq<char>)
    ensures
        scan_key(canonical, Some(head)) == canonical + "@"@ + head,
        scan_key(canonical, None) == canonical + "@"@ + "unknown"@,
{
}

/// A request for what is no repository is refused by name; one for a repository
/// is served from what is kept, unless nothing is or a fresh scan is asked for.
pub proof fn requests_are_met(
    r: ScanStart,
    canonical: Seq<char>,
    is_repository: bool,
    fresh: bool,
    kept: bool,
)
    requires
        starts(r, canonical, is_repository, fresh, kept),
    ensures
        r is Refuse <==> !is_repository,
        r is Serve <==> is_repository && kept && !fresh,
        r is Run <==> is_repository && (!kept || fresh),
        r matches ScanStart::Refuse { message } ==> message@ == "not a git repository: "@
            + canonical,
{
}

/// A score that is a finite number is shown as it is; an infinite one and one
/// that is no number are shown as zero.
pub proof fn finite_scores_are_shown(bits: u64)
    ensures
        shown_score(bits) == if ieee::is_nan(bits) || bits == 0x7ff0_0000_0000_0000 || bits
            == 0xfff0_0000_0000_0000 {
            0
        } else {
            bits
        },
        !ieee::is_nan(shown_score(bits)),
{
}

/// No row goes out behind one that is shown with a lesser score, and rows with
/// equal scores go out in the order in which they stand.
pub proof fn highest_scores_go_first(rows: Seq<FileRow>, r: Seq<usize>, i: int, j: int)
    requires
        is_emission_order(rows, r),
        0 <= i < j < r.len(),
    ensures
        !ieee::greater(
            shown_score(rows[r[j] as int].composite),
            shown_score(rows[r[i] as int].composite),
        ),
        ieee::at_least(
            shown_score(rows[r[j] as int].composite),
            shown_score(rows[r[i] as int].composite),
        ) ==> r[i] < r[j],
{
    assert(goes_before(rows, r[i], r[j]));
    finite_scores_are_shown(rows[r[i] as int].composite);
    finite_scores_are_shown(rows[r[j] as int].composite);
}

/// Rows and events go out a hundred and fifty at a time, from the first to the
/// last, and only the last message of either may hold fewer.
pub proof fn items_go_out_in_chunks(total: usize, i: int)
    requires
        0 <= i < row_messages(total as nat).len(),
    ensures
        row_messages(total as nat)[i] matches Message::Rows { offset, end, total: n } && offset == i
            * 150 && n == total && end == (if (i + 1) * 150 <= total {
            (i + 1) * 150
        } else {
            total as int
        }) && offset < end,
        event_messages(total as nat)[i] matches Message::Events { offset, end, total: n } && offset
            == i * 150 && n == total && end == (if (i + 1) * 150 <= total {
            (i + 1) * 150
        } else {
            total as int
        }) && offset < end,
        event_messages(total as nat).len() == row_messages(total as nat).len(),
        (row_messages(total as nat).len() - 1) * 150 < total <= row_messages(total as nat).len()
            * 150,
{
    chunks_tile(total as nat, i);
    vstd::arithmetic::div_mod::lemma_fundamental_div_mod(total - 1, 150);
}

/// Nothing to send takes no message.
pub proof fn nothing_takes_no_message()
    ensures
        row_messages(0).len() == 0,
        event_messages(0).len() == 0,
{
}

/// A summary is sent as its dictionary, then its rows, then its events, then
/// its handles.
pub proof fn summaries_go_out_in_order(rows: nat, events: nat, i: int)
    requires
        0 <= i < summary_messages(rows, events).len(),
    ensures
        ({
            let all = summary_messages(rows, events);
            let a = row_messages(rows).len() as int;
            let b = event_messages(events).len() as int;
            &&& all.len() == a + b + 2
            &&& i == 0 <==> all[i] is Dict
            &&& 1 <= i <= a ==> all[i] == row_messages(rows)[i - 1]
            &&& a < i <= a + b ==> all[i] == event_messages(events)[i - a - 1]
            &&& i == a + b + 1 <==> all[i] is Handles
        }),
{
    let all = summary_messages(rows, events);
    let a = row_messages(rows).len() as int;
    let b = event_messages(events).len() as int;
    if 1 <= i <= a {
        assert(all[i] == row_messages(rows)[i - 1]);
    } else if a < i <= a + b {
        assert(all[i] == event_messages(events)[i - a - 1]);
    }
}

/// A refused request gets its refusal and nothing else. Any other is told of
/// the repository first and of the end last, and of a kept scan that it was
/// kept.
pub proof fn answers_begin_and_end(start: ScanStart, rows: nat, events: nat)
    ensures
        start is Refuse ==> answer(start, rows, events) == seq![Message::Refusal],
        start is Serve ==> answer(start, rows, events) == seq![Message::Meta, Message::Cached]
            + summary_messages(rows, events) + seq![Message::Done { cached: true }],
        start is Run ==> answer(start, rows, events) == seq![Message::Meta] + phase_messages()
            + summary_messages(rows, events) + seq![Message::Done { cached: false }],
        phase_messages().len() == 22,
{
    let all = answer(start, rows, events);
    if start is Refuse {
        assert(all =~= seq![Message::Refusal]);
    } else if start is Serve {
        assert(all =~= seq![Message::Meta, Message::Cached] + summary_messages(rows, events) + seq![
            Message::Done { cached: true },
        ]);
    } else {
        assert(all =~= seq![Message::Meta] + phase_messages() + summary_messages(rows, events)
            + seq![Message::Done { cached: false }]);
    }
}

/// What is told of a phase is sent as it is told.
pub proof fn tellings_are_sent(phase: Phase, done: bool, so_far: usize, total: usize, i: int)
    requires
        0 <= i < 11,
    ensures
        message_of(Told::Phase { phase, done }) == (Message::Phase { phase, done }),
        message_of(Told::Tick { phase, done: so_far, total }) == (Message::Tick {
            phase,
            done: so_far,
            total,
        }),
        phase_messages()[2 * i] == (Message::Phase { phase: phases::phase_at(i), done: false }),
        phase_messages()[2 * i + 1] == (Message::Phase { phase: phases::phase_at(i), done: true }),
{
    phases::phases_are_listed(i);
}

/// At the end of a scan that ran its own time is told; at the end of a kept one
/// no time, and what it took when it ran. The digest is the scan's own.
pub proof fn ends_tell_the_time<P>(scan: KeptScan<P>)
    ensures
        note_of(scan, false).elapsed_ms == scan.elapsed_ms,
        note_of(scan, false).original_elapsed_ms is None,
        !note_of(scan, false).cached,
        note_of(scan, true).elapsed_ms == 0,
        note_of(scan, true).original_elapsed_ms == Some(scan.elapsed_ms),
        note_of(scan, true).cached,
        note_of(scan, false).digest == scan.digest@,
        note_of(scan, true).digest == scan.digest@,
{
}

/// A line is dead exactly where it was, or where some message did not go
/// through.
pub proof fn lines_die_of_one_failure(l: Line, went: Seq<bool>)
    ensures
        line_after(l, went).dead <==> l.dead || went.contains(false),
    decreases went.len(),
{
    if went.len() > 0 {
        let front = went.drop_last();
        lines_die_of_one_failure(l, front);
        assert(went[went.len() - 1] == went.last());
        if front.contains(false) {
            assert(went[front.index_of(false)] == false);
        }
        if went.contains(false) {
            let i = went.index_of(false);
            if i < front.len() {
                assert(front[i] == false);
            }
        }
    }
}

/// Every repository that was found is listed.
pub proof fn repositories_are_listed(s: Seq<RepoEntry>, i: int) -> (j: int)
    requires
        0 <= i < s.len(),
    ensures
        0 <= j < without_repeats(s).len(),
        without_repeats(s)[j].path@ == s[i].path@,
        i == s.len() - 1 ==> j == without_repeats(s).len() - 1,
    decreases s.len(),
{
    let front = s.drop_last();
    if i < front.len() {
        assert(front[i] == s[i]);
        repositories_are_listed(front, i)
    } else {
        without_repeats(s).len() - 1
    }
}

/// Nothing is listed that was not found, and no two repositories in a row are
/// the same.
pub proof fn repeats_are_left_out(s: Seq<RepoEntry>, j: int)
    requires
        0 <= j < without_repeats(s).len(),
    ensures
        s.contains(without_repeats(s)[j]),
        j > 0 ==> without_repeats(s)[j - 1].path@ != without_repeats(s)[j].path@,
    decreases s.len(),
{
    let front = s.drop_last();
    let before = without_repeats(front);
    if j < before.len() {
        repeats_are_left_out(front, j);
        let i = front.index_of(before[j]);
        assert(s[i] == before[j]);
    } else {
        assert(s[s.len() - 1] == without_repeats(s)[j]);
    }
}

/// Repositories are listed by name.
pub proof fn repositories_stand_by_name(found: Seq<RepoEntry>, i: int, j: int)
    requires
        0 <= i < j < found.len(),
    ensures
        ({
            let all = ranking::ranked(found, ranking::by_rank::<RepoEntry>());
            !order::text_less(all[j].name@, all[i].name@)
        }),
{
    let leq = ranking::by_rank::<RepoEntry>();
    ranking::by_rank_is_total_preorder::<RepoEntry>();
    ranking::ranked_is_ordered(found, leq);
    ranking::ranked_keeps_items(found, leq);
    let all = ranking::ranked(found, leq);
    assert(leq(all[i], all[j]));
    assert(all[i].leq(all[j]));
    let x = all[i].name@;
    let y = all[j].name@;
    order::text_less_irreflexive(x);
    if order::text_less(x, y) && order::text_less(y, x) {
        order::text_less_transitive(x, y, x);
    }
}

/// As a value, the end of an answer is its own fields.
pub proof fn ends_are_own_fields(d: DoneNote)
    ensures
        d@.elapsed_ms == d.elapsed_ms,
        d@.original_elapsed_ms == d.original_elapsed_ms,
        d@.cached == d.cached,
        d@.digest == d.digest@,
{
}

} // verus!
