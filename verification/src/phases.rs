//! The phases of a scan, and how its work is divided.

use vstd::prelude::*;
use vstd::string::*;

use crate::blobs::PreparedCommit;
use crate::ranking::reversed;
use crate::replay::Commit;

verus! {

/// The phases of a scan, in the order in which they run.
#[derive(Clone, Copy, PartialEq, Eq, Structural, Debug)]
pub enum Phase {
    Open,
    Walk,
    CommitLoop,
    Normalize,
    GraphBuild,
    Betweenness,
    HeadTree,
    Blame,
    Rows,
    Events,
    Handles,
}

/// The place of a phase in the order.
pub open spec fn phase_place(p: Phase) -> int {
    match p {
        Phase::Open => 0,
        Phase::Walk => 1,
        Phase::CommitLoop => 2,
        Phase::Normalize => 3,
        Phase::GraphBuild => 4,
        Phase::Betweenness => 5,
        Phase::HeadTree => 6,
        Phase::Blame => 7,
        Phase::Rows => 8,
        Phase::Events => 9,
        Phase::Handles => 10,
    }
}

/// The name of a phase in messages.
pub open spec fn phase_id(p: Phase) -> Seq<char> {
    match p {
        Phase::Open => "open"@,
        Phase::Walk => "walk"@,
        Phase::CommitLoop => "commit_loop"@,
        Phase::Normalize => "normalize"@,
        Phase::GraphBuild => "graph_build"@,
        Phase::Betweenness => "betweenness"@,
        Phase::HeadTree => "head_tree"@,
        Phase::Blame => "blame"@,
        Phase::Rows => "rows"@,
        Phase::Events => "events"@,
        Phase::Handles => "handles"@,
    }
}

/// What a phase does, in words.
pub open spec fn phase_label(p: Phase) -> Seq<char> {
    match p {
        Phase::Open => "Opening repository"@,
        Phase::Walk => "Walking commit history"@,
        Phase::CommitLoop => "Diffing commits and parsing public API"@,
        Phase::Normalize => "Normalizing change density"@,
        Phase::GraphBuild => "Building co-change graph"@,
        Phase::Betweenness => "Computing betweenness centrality"@,
        Phase::HeadTree => "Reading HEAD tree"@,
        Phase::Blame => "Blaming files at HEAD"@,
        Phase::Rows => "Scoring files"@,
        Phase::Events => "Detecting events"@,
        Phase::Handles => "Minting evidence handles"@,
    }
}

/// The prior share of the running time, as bits of 0.40, 0.30, 0.15, 0.10 and
/// 0.005.
pub open spec fn phase_weight(p: Phase) -> u64 {
    match p {
        Phase::Betweenness => 0x3fd9_9999_9999_999a,
        Phase::Blame => 0x3fd3_3333_3333_3333,
        Phase::CommitLoop => 0x3fc3_3333_3333_3333,
        Phase::GraphBuild => 0x3fb9_9999_9999_999a,
        _ => 0x3f74_7ae1_47ae_147b,
    }
}

/// A scan can be given up here: at every boundary between two phases, and while
/// commits are read or files are blamed.
pub open spec fn stops_at(p: Phase, done: bool) -> bool {
    if done {
        p !is Handles
    } else {
        p is CommitLoop || p is Blame
    }
}

/// Phases are told apart by their names.
pub proof fn phase_ids_distinct(a: Phase, b: Phase)
    requires
        phase_id(a) == phase_id(b),
    ensures
        a == b,
{
    reveal_strlit("open");
    reveal_strlit("walk");
    reveal_strlit("commit_loop");
    reveal_strlit("normalize");
    reveal_strlit("graph_build");
    reveal_strlit("betweenness");
    reveal_strlit("head_tree");
    reveal_strlit("blame");
    reveal_strlit("rows");
    reveal_strlit("events");
    reveal_strlit("handles");
    let x = phase_id(a);
    let y = phase_id(b);
    assert(x.len() == y.len() && x[0] == y[0] && x[1] == y[1]);
}

impl Phase {
    /// The name of the phase in messages.
    pub fn id(self) -> (r: &'static str)
        ensures
            r@ == phase_id(self),
    {
        match self {
            Phase::Open => "open",
            Phase::Walk => "walk",
            Phase::CommitLoop => "commit_loop",
            Phase::Normalize => "normalize",
            Phase::GraphBuild => "graph_build",
            Phase::Betweenness => "betweenness",
            Phase::HeadTree => "head_tree",
            Phase::Blame => "blame",
            Phase::Rows => "rows",
            Phase::Events => "events",
            Phase::Handles => "handles",
        }
    }

    /// What the phase does, in words.
    pub fn label(self) -> (r: &'static str)
        ensures
            r@ == phase_label(self),
    {
        match self {
            Phase::Open => "Opening repository",
            Phase::Walk => "Walking commit history",
            Phase::CommitLoop => "Diffing commits and parsing public API",
            Phase::Normalize => "Normalizing change density",
            Phase::GraphBuild => "Building co-change graph",
            Phase::Betweenness => "Computing betweenness centrality",
            Phase::HeadTree => "Reading HEAD tree",
            Phase::Blame => "Blaming files at HEAD",
            Phase::Rows => "Scoring files",
            Phase::Events => "Detecting events",
            Phase::Handles => "Minting evidence handles",
        }
    }

    /// The prior share of the running time, as bits.
    pub fn weight(self) -> (r: u64)
        ensures
            r == phase_weight(self),
    {
        match self {
            Phase::Betweenness => 0x3fd9_9999_9999_999a,
            Phase::Blame => 0x3fd3_3333_3333_3333,
            Phase::CommitLoop => 0x3fc3_3333_3333_3333,
            Phase::GraphBuild => 0x3fb9_9999_9999_999a,
            _ => 0x3f74_7ae1_47ae_147b,
        }
    }

    /// Whether a scan can be given up in the phase, or when it is done.
    pub fn checkpoint(self, done: bool) -> (r: bool)
        ensures
            r == stops_at(self, done),
    {
        match self {
            Phase::CommitLoop => true,
            Phase::Blame => true,
            Phase::Handles => false,
            _ => done,
        }
    }

    /// All phases in order.
    pub fn all() -> (r: Vec<Phase>)
        ensures
            r@.len() == 11,
            forall|i: int| 0 <= i < r@.len() ==> phase_place(#[trigger] r@[i]) == i,
    {
        let mut r: Vec<Phase> = Vec::new();
        r.push(Phase::Open);
        r.push(Phase::Walk);
        r.push(Phase::CommitLoop);
        r.push(Phase::Normalize);
        r.push(Phase::GraphBuild);
        r.push(Phase::Betweenness);
        r.push(Phase::HeadTree);
        r.push(Phase::Blame);
        r.push(Phase::Rows);
        r.push(Phase::Events);
        r.push(Phase::Handles);
        r
    }
}

/// Why a scan did not come to its end.
#[derive(Debug)]
pub enum ScanError {
    Open(String),
    Walk(String),
    Diff(String),
    HeadTree(String),
    Cancelled,
}

/// What is said of it.
pub open spec fn error_message(e: ScanError) -> Seq<char> {
    match e {
        ScanError::Open(m) => "open failed: "@ + m@,
        ScanError::Walk(m) => "walk failed: "@ + m@,
        ScanError::Diff(m) => "diff failed: "@ + m@,
        ScanError::HeadTree(m) => "head tree walk failed: "@ + m@,
        ScanError::Cancelled => "cancelled by client"@,
    }
}

impl ScanError {
    /// What is said of the error.
    pub fn message(&self) -> (r: String)
        ensures
            r@ == error_message(*self),
    {
        match self {
            ScanError::Open(m) => {
                let mut t = "open failed: ".to_owned();
                t.append(m.as_str());
                t
            },
            ScanError::Walk(m) => {
                let mut t = "walk failed: ".to_owned();
                t.append(m.as_str());
                t
            },
            ScanError::Diff(m) => {
                let mut t = "diff failed: ".to_owned();
                t.append(m.as_str());
                t
            },
            ScanError::HeadTree(m) => {
                let mut t = "head tree walk failed: ".to_owned();
                t.append(m.as_str());
                t
            },
            ScanError::Cancelled => "cancelled by client".to_owned(),
        }
    }

    /// A scan that its client gave up is not answered; any other failure is.
    pub fn answer(&self) -> (r: Option<String>)
        ensures
            match r {
                Some(m) => *self !is Cancelled && m@ == error_message(*self),
                None => *self is Cancelled,
            },
    {
        match self {
            ScanError::Cancelled => None,
            _ => Some(self.message()),
        }
    }
}

/// Go on, unless the client is gone and the scan can be given up here.
pub fn proceed(p: Phase, done: bool, cancelled: bool) -> (r: Result<(), ScanError>)
    ensures
        match r {
            Ok(()) => !(cancelled && stops_at(p, done)),
            Err(e) => e is Cancelled && cancelled && stops_at(p, done),
        },
{
    if cancelled && p.checkpoint(done) {
        Err(ScanError::Cancelled)
    } else {
        Ok(())
    }
}

// ---- the course of a scan -------------------------------------------

/// What is told of a phase.
#[derive(Clone, Copy, PartialEq, Eq, Structural, Debug)]
pub enum Told {
    /// It starts, or it is done.
    Phase { phase: Phase, done: bool },
    /// So many of so many items are done.
    Tick { phase: Phase, done: usize, total: usize },
}

/// The phase at a place of the order.
pub open spec fn phase_at(i: int) -> Phase {
    if i <= 0 {
        Phase::Open
    } else if i == 1 {
        Phase::Walk
    } else if i == 2 {
        Phase::CommitLoop
    } else if i == 3 {
        Phase::Normalize
    } else if i == 4 {
        Phase::GraphBuild
    } else if i == 5 {
        Phase::Betweenness
    } else if i == 6 {
        Phase::HeadTree
    } else if i == 7 {
        Phase::Blame
    } else if i == 8 {
        Phase::Rows
    } else if i == 9 {
        Phase::Events
    } else {
        Phase::Handles
    }
}

/// What a finished scan has told: of each phase in order that it starts, and
/// next that it is done.
pub open spec fn phase_tellings() -> Seq<Told> {
    Seq::new(22, |i: int| Told::Phase { phase: phase_at(i / 2), done: i % 2 == 1 })
}

/// The phase is long, and how far it is may be told.
pub open spec fn is_long(p: Phase) -> bool {
    p is CommitLoop || p is Blame
}

/// Where a scan stands.
#[derive(Clone, Copy, PartialEq, Eq, Structural, Debug)]
pub enum Course {
    /// The phase is next.
    Before { phase: Phase },
    /// The phase runs.
    Within { phase: Phase },
    /// The phase is done, and whether the client is still there is not known.
    Behind { phase: Phase },
    /// All phases are done.
    Finished,
    /// The scan failed, or its client is gone.
    GivenUp,
}

/// What happens to a scan.
#[derive(Clone, Copy, PartialEq, Eq, Structural, Debug)]
pub enum Turn {
    /// The work of the next phase begins.
    Begun,
    /// So many of so many items of the phase are done.
    Advanced { done: usize, total: usize },
    /// The work of the phase is done.
    Completed,
    /// The work of the phase failed or was given up.
    Failed,
    /// The client was looked for.
    Looked { cancelled: bool },
}

/// The course behind a phase: the next phase, or the end.
pub open spec fn course_behind(p: Phase) -> Course {
    if p is Handles {
        Course::Finished
    } else {
        Course::Before { phase: phase_at(phase_place(p) + 1) }
    }
}

/// The course after a turn, and what is told of it. What cannot happen where
/// the scan stands changes and tells nothing.
pub open spec fn turned(c: Course, t: Turn) -> (Course, Option<Told>) {
    match (c, t) {
        (Course::Before { phase }, Turn::Begun) => (
            Course::Within { phase },
            Some(Told::Phase { phase, done: false }),
        ),
        (Course::Within { phase }, Turn::Advanced { done, total }) => (
            c,
            if is_long(phase) && done <= total {
                Some(Told::Tick { phase, done, total })
            } else {
                None
            },
        ),
        (Course::Within { phase }, Turn::Completed) => (
            Course::Behind { phase },
            Some(Told::Phase { phase, done: true }),
        ),
        (Course::Within { .. }, Turn::Failed) => (Course::GivenUp, None),
        (Course::Behind { phase }, Turn::Looked { cancelled }) => if cancelled && stops_at(
            phase,
            true,
        ) {
            (Course::GivenUp, None)
        } else {
            (course_behind(phase), None)
        },
        _ => (c, None),
    }
}

/// The course of a scan after some turns.
pub open spec fn course_after(turns: Seq<Turn>) -> Course
    decreases turns.len(),
{
    if turns.len() == 0 {
        Course::Before { phase: Phase::Open }
    } else {
        turned(course_after(turns.drop_last()), turns.last()).0
    }
}

/// What was told in these turns.
pub open spec fn told_after(turns: Seq<Turn>) -> Seq<Told>
    decreases turns.len(),
{
    if turns.len() == 0 {
        Seq::empty()
    } else {
        let before = told_after(turns.drop_last());
        match turned(course_after(turns.drop_last()), turns.last()).1 {
            Some(t) => before.push(t),
            None => before,
        }
    }
}

/// What was told of phases, without how far they were.
pub open spec fn phases_of(told: Seq<Told>) -> Seq<Told> {
    told.filter(|t: Told| t is Phase)
}

/// How often a phase was told to start or to be done, where a scan stands.
pub open spec fn told_so_far(c: Course) -> int {
    match c {
        Course::Before { phase } => 2 * phase_place(phase),
        Course::Within { phase } => 2 * phase_place(phase) + 1,
        Course::Behind { phase } => 2 * phase_place(phase) + 2,
        _ => 22,
    }
}

impl Course {
    /// The course of a scan that has not begun.
    pub fn new() -> (r: Course)
        ensures
            r == course_after(Seq::empty()),
    {
        Course::Before { phase: Phase::Open }
    }

    /// What is told of how far the scan is; that it is so far changes nothing
    /// of its course. Only a long phase tells it, while it runs.
    pub fn tick(&self, done: usize, total: usize) -> (r: Option<Told>)
        ensures
            r == turned(*self, Turn::Advanced { done, total }).1,
            turned(*self, Turn::Advanced { done, total }).0 == *self,
    {
        match self {
            Course::Within { phase } => {
                let long = match phase {
                    Phase::CommitLoop => true,
                    Phase::Blame => true,
                    _ => false,
                };
                if long && done <= total {
                    Some(Told::Tick { phase: *phase, done, total })
                } else {
                    None
                }
            },
            _ => None,
        }
    }

    /// Take a turn, and give what is told of it.
    pub fn turn(&mut self, t: Turn) -> (r: Option<Told>)
        ensures
            *final(self) == turned(*old(self), t).0,
            r == turned(*old(self), t).1,
    {
        match (*self, t) {
            (Course::Before { phase }, Turn::Begun) => {
                *self = Course::Within { phase };
                Some(Told::Phase { phase, done: false })
            },
            (Course::Within { .. }, Turn::Advanced { done, total }) => self.tick(done, total),
            (Course::Within { phase }, Turn::Completed) => {
                *self = Course::Behind { phase };
                Some(Told::Phase { phase, done: true })
            },
            (Course::Within { .. }, Turn::Failed) => {
                *self = Course::GivenUp;
                None
            },
            (Course::Behind { phase }, Turn::Looked { cancelled }) => {
                if cancelled && phase.checkpoint(true) {
                    *self = Course::GivenUp;
                } else {
                    *self = behind(phase);
                }
                None
            },
            _ => None,
        }
    }
}

fn behind(p: Phase) -> (r: Course)
    ensures
        r == course_behind(p),
{
    match p {
        Phase::Open => Course::Before { phase: Phase::Walk },
        Phase::Walk => Course::Before { phase: Phase::CommitLoop },
        Phase::CommitLoop => Course::Before { phase: Phase::Normalize },
        Phase::Normalize => Course::Before { phase: Phase::GraphBuild },
        Phase::GraphBuild => Course::Before { phase: Phase::Betweenness },
        Phase::Betweenness => Course::Before { phase: Phase::HeadTree },
        Phase::HeadTree => Course::Before { phase: Phase::Blame },
        Phase::Blame => Course::Before { phase: Phase::Rows },
        Phase::Rows => Course::Before { phase: Phase::Events },
        Phase::Events => Course::Before { phase: Phase::Handles },
        Phase::Handles => Course::Finished,
    }
}

proof fn lemma_filter_push<T>(s: Seq<T>, x: T, p: spec_fn(T) -> bool)
    ensures
        s.push(x).filter(p) == if p(x) {
            s.filter(p).push(x)
        } else {
            s.filter(p)
        },
{
    reveal(Seq::filter);
    assert(s.push(x).drop_last() =~= s);
}

/// Whatever happens to a scan, its phases are told in their order, and none is
/// left out or told twice on the way.
pub proof fn phases_are_told_in_order(turns: Seq<Turn>)
    ensures
        phases_of(told_after(turns)).len() <= 22,
        phases_of(told_after(turns)) == phase_tellings().take(
            phases_of(told_after(turns)).len() as int,
        ),
        course_after(turns) !is GivenUp ==> phases_of(told_after(turns)).len() == told_so_far(
            course_after(turns),
        ),
    decreases turns.len(),
{
    let all = phase_tellings();
    let is_phase = |t: Told| t is Phase;
    if turns.len() == 0 {
        reveal(Seq::filter);
        assert(all.take(0) =~= Seq::empty());
    } else {
        phases_are_told_in_order(turns.drop_last());
        let before = told_after(turns.drop_last());
        let c = course_after(turns.drop_last());
        match turned(c, turns.last()).1 {
            Some(t) => {
                lemma_filter_push(before, t, is_phase);
                if t is Phase {
                    let n = phases_of(before).len() as int;
                    assert(n == told_so_far(c));
                    assert(all[n] == t);
                    assert(all.take(n + 1) =~= all.take(n).push(t));
                }
            },
            None => {},
        }
    }
}

/// A scan that finished has told of every phase, in order, that it starts and
/// that it is done.
pub proof fn finished_scan_told_every_phase(turns: Seq<Turn>)
    requires
        course_after(turns) is Finished,
    ensures
        phases_of(told_after(turns)) == phase_tellings(),
{
    phases_are_told_in_order(turns);
    assert(phase_tellings().take(22) =~= phase_tellings());
}

proof fn lemma_phase_was_told(told: Seq<Told>, t: Told)
    requires
        t is Phase,
    ensures
        phases_of(told).contains(t) <==> told.contains(t),
{
    let is_phase = |x: Told| x is Phase;
    broadcast use vstd::seq_lib::group_filter_ensures;

    if told.contains(t) {
        let i = choose|i: int| 0 <= i < told.len() && told[i] == t;
        assert(is_phase(told[i]));
        assert(told.filter(is_phase).contains(told[i]));
    }
    if phases_of(told).contains(t) {
        told.lemma_filter_contains_rev(is_phase, t);
    }
}

/// What was told of a phase up to a tick of it: that it starts, and not that
/// it is done.
proof fn lemma_before_tick(turns: Seq<Turn>, i: int)
    requires
        0 <= i < told_after(turns).len(),
        told_after(turns)[i] is Tick,
    ensures
        is_long(told_after(turns)[i]->Tick_phase),
        told_after(turns)[i]->Tick_done <= told_after(turns)[i]->Tick_total,
        told_after(turns).take(i).contains(
            Told::Phase { phase: told_after(turns)[i]->Tick_phase, done: false },
        ),
        !told_after(turns).take(i).contains(
            Told::Phase { phase: told_after(turns)[i]->Tick_phase, done: true },
        ),
    decreases turns.len(),
{
    let told = told_after(turns);
    let before = told_after(turns.drop_last());
    let c = course_after(turns.drop_last());
    if i < before.len() {
        assert(before[i] == told[i]);
        lemma_before_tick(turns.drop_last(), i);
        assert(told.take(i) =~= before.take(i));
    } else {
        let p = told[i]->Tick_phase;
        let n = 2 * phase_place(p) + 1;
        assert(c == (Course::Within { phase: p }));
        assert(told.take(i) =~= before);
        phases_are_told_in_order(turns.drop_last());
        let start = Told::Phase { phase: p, done: false };
        let end = Told::Phase { phase: p, done: true };
        let f = phases_of(before);
        assert(f == phase_tellings().take(n));
        each_phase_is_told_once(p, n - 1);
        assert(f[n - 1] == start);
        lemma_phase_was_told(before, start);
        if f.contains(end) {
            let k = choose|k: int| 0 <= k < f.len() && f[k] == end;
            each_phase_is_told_once(p, k);
            assert(phase_tellings()[k] == end);
        }
        lemma_phase_was_told(before, end);
    }
}

/// A tick is told of a long phase only, after the phase was told to start and
/// before it is told to be done, and no more is done than there is.
pub proof fn ticks_fall_within_their_phase(turns: Seq<Turn>, i: int)
    requires
        0 <= i < told_after(turns).len(),
        told_after(turns)[i] is Tick,
    ensures
        ({
            let told = told_after(turns);
            let p = told[i]->Tick_phase;
            &&& is_long(p)
            &&& told[i]->Tick_done <= told[i]->Tick_total
            &&& exists|j: int|
                0 <= j < i && #[trigger] told[j] == (Told::Phase { phase: p, done: false })
            &&& forall|j: int|
                0 <= j < i ==> #[trigger] told[j] != (Told::Phase { phase: p, done: true })
            &&& course_after(turns) is Finished ==> exists|k: int|
                i < k < told.len() && #[trigger] told[k] == (Told::Phase { phase: p, done: true })
        }),
{
    let told = told_after(turns);
    let p = told[i]->Tick_phase;
    let start = Told::Phase { phase: p, done: false };
    let end = Told::Phase { phase: p, done: true };
    let f = told.take(i);
    lemma_before_tick(turns, i);
    let j = choose|j: int| 0 <= j < f.len() && f[j] == start;
    assert(told[j] == start);
    assert forall|j: int| 0 <= j < i implies #[trigger] told[j] != end by {
        assert(f[j] == told[j]);
    }
    if course_after(turns) is Finished {
        finished_scan_told_every_phase(turns);
        let n = 2 * phase_place(p) + 1;
        each_phase_is_told_once(p, n);
        assert(phases_of(told)[n] == end);
        lemma_phase_was_told(told, end);
        let k = choose|k: int| 0 <= k < told.len() && told[k] == end;
        assert(told[k] == end);
    }
}

/// A phase is started once and done once, and between the two nothing is told
/// of another one.
pub proof fn each_phase_is_told_once(p: Phase, i: int)
    requires
        0 <= i < 22,
    ensures
        phase_tellings()[i] == (Told::Phase { phase: p, done: false }) <==> i == 2 * phase_place(
            p,
        ),
        phase_tellings()[i] == (Told::Phase { phase: p, done: true }) <==> i == 2 * phase_place(p)
            + 1,
{
    assert(phase_place(phase_at(i / 2)) == i / 2);
}

// ---- dividing work ---------------------------------------------------

/// The workers among which work is divided: at least one.
pub open spec fn workers(threads: usize) -> nat {
    if threads == 0 {
        1
    } else {
        threads as nat
    }
}

/// How many items a worker gets: the total by the workers, rounded up, and at
/// least one.
pub fn chunk_len(total: usize, threads: usize) -> (r: usize)
    ensures
        r >= 1,
        total == 0 ==> r == 1,
        total > 0 ==> (r - 1) * workers(threads) < total <= r * workers(threads),
{
    let n: usize = if threads == 0 {
        1
    } else {
        threads
    };
    if total == 0 {
        return 1;
    }
    let q: usize = (total - 1) / n;
    proof {
        let t = (total - 1) as int;
        vstd::arithmetic::div_mod::lemma_fundamental_div_mod(t, n as int);
        vstd::arithmetic::mul::lemma_mul_is_commutative(q as int, n as int);
        assert(q <= t) by (nonlinear_arith)
            requires
                t == n * q + t % (n as int),
                0 <= t % (n as int),
                n >= 1,
                q >= 0,
        ;
        assert((q + 1) * n == q * n + n) by (nonlinear_arith);
    }
    q + 1
}

/// Workers never outnumber the chunks that they are given: cut into pieces of
/// the chunk length, the items make at most one piece per worker.
pub proof fn chunks_at_most_workers(total: nat, threads: usize, len: nat, pieces: nat)
    requires
        len >= 1,
        total > 0,
        total <= len * workers(threads),
        pieces >= 1,
        (pieces - 1) * len < total,
    ensures
        pieces <= workers(threads),
{
    let w = workers(threads);
    if pieces > w {
        assert((pieces - 1) * len >= w * len) by (nonlinear_arith)
            requires
                pieces - 1 >= w,
                len >= 1,
        ;
        assert(w * len == len * w) by (nonlinear_arith);
    }
}

/// Progress is told every so many items.
pub fn is_tick(done: usize, every: usize) -> (r: bool)
    requires
        every > 0,
    ensures
        r == (done % every == 0),
{
    done % every == 0
}

/// The first failure among the parts.
pub open spec fn first_failure(
    parts: Seq<Result<Vec<PreparedCommit>, ScanError>>,
) -> Option<ScanError>
    decreases parts.len(),
{
    if parts.len() == 0 {
        None
    } else {
        match parts[0] {
            Err(e) => Some(e),
            Ok(_) => first_failure(parts.drop_first()),
        }
    }
}

/// The parts one behind the other.
pub open spec fn concatenated(
    parts: Seq<Result<Vec<PreparedCommit>, ScanError>>,
) -> Seq<PreparedCommit>
    decreases parts.len(),
{
    if parts.len() == 0 {
        Seq::empty()
    } else {
        parts[0]->Ok_0@ + concatenated(parts.drop_first())
    }
}

/// What workers prepared lines up with what they were given: cut into pieces of
/// one length, of which only the last may be shorter, item `k` comes back at
/// place `k`.
pub proof fn parts_line_up(
    parts: Seq<Result<Vec<PreparedCommit>, ScanError>>,
    total: nat,
    len: nat,
    k: int,
)
    requires
        len >= 1,
        first_failure(parts) is None,
        total <= parts.len() * len,
        parts.len() > 0 ==> (parts.len() - 1) * len < total,
        forall|i: int|
            0 <= i < parts.len() - 1 ==> (#[trigger] parts[i])->Ok_0@.len() == len,
        parts.len() > 0 ==> parts.last()->Ok_0@.len() == total - (parts.len() - 1) * len,
        0 <= k < total,
    ensures
        concatenated(parts).len() == total,
        concatenated(parts)[k] == parts[k / (len as int)]->Ok_0@[k % (len as int)],
    decreases parts.len(),
{
    let n = parts.len();
    let rest = parts.drop_first();
    let m = len as int;
    if n == 1 {
        assert(concatenated(rest) =~= Seq::empty());
        assert((n - 1) * len == 0 && n * len == len) by (nonlinear_arith)
            requires
                n == 1,
        ;
        vstd::arithmetic::div_mod::lemma_basic_div(k, m);
        vstd::arithmetic::div_mod::lemma_small_mod(k as nat, len);
    } else {
        assert(n > 1) by (nonlinear_arith)
            requires
                n != 1,
                total <= n * len,
                0 <= k < total,
        ;
        assert(parts[0]->Ok_0@.len() == len);
        assert((n - 1) * len == (n - 2) * len + len && n * len == (n - 1) * len + len)
            by (nonlinear_arith);
        assert((n - 2) * len >= 0) by (nonlinear_arith)
            requires
                n >= 2,
        ;
        let left = (total - len) as nat;
        assert(rest.last() == parts.last());
        assert forall|i: int| 0 <= i < rest.len() - 1 implies (#[trigger] rest[i])->Ok_0@.len()
            == len by {
            assert(rest[i] == parts[i + 1]);
        }
        if k < len {
            parts_line_up(rest, left, len, 0);
            vstd::arithmetic::div_mod::lemma_basic_div(k, m);
            vstd::arithmetic::div_mod::lemma_small_mod(k as nat, len);
        } else {
            parts_line_up(rest, left, len, k - len);
            vstd::arithmetic::div_mod::lemma_div_minus_one(k, m);
            vstd::arithmetic::div_mod::lemma_mod_sub_multiples_vanish(k, m);
            vstd::arithmetic::div_mod::lemma_div_pos_is_pos(k - len, m);
            assert((k - len) / m == k / m - 1);
            assert((k - len) % m == k % m);
            vstd::arithmetic::div_mod::lemma_fundamental_div_mod(k, m);
            vstd::arithmetic::div_mod::lemma_mod_bound(k, m);
            assert(k / m < n) by (nonlinear_arith)
                requires
                    k == m * (k / m) + k % m,
                    0 <= k % m,
                    k < n * m,
                    m >= 1,
            ;
            assert(rest[k / m - 1] == parts[k / m]);
        }
    }
}

fn append_all(all: &mut Vec<PreparedCommit>, part: Vec<PreparedCommit>)
    ensures
        final(all)@ == old(all)@ + part@,
{
    let ghost before = all@;
    let ghost given = part@;
    let mut rest = reversed(part);
    let ghost mut i: int = 0;
    assert(before + given.take(0) =~= before);
    while rest.len() > 0
        invariant
            0 <= i <= given.len(),
            rest@.len() == given.len() - i,
            forall|k: int| 0 <= k < rest@.len() ==> rest@[k] == given[given.len() - 1 - k],
            all@ == before + given.take(i),
        decreases rest@.len(),
    {
        let p = rest.pop().unwrap();
        all.push(p);
        proof {
            assert(p == given[i]);
            assert(all@ =~= before + given.take(i + 1));
            i = i + 1;
        }
    }
    assert(given.take(i) =~= given);
}

/// Put together what workers prepared: all of it, in order, or the first
/// failure.
pub fn join_parts(parts: Vec<Result<Vec<PreparedCommit>, ScanError>>) -> (r: Result<
    Vec<PreparedCommit>,
    ScanError,
>)
    ensures
        match r {
            Ok(all) => first_failure(parts@) is None && all@ == concatenated(parts@),
            Err(e) => first_failure(parts@) == Some(e),
        },
{
    let ghost given = parts@;
    let mut rest = reversed(parts);
    let mut all: Vec<PreparedCommit> = Vec::new();
    let ghost mut i: int = 0;
    proof {
        assert(given.skip(0) =~= given);
        assert(all@ + concatenated(given) =~= concatenated(given));
    }
    while rest.len() > 0
        invariant
            given == parts@,
            0 <= i <= given.len(),
            rest@.len() == given.len() - i,
            forall|k: int| 0 <= k < rest@.len() ==> rest@[k] == given[given.len() - 1 - k],
            first_failure(given) == first_failure(given.skip(i)),
            concatenated(given) == all@ + concatenated(given.skip(i)),
        decreases rest@.len(),
    {
        let part = rest.pop().unwrap();
        proof {
            assert(part == given[i]);
            assert(given.skip(i)[0] == given[i]);
            assert(given.skip(i).drop_first() =~= given.skip(i + 1));
        }
        match part {
            Ok(v) => {
                let ghost before = all@;
                append_all(&mut all, v);
                assert(all@ + concatenated(given.skip(i + 1)) =~= before + (v@ + concatenated(
                    given.skip(i + 1),
                )));
            },
            Err(e) => {
                return Err(e);
            },
        }
        proof {
            i = i + 1;
        }
    }
    proof {
        assert(given.skip(i) =~= Seq::empty());
        assert(all@ + Seq::empty() =~= all@);
    }
    Ok(all)
}

// ---- the span of history --------------------------------------------

/// The times of commits.
pub open spec fn commit_times(cs: Seq<Commit>) -> Seq<i64> {
    cs.map_values(|c: Commit| c.time)
}

/// The first and the last time of the commits; zero without any.
pub fn time_bounds(commits: &[Commit]) -> (r: (i64, i64))
    ensures
        commits@.len() == 0 ==> r == (0i64, 0i64),
        commits@.len() > 0 ==> commit_times(commits@).contains(r.0) && commit_times(
            commits@,
        ).contains(r.1),
        forall|i: int| 0 <= i < commits@.len() ==> r.0 <= (#[trigger] commits@[i]).time <= r.1,
{
    if commits.len() == 0 {
        return (0, 0);
    }
    let ghost ts = commit_times(commits@);
    let mut first: i64 = commits[0].time;
    let mut last: i64 = commits[0].time;
    let mut i: usize = 1;
    assert(ts[0] == first);
    while i < commits.len()
        invariant
            1 <= i <= commits@.len(),
            ts == commit_times(commits@),
            ts.contains(first),
            ts.contains(last),
            forall|j: int| 0 <= j < i ==> first <= (#[trigger] commits@[j]).time <= last,
        decreases commits@.len() - i,
    {
        let t: i64 = commits[i].time;
        assert(ts[i as int] == t);
        if t < first {
            first = t;
        }
        if t > last {
            last = t;
        }
        i = i + 1;
    }
    (first, last)
}

// ---- what the phases are ---------------------------------------------

/// The phases come in this order, and each is known by its own name, label and
/// prior share of the running time.
pub proof fn phases_are_listed(i: int)
    requires
        0 <= i < 11,
    ensures
        phase_place(phase_at(i)) == i,
        phase_id(phase_at(i)) == seq![
            "open"@,
            "walk"@,
            "commit_loop"@,
            "normalize"@,
            "graph_build"@,
            "betweenness"@,
            "head_tree"@,
            "blame"@,
            "rows"@,
            "events"@,
            "handles"@,
        ][i],
        phase_label(phase_at(i)) == seq![
            "Opening repository"@,
            "Walking commit history"@,
            "Diffing commits and parsing public API"@,
            "Normalizing change density"@,
            "Building co-change graph"@,
            "Computing betweenness centrality"@,
            "Reading HEAD tree"@,
            "Blaming files at HEAD"@,
            "Scoring files"@,
            "Detecting events"@,
            "Minting evidence handles"@,
        ][i],
        phase_weight(phase_at(i)) == seq![
            0x3f74_7ae1_47ae_147bu64,
            0x3f74_7ae1_47ae_147b,
            0x3fc3_3333_3333_3333,
            0x3f74_7ae1_47ae_147b,
            0x3fb9_9999_9999_999a,
            0x3fd9_9999_9999_999a,
            0x3f74_7ae1_47ae_147b,
            0x3fd3_3333_3333_3333,
            0x3f74_7ae1_47ae_147b,
            0x3f74_7ae1_47ae_147b,
            0x3f74_7ae1_47ae_147b,
        ][i],
        phase_tellings()[2 * i] == (Told::Phase { phase: phase_at(i), done: false }),
        phase_tellings()[2 * i + 1] == (Told::Phase { phase: phase_at(i), done: true }),
        phase_tellings().len() == 22,
{
}

/// A client that is gone ends the scan at the end of every phase but the last;
/// one that is there lets the next phase come, and behind the last the scan is
/// finished.
pub proof fn scans_end_with_their_client(i: int)
    requires
        0 <= i < 11,
    ensures
        i < 10 ==> turned(
            Course::Behind { phase: phase_at(i) },
            Turn::Looked { cancelled: true },
        ).0 == Course::GivenUp,
        i < 10 ==> turned(
            Course::Behind { phase: phase_at(i) },
            Turn::Looked { cancelled: false },
        ).0 == (Course::Before { phase: phase_at(i + 1) }),
        i == 10 ==> turned(
            Course::Behind { phase: phase_at(i) },
            Turn::Looked { cancelled: true },
        ).0 == Course::Finished,
        i == 10 ==> turned(
            Course::Behind { phase: phase_at(i) },
            Turn::Looked { cancelled: false },
        ).0 == Course::Finished,
        stops_at(phase_at(i), true) <==> i < 10,
        stops_at(phase_at(i), false) <==> i == 2 || i == 7,
{
}

/// Within a phase the scan stays there while it goes on, tells how far it is
/// only while commits are read or files are blamed, and is given up where the
/// work fails.
pub proof fn phases_run_their_course(i: int, done: usize, total: usize)
    requires
        0 <= i < 11,
    ensures
        ({
            let phase = phase_at(i);
            let within = Course::Within { phase };
            &&& turned(Course::Before { phase }, Turn::Begun) == (
                within,
                Some(Told::Phase { phase, done: false }),
            )
            &&& turned(within, Turn::Advanced { done, total }).0 == within
            &&& (i == 2 || i == 7) && done <= total ==> turned(
                within,
                Turn::Advanced { done, total },
            ).1 == Some(Told::Tick { phase, done, total })
            &&& !(i == 2 || i == 7) ==> turned(within, Turn::Advanced { done, total }).1 is None
            &&& turned(within, Turn::Completed) == (
                Course::Behind { phase },
                Some(Told::Phase { phase, done: true }),
            )
            &&& turned(within, Turn::Failed) == (Course::GivenUp, None::<Told>)
        }),
{
}

/// A scan that is finished or given up stays so, and nothing more is told.
pub proof fn ended_scans_stay_ended(c: Course, t: Turn)
    requires
        c is Finished || c is GivenUp,
    ensures
        turned(c, t) == (c, None::<Told>),
{
}

/// What is said of an error begins with what failed and ends with why.
pub proof fn errors_say_what_failed(m: String)
    ensures
        error_message(ScanError::Open(m)) == "open failed: "@ + m@,
        error_message(ScanError::Walk(m)) == "walk failed: "@ + m@,
        error_message(ScanError::Diff(m)) == "diff failed: "@ + m@,
        error_message(ScanError::HeadTree(m)) == "head tree walk failed: "@ + m@,
        error_message(ScanError::Cancelled) == "cancelled by client"@,
{
}

/// The failure that is reported is that of the first part that failed, and
/// there is none only where no part did.
pub proof fn first_failure_is_first(parts: Seq<Result<Vec<PreparedCommit>, ScanError>>)
    ensures
        match first_failure(parts) {
            Some(e) => exists|i: int|
                0 <= i < parts.len() && #[trigger] parts[i] == Err::<Vec<PreparedCommit>, _>(e)
                    && forall|j: int| 0 <= j < i ==> #[trigger] parts[j] is Ok,
            None => forall|j: int| 0 <= j < parts.len() ==> #[trigger] parts[j] is Ok,
        },
    decreases parts.len(),
{
    if parts.len() > 0 {
        let rest = parts.drop_first();
        first_failure_is_first(rest);
        match parts[0] {
            Err(e) => {
                assert(parts[0] == Err::<Vec<PreparedCommit>, _>(e));
            },
            Ok(_) => {
                match first_failure(rest) {
                    Some(e) => {
                        let i = choose|i: int|
                            0 <= i < rest.len() && #[trigger] rest[i] == Err::<
                                Vec<PreparedCommit>,
                                _,
                            >(e) && forall|j: int| 0 <= j < i ==> #[trigger] rest[j] is Ok;
                        assert(parts[i + 1] == Err::<Vec<PreparedCommit>, _>(e));
                        assert forall|j: int| 0 <= j < i + 1 implies #[trigger] parts[j] is Ok by {
                            if j > 0 {
                                assert(rest[j - 1] == parts[j]);
                            }
                        }
                    },
                    None => {
                        assert forall|j: int| 0 <= j < parts.len() implies #[trigger] parts[j]
                            is Ok by {
                            if j > 0 {
                                assert(rest[j - 1] == parts[j]);
                            }
                        }
                    },
                }
            },
        }
    }
}

/// There is one worker at least, and as many as there are threads.
pub proof fn workers_are_threads(threads: usize)
    ensures
        threads > 0 ==> workers(threads) == threads,
        workers(0) == 1,
{
}

} // verus!
