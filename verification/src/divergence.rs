//! Where a set of peers disagrees, file by file.
//!
//! Each fleet was run through `wtd` or failed to run. What comes of it is a
//! list of fleets with their reports, the loudest first, and for every file
//! the fleet in which it departs most from its peers.

use vstd::prelude::*;

use crate::fleets::Fleet;
use crate::ieee;
use crate::order;
use crate::order::{comes_before, same_text};
use crate::ranking;
use crate::ranking::{reversed, sort_stable, Ranked};
use crate::sorted_map;
use crate::sorted_map::SortedMap;
use crate::wtd;
use crate::wtd::{
    consensus_verdict, deviant_keys, faction_size, is_actionable_conflict, Conflict, WtdReport,
};

verus! {

/// How a file departs from its peers.
#[derive(Clone, Debug)]
pub struct PathDivergence {
    pub fleet: String,
    pub fleet_label: String,
    /// Bits of the drift.
    pub drift: u64,
    pub outlier: bool,
    /// Keys of which this file holds a minority value.
    pub deviant_keys: Vec<String>,
    /// Size of the faction that this file belongs to.
    pub faction_size: Option<u32>,
}

/// The fleets, and what they say of each file.
pub struct FleetAnalysis {
    pub fleets: Vec<FleetResult>,
    pub by_path: SortedMap<PathDivergence>,
    /// Sets of files that turned out not to be peers.
    pub rejected: Vec<RejectedFleet>,
    /// Fleets that failed to run.
    pub errors: Vec<FleetError>,
}

#[derive(Clone, Debug)]
pub struct RejectedFleet {
    pub id: String,
    pub label: String,
    pub members: usize,
    pub reason: String,
}

#[derive(Clone, Debug)]
pub struct FleetResult {
    pub fleet: Fleet,
    pub report: WtdReport,
    /// Keys that vary by nature rather than by mistake, and are left out.
    pub identifier_keys_suppressed: usize,
}

#[derive(Clone, Debug)]
pub struct FleetError {
    pub fleet: String,
    pub message: String,
}

/// A fleet and what its run gave: a report, or why there is none.
pub type Checked = (Fleet, Result<WtdReport, String>);

/// A departure as a value.
pub struct DivergenceModel {
    pub fleet: Seq<char>,
    pub fleet_label: Seq<char>,
    pub drift: u64,
    pub outlier: bool,
    pub deviant_keys: Seq<Seq<char>>,
    pub faction_size: Option<u32>,
}

impl View for PathDivergence {
    type V = DivergenceModel;

    open spec fn view(&self) -> DivergenceModel {
        DivergenceModel {
            fleet: self.fleet@,
            fleet_label: self.fleet_label@,
            drift: self.drift,
            outlier: self.outlier,
            deviant_keys: sorted_map::texts(self.deviant_keys@),
            faction_size: self.faction_size,
        }
    }
}

/// A refused set of files as a value.
pub struct RejectedModel {
    pub id: Seq<char>,
    pub label: Seq<char>,
    pub members: nat,
    pub reason: Seq<char>,
}

impl View for RejectedFleet {
    type V = RejectedModel;

    open spec fn view(&self) -> RejectedModel {
        RejectedModel {
            id: self.id@,
            label: self.label@,
            members: self.members as nat,
            reason: self.reason@,
        }
    }
}

impl View for FleetError {
    type V = (Seq<char>, Seq<char>);

    open spec fn view(&self) -> (Seq<char>, Seq<char>) {
        (self.fleet@, self.message@)
    }
}

/// The fleet has a report and its files are peers.
pub open spec fn accepted(c: Checked) -> bool {
    c.1 is Ok && wtd::verdict(c.1->Ok_0) is None
}

/// The keys on which the fleet genuinely disagrees.
pub open spec fn findings(r: WtdReport) -> Seq<Conflict> {
    r.conflicts@.filter(|c: Conflict| wtd::actionable(c))
}

/// Each failed fleet with its reason, as they came.
pub open spec fn errors_of(all: Seq<Checked>) -> Seq<(Seq<char>, Seq<char>)>
    decreases all.len(),
{
    if all.len() == 0 {
        Seq::empty()
    } else {
        let before = errors_of(all.drop_last());
        match all.last().1 {
            Err(message) => before.push((all.last().0.id@, message@)),
            Ok(_) => before,
        }
    }
}

/// Each set of files that is no fleet, as they came.
pub open spec fn rejected_of(all: Seq<Checked>) -> Seq<RejectedModel>
    decreases all.len(),
{
    if all.len() == 0 {
        Seq::empty()
    } else {
        let before = rejected_of(all.drop_last());
        if all.last().1 is Ok && wtd::verdict(all.last().1->Ok_0) is Some {
            before.push(
                RejectedModel {
                    id: all.last().0.id@,
                    label: all.last().0.label@,
                    members: all.last().0.members@.len(),
                    reason: wtd::verdict(all.last().1->Ok_0)->0,
                },
            )
        } else {
            before
        }
    }
}

/// The fleets with a usable report, as they came.
pub open spec fn accepted_of(all: Seq<Checked>) -> Seq<Checked> {
    all.filter(|c: Checked| accepted(c))
}

/// A fleet with its report, of which only the findings are left.
pub open spec fn is_result(r: FleetResult, c: Checked) -> bool {
    let full = c.1->Ok_0;
    &&& r.fleet == c.0
    &&& r.report.corpus == full.corpus
    &&& r.report.consensus == full.consensus
    &&& r.report.drift == full.drift
    &&& r.report.conflicts@ == findings(full)
    &&& r.report.factions == full.factions
    &&& r.report.artifacts == full.artifacts
    &&& r.identifier_keys_suppressed == full.conflicts@.len() - findings(full).len()
}

/// The results of the fleets in the order in which these came.
pub open spec fn are_results(rs: Seq<FleetResult>, cs: Seq<Checked>) -> bool {
    &&& rs.len() == cs.len()
    &&& forall|i: int| 0 <= i < rs.len() ==> is_result(#[trigger] rs[i], cs[i])
}

/// How the `i`-th artifact of a report departs from its peers.
pub open spec fn departure(f: Fleet, r: WtdReport, i: int) -> DivergenceModel {
    DivergenceModel {
        fleet: f.id@,
        fleet_label: f.label@,
        drift: r.artifacts@[i].drift,
        outlier: r.artifacts@[i].outlier,
        deviant_keys: sorted_map::in_key_order(wtd::deviant_set(findings(r), i as usize)),
        faction_size: wtd::faction_of(r.factions@, i as usize),
    }
}

/// More deviant keys, or as many and a greater drift.
pub open spec fn louder(a: DivergenceModel, b: DivergenceModel) -> bool {
    ||| a.deviant_keys.len() > b.deviant_keys.len()
    ||| a.deviant_keys.len() == b.deviant_keys.len() && ieee::greater(a.drift, b.drift)
}

/// A departure of a file replaces an earlier one only if it is louder.
pub open spec fn with_departure(
    m: Map<Seq<char>, DivergenceModel>,
    path: Seq<char>,
    d: DivergenceModel,
) -> Map<Seq<char>, DivergenceModel> {
    if m.contains_key(path) && !louder(d, m[path]) {
        m
    } else {
        m.insert(path, d)
    }
}

/// The departures of the first `n` artifacts of a report, on top of `m`.
pub open spec fn with_artifacts(
    m: Map<Seq<char>, DivergenceModel>,
    f: Fleet,
    r: WtdReport,
    n: nat,
) -> Map<Seq<char>, DivergenceModel>
    decreases n,
{
    if n == 0 {
        m
    } else {
        with_departure(
            with_artifacts(m, f, r, (n - 1) as nat),
            r.artifacts@[n - 1].path@,
            departure(f, r, n - 1),
        )
    }
}

/// What the fleets say of each file.
pub open spec fn departures_of(all: Seq<Checked>) -> Map<Seq<char>, DivergenceModel>
    decreases all.len(),
{
    if all.len() == 0 {
        Map::empty()
    } else {
        let before = departures_of(all.drop_last());
        let last = all.last();
        if accepted(last) {
            with_artifacts(before, last.0, last.1->Ok_0, last.1->Ok_0.artifacts@.len())
        } else {
            before
        }
    }
}

/// Departures as values.
pub open spec fn departure_models(
    m: Map<Seq<char>, PathDivergence>,
) -> Map<Seq<char>, DivergenceModel> {
    m.map_values(|d: PathDivergence| d@)
}

/// More conflicts first, then more factions, then the lesser id.
impl Ranked for FleetResult {
    open spec fn leq(self, other: FleetResult) -> bool {
        let a = self.report.conflicts@.len();
        let b = other.report.conflicts@.len();
        let x = self.report.factions@.len();
        let y = other.report.factions@.len();
        ||| a > b
        ||| a == b && x > y
        ||| a == b && x == y && order::text_leq(self.fleet.id@, other.fleet.id@)
    }

    proof fn leq_total_preorder() {
        assert forall|x: FleetResult, y: FleetResult| #[trigger] x.leq(y) || y.leq(x) by {
            order::text_less_total(x.fleet.id@, y.fleet.id@);
        }
        assert forall|x: FleetResult, y: FleetResult, z: FleetResult| #[trigger]
            x.leq(y) && #[trigger] y.leq(z) implies x.leq(z) by {
            if order::text_less(x.fleet.id@, y.fleet.id@) && order::text_less(
                y.fleet.id@,
                z.fleet.id@,
            ) {
                order::text_less_transitive(x.fleet.id@, y.fleet.id@, z.fleet.id@);
            }
        }
    }

    fn at_most(&self, other: &FleetResult) -> (r: bool) {
        let a: usize = self.report.conflicts.len();
        let b: usize = other.report.conflicts.len();
        let x: usize = self.report.factions.len();
        let y: usize = other.report.factions.len();
        if a != b {
            return a > b;
        }
        if x != y {
            return x > y;
        }
        same_text(self.fleet.id.as_str(), other.fleet.id.as_str()) || comes_before(
            self.fleet.id.as_str(),
            other.fleet.id.as_str(),
        )
    }
}

/// Only the keys on which the fleet genuinely disagrees.
fn retain_findings(conflicts: Vec<Conflict>) -> (r: Vec<Conflict>)
    ensures
        r@ == conflicts@.filter(|c: Conflict| wtd::actionable(c)),
        r@.len() <= conflicts@.len(),
{
    let ghost all = conflicts@;
    let ghost p = |c: Conflict| wtd::actionable(c);
    let mut rest = reversed(conflicts);
    let mut r: Vec<Conflict> = Vec::new();
    let ghost mut i: int = 0;
    proof {
        reveal(Seq::filter);
        assert(all.take(0) =~= Seq::empty());
    }
    while rest.len() > 0
        invariant
            p == |c: Conflict| wtd::actionable(c),
            0 <= i <= all.len(),
            rest@.len() == all.len() - i,
            forall|k: int| 0 <= k < rest@.len() ==> rest@[k] == all[all.len() - 1 - k],
            r@ == all.take(i).filter(p),
            r@.len() <= i,
        decreases rest@.len(),
    {
        let c = rest.pop().unwrap();
        proof {
            reveal(Seq::filter);
            assert(c == all[i]);
            assert(all.take(i + 1).drop_last() =~= all.take(i));
        }
        if is_actionable_conflict(&c) {
            r.push(c);
        }
        proof {
            i = i + 1;
        }
    }
    assert(all.take(i) =~= all);
    r
}

/// Note how the artifacts of a report depart from their peers.
fn note_departures(
    by_path: &mut SortedMap<PathDivergence>,
    fleet: &Fleet,
    report: &WtdReport,
    Ghost(full): Ghost<WtdReport>,
)
    requires
        old(by_path).wf(),
        report.conflicts@ == findings(full),
        report.factions == full.factions,
        report.artifacts == full.artifacts,
    ensures
        final(by_path).wf(),
        departure_models(final(by_path)@) == with_artifacts(
            departure_models(old(by_path)@),
            *fleet,
            full,
            full.artifacts@.len(),
        ),
{
    let ghost m0 = departure_models(by_path@);
    let mut i: usize = 0;
    while i < report.artifacts.len()
        invariant
            i <= report.artifacts@.len(),
            by_path.wf(),
            report.conflicts@ == findings(full),
            report.factions == full.factions,
            report.artifacts == full.artifacts,
            departure_models(by_path@) == with_artifacts(m0, *fleet, full, i as nat),
        decreases report.artifacts@.len() - i,
    {
        let a = &report.artifacts[i];
        let entry = PathDivergence {
            fleet: fleet.id.clone(),
            fleet_label: fleet.label.clone(),
            drift: a.drift,
            outlier: a.outlier,
            deviant_keys: deviant_keys(&report.conflicts, i),
            faction_size: faction_size(&report.factions, i),
        };
        let ghost d = departure(*fleet, full, i as int);
        assert(entry@ == d);
        let ghost before = by_path@;
        let replaces = match by_path.get(a.path.as_str()) {
            None => true,
            Some(prev) => {
                assert(departure_models(before)[a.path@] == prev@);
                entry.deviant_keys.len() > prev.deviant_keys.len() || (entry.deviant_keys.len()
                    == prev.deviant_keys.len() && ieee::is_greater(entry.drift, prev.drift))
            },
        };
        if replaces {
            by_path.put(a.path.as_str(), entry);
            assert(departure_models(by_path@) =~= departure_models(before).insert(a.path@, d));
        }
        assert(departure_models(by_path@) == with_departure(
            departure_models(before),
            a.path@,
            d,
        ));
        i = i + 1;
    }
}

/// What the fleets say, given what the run of each gave.
pub fn analyze(checked: Vec<Checked>) -> (r: FleetAnalysis)
    ensures
        r.by_path.wf(),
        r.errors@.map_values(|e: FleetError| e@) == errors_of(checked@),
        r.rejected@.map_values(|e: RejectedFleet| e@) == rejected_of(checked@),
        departure_models(r.by_path@) == departures_of(checked@),
        exists|rs: Seq<FleetResult>| #[trigger]
            are_results(rs, accepted_of(checked@)) && r.fleets@ == ranking::ranked(
                rs,
                ranking::by_rank::<FleetResult>(),
            ),
{
    let ghost all = checked@;
    let ghost ev = |e: FleetError| e@;
    let ghost rv = |e: RejectedFleet| e@;
    let mut fleets: Vec<FleetResult> = Vec::new();
    let mut by_path: SortedMap<PathDivergence> = SortedMap::new();
    let mut rejected: Vec<RejectedFleet> = Vec::new();
    let mut errors: Vec<FleetError> = Vec::new();
    let mut rest = reversed(checked);
    let ghost mut i: int = 0;
    proof {
        reveal(Seq::filter);
        assert(all.take(0) =~= Seq::empty());
        assert(errors@.map_values(ev) =~= Seq::empty());
        assert(rejected@.map_values(rv) =~= Seq::empty());
        assert(departure_models(by_path@) =~= Map::empty());
    }
    while rest.len() > 0
        invariant
            ev == |e: FleetError| e@,
            rv == |e: RejectedFleet| e@,
            0 <= i <= all.len(),
            rest@.len() == all.len() - i,
            forall|k: int| 0 <= k < rest@.len() ==> rest@[k] == all[all.len() - 1 - k],
            by_path.wf(),
            errors@.map_values(ev) == errors_of(all.take(i)),
            rejected@.map_values(rv) == rejected_of(all.take(i)),
            departure_models(by_path@) == departures_of(all.take(i)),
            are_results(fleets@, accepted_of(all.take(i))),
        decreases rest@.len(),
    {
        let (fleet, outcome) = rest.pop().unwrap();
        proof {
            reveal(Seq::filter);
            assert((fleet, outcome) == all[i]);
            assert(all.take(i + 1).drop_last() =~= all.take(i));
            assert(all.take(i + 1).last() == all[i]);
        }
        match outcome {
            Err(message) => {
                let ghost e0 = errors@;
                let e = FleetError { fleet: fleet.id.clone(), message };
                errors.push(e);
                assert(errors@.map_values(ev) =~= e0.map_values(ev).push(e@));
            },
            Ok(report) => {
                let ghost full = report;
                match consensus_verdict(&report) {
                    Some(reason) => {
                        let ghost r0 = rejected@;
                        let e = RejectedFleet {
                            id: fleet.id.clone(),
                            label: fleet.label.clone(),
                            members: fleet.members.len(),
                            reason,
                        };
                        rejected.push(e);
                        assert(rejected@.map_values(rv) =~= r0.map_values(rv).push(e@));
                    },
                    None => {
                        let mut report = report;
                        let before: usize = report.conflicts.len();
                        report.conflicts = retain_findings(report.conflicts);
                        let suppressed: usize = before - report.conflicts.len();
                        note_departures(&mut by_path, &fleet, &report, Ghost(full));
                        fleets.push(
                            FleetResult { fleet, report, identifier_keys_suppressed: suppressed },
                        );
                    },
                }
            },
        }
        proof {
            i = i + 1;
        }
    }
    assert(all.take(i) =~= all);
    let ghost rs = fleets@;
    let fleets = sort_stable(fleets);
    proof {
        assert(are_results(rs, accepted_of(all)));
    }
    FleetAnalysis { fleets, by_path, rejected, errors }
}

/// Every fleet is accounted for: it failed, was refused, or has a result.
pub proof fn no_fleet_is_lost(all: Seq<Checked>)
    ensures
        errors_of(all).len() + rejected_of(all).len() + accepted_of(all).len() == all.len(),
    decreases all.len(),
{
    reveal(Seq::filter);
    if all.len() > 0 {
        no_fleet_is_lost(all.drop_last());
    }
}

/// `d` is how the `i`-th artifact of the `c`-th fleet departs, and its path is
/// `path`.
pub open spec fn departs(
    all: Seq<Checked>,
    c: int,
    i: int,
    path: Seq<char>,
    d: DivergenceModel,
) -> bool {
    &&& 0 <= c < all.len()
    &&& accepted(all[c])
    &&& 0 <= i < all[c].1->Ok_0.artifacts@.len()
    &&& all[c].1->Ok_0.artifacts@[i].path@ == path
    &&& d == departure(all[c].0, all[c].1->Ok_0, i)
}

/// What is said of a file was found in one of the fleets.
pub proof fn departures_are_found(all: Seq<Checked>, path: Seq<char>)
    requires
        departures_of(all).contains_key(path),
    ensures
        exists|c: int, i: int| #[trigger] departs(all, c, i, path, departures_of(all)[path]),
    decreases all.len(), 1int,
{
    if all.len() > 0 {
        let before = departures_of(all.drop_last());
        let last = all.last();
        let n = all.len() - 1;
        if accepted(last) {
            let r = last.1->Ok_0;
            lemma_artifact_found(before, last.0, r, r.artifacts@.len(), path);
            if exists|i: int|
                0 <= i < r.artifacts@.len() && (#[trigger] r.artifacts@[i]).path@ == path
                    && departures_of(all)[path] == departure(last.0, r, i) {
                let i = choose|i: int|
                    0 <= i < r.artifacts@.len() && (#[trigger] r.artifacts@[i]).path@ == path
                        && departures_of(all)[path] == departure(last.0, r, i);
                assert(departs(all, n, i, path, departures_of(all)[path]));
            } else {
                lemma_found_before(all, path);
            }
        } else {
            lemma_found_before(all, path);
        }
    }
}

proof fn lemma_found_before(all: Seq<Checked>, path: Seq<char>)
    requires
        all.len() > 0,
        departures_of(all.drop_last()).contains_key(path),
        departures_of(all).contains_key(path),
        departures_of(all)[path] == departures_of(all.drop_last())[path],
    ensures
        exists|c: int, i: int| #[trigger] departs(all, c, i, path, departures_of(all)[path]),
    decreases all.len(), 0int,
{
    departures_are_found(all.drop_last(), path);
    let d = departures_of(all)[path];
    let (c, i) = choose|c: int, i: int| #[trigger] departs(all.drop_last(), c, i, path, d);
    assert(all.drop_last()[c] == all[c]);
    assert(departs(all, c, i, path, d));
}

proof fn lemma_artifact_found(
    m: Map<Seq<char>, DivergenceModel>,
    f: Fleet,
    r: WtdReport,
    n: nat,
    path: Seq<char>,
)
    requires
        n <= r.artifacts@.len(),
        with_artifacts(m, f, r, n).contains_key(path),
    ensures
        (m.contains_key(path) && with_artifacts(m, f, r, n)[path] == m[path]) || exists|i: int|
            0 <= i < n && (#[trigger] r.artifacts@[i]).path@ == path && with_artifacts(
                m,
                f,
                r,
                n,
            )[path] == departure(f, r, i),
    decreases n,
{
    if n > 0 {
        let k = (n - 1) as nat;
        let before = with_artifacts(m, f, r, k);
        if r.artifacts@[n - 1].path@ == path && !(before.contains_key(path) && !louder(
            departure(f, r, n - 1),
            before[path],
        )) {
        } else {
            lemma_artifact_found(m, f, r, k, path);
        }
    }
}

/// The measures of the reports are numbers.
pub open spec fn measured(all: Seq<Checked>) -> bool {
    forall|c: int, i: int|
        0 <= c < all.len() && accepted(all[c]) && 0 <= i < all[c].1->Ok_0.artifacts@.len()
            ==> !ieee::is_nan((#[trigger] all[c].1->Ok_0.artifacts@[i]).drift)
}

proof fn lemma_stays(
    m: Map<Seq<char>, DivergenceModel>,
    f: Fleet,
    r: WtdReport,
    n: nat,
    path: Seq<char>,
    d: DivergenceModel,
)
    requires
        n <= r.artifacts@.len(),
        forall|i: int| 0 <= i < n ==> !ieee::is_nan((#[trigger] r.artifacts@[i]).drift),
        !ieee::is_nan(d.drift),
        m.contains_key(path),
        !ieee::is_nan(m[path].drift),
        !louder(d, m[path]),
    ensures
        with_artifacts(m, f, r, n).contains_key(path),
        !louder(d, with_artifacts(m, f, r, n)[path]),
        !ieee::is_nan(with_artifacts(m, f, r, n)[path].drift),
    decreases n,
{
    if n > 0 {
        lemma_stays(m, f, r, (n - 1) as nat, path, d);
        assert(!ieee::is_nan(r.artifacts@[n - 1].drift));
    }
}

proof fn lemma_loudest(
    m: Map<Seq<char>, DivergenceModel>,
    f: Fleet,
    r: WtdReport,
    n: nat,
    k: int,
)
    requires
        0 <= k < n <= r.artifacts@.len(),
        forall|i: int| 0 <= i < n ==> !ieee::is_nan((#[trigger] r.artifacts@[i]).drift),
        m.contains_key(r.artifacts@[k].path@) ==> !ieee::is_nan(
            m[r.artifacts@[k].path@].drift,
        ),
    ensures
        with_artifacts(m, f, r, n).contains_key(r.artifacts@[k].path@),
        !louder(departure(f, r, k), with_artifacts(m, f, r, n)[r.artifacts@[k].path@]),
        !ieee::is_nan(with_artifacts(m, f, r, n)[r.artifacts@[k].path@].drift),
    decreases n,
{
    let path = r.artifacts@[k].path@;
    assert(!ieee::is_nan(r.artifacts@[n - 1].drift));
    if k == n - 1 {
        lemma_numbers_stay(m, f, r, (n - 1) as nat, path);
    } else {
        lemma_loudest(m, f, r, (n - 1) as nat, k);
    }
}

proof fn lemma_numbers_stay(
    m: Map<Seq<char>, DivergenceModel>,
    f: Fleet,
    r: WtdReport,
    n: nat,
    path: Seq<char>,
)
    requires
        n <= r.artifacts@.len(),
        forall|i: int| 0 <= i < n ==> !ieee::is_nan((#[trigger] r.artifacts@[i]).drift),
        m.contains_key(path) ==> !ieee::is_nan(m[path].drift),
    ensures
        with_artifacts(m, f, r, n).contains_key(path) ==> !ieee::is_nan(
            with_artifacts(m, f, r, n)[path].drift,
        ),
    decreases n,
{
    if n > 0 {
        lemma_numbers_stay(m, f, r, (n - 1) as nat, path);
        assert(!ieee::is_nan(r.artifacts@[n - 1].drift));
    }
}

proof fn lemma_all_numbers(all: Seq<Checked>, path: Seq<char>)
    requires
        measured(all),
    ensures
        departures_of(all).contains_key(path) ==> !ieee::is_nan(departures_of(all)[path].drift),
{
    if departures_of(all).contains_key(path) {
        departures_are_found(all, path);
        let (c, i) = choose|c: int, i: int| #[trigger]
            departs(all, c, i, path, departures_of(all)[path]);
        assert(!ieee::is_nan(all[c].1->Ok_0.artifacts@[i].drift));
    }
}

/// Of a file that stands in several fleets, the loudest departure is kept.
pub proof fn loudest_departure_is_kept(
    all: Seq<Checked>,
    c: int,
    i: int,
    path: Seq<char>,
    d: DivergenceModel,
)
    requires
        measured(all),
        departs(all, c, i, path, d),
    ensures
        departures_of(all).contains_key(path),
        !louder(d, departures_of(all)[path]),
    decreases all.len(),
{
    let front = all.drop_last();
    let last = all.last();
    let r = last.1->Ok_0;
    assert(measured(front)) by {
        assert forall|x: int, y: int|
            0 <= x < front.len() && accepted(front[x]) && 0 <= y
                < front[x].1->Ok_0.artifacts@.len() implies !ieee::is_nan(
            (#[trigger] front[x].1->Ok_0.artifacts@[y]).drift,
        ) by {
            assert(front[x] == all[x]);
            assert(!ieee::is_nan(all[x].1->Ok_0.artifacts@[y].drift));
        }
    }
    lemma_all_numbers(front, path);
    if accepted(last) {
        assert forall|y: int| 0 <= y < r.artifacts@.len() implies !ieee::is_nan(
            (#[trigger] r.artifacts@[y]).drift,
        ) by {
            assert(all[all.len() - 1].1->Ok_0.artifacts@[y] == r.artifacts@[y]);
        }
    }
    if c == all.len() - 1 {
        lemma_loudest(departures_of(front), last.0, r, r.artifacts@.len(), i);
    } else {
        assert(front[c] == all[c]);
        assert(departs(front, c, i, path, d));
        loudest_departure_is_kept(front, c, i, path, d);
        assert(!ieee::is_nan(all[c].1->Ok_0.artifacts@[i].drift));
        if accepted(last) {
            lemma_stays(departures_of(front), last.0, r, r.artifacts@.len(), path, d);
        }
    }
}

// ---- what is said of a file ------------------------------------------

/// A fleet counts where it has a report whose files share something and whose
/// mean drift is not 0.95 or more.
pub open spec fn counts(c: Checked) -> bool {
    &&& c.1 is Ok
    &&& c.1->Ok_0.consensus.universal > 0
    &&& !ieee::at_least(c.1->Ok_0.drift.mean, 0x3fee_6666_6666_6666)
}

/// Everything that is said of a file is said by one artifact of one fleet that
/// counts: the artifact has the file's path, and fleet, label, drift and the
/// mark of an outlier are the fleet's and the artifact's own. The keys are
/// those findings of that report of which the artifact holds an outvoted
/// value, and the faction is one of that report's that lists it.
pub proof fn departures_tell_of_one_artifact(all: Seq<Checked>, path: Seq<char>)
    requires
        departures_of(all).contains_key(path),
    ensures
        exists|c: int, i: int|
            0 <= c < all.len() && counts(all[c]) && 0 <= i < all[c].1->Ok_0.artifacts@.len() && (
            #[trigger] all[c].1->Ok_0.artifacts@[i]).path@ == path && {
                let d = departures_of(all)[path];
                let r = all[c].1->Ok_0;
                &&& d.fleet == all[c].0.id@
                &&& d.fleet_label == all[c].0.label@
                &&& d.drift == r.artifacts@[i].drift
                &&& d.outlier == r.artifacts@[i].outlier
                &&& forall|k: Seq<char>| #[trigger]
                    d.deviant_keys.contains(k) <==> departs_on(r, i, k)
                &&& d.faction_size matches Some(n) ==> exists|f: int|
                    0 <= f < r.factions@.len() && (
                    #[trigger] r.factions@[f]).members@.contains(i as usize) && r.factions@[f].size
                        == n
                &&& d.faction_size is None ==> forall|f: int|
                    0 <= f < r.factions@.len() ==> !(
                    #[trigger] r.factions@[f]).members@.contains(i as usize)
            },
{
    departures_are_found(all, path);
    let d = departures_of(all)[path];
    let (c, i) = choose|c: int, i: int| #[trigger] departs(all, c, i, path, d);
    let r = all[c].1->Ok_0;
    wtd::faction_lists_its_artifact(r.factions@, i as usize);
    assert forall|k: Seq<char>| #[trigger] d.deviant_keys.contains(k) <==> departs_on(r, i, k) by {
        lemma_departs_on(r, i, k);
    }
    assert(all[c].1->Ok_0.artifacts@[i].path@ == path);
}

/// The artifact holds a value of the key that another value outvotes, and the
/// key is a finding.
pub open spec fn departs_on(r: WtdReport, i: int, k: Seq<char>) -> bool {
    exists|x: int, j: int|
        0 <= x < r.conflicts@.len() && r.conflicts@[x].key@ == k && wtd::actionable(
            r.conflicts@[x],
        ) && 0 <= j < r.conflicts@[x].values@.len() && wtd::outvoted(r.conflicts@[x], j) && (
        #[trigger] r.conflicts@[x].values@[j]).artifacts@.contains(i as usize)
}

proof fn lemma_departs_on(r: WtdReport, i: int, k: Seq<char>)
    ensures
        sorted_map::in_key_order(wtd::deviant_set(findings(r), i as usize)).contains(k)
            <==> departs_on(r, i, k),
{
    broadcast use vstd::seq_lib::group_filter_ensures;

    let keep = |c: Conflict| wtd::actionable(c);
    let fs = findings(r);
    wtd::deviant_keys_are_outvoted(fs, i as usize, k);
    if sorted_map::in_key_order(wtd::deviant_set(fs, i as usize)).contains(k) {
        let (c, j) = choose|c: int, j: int|
            0 <= c < fs.len() && fs[c].key@ == k && 0 <= j < fs[c].values@.len() && wtd::outvoted(
                fs[c],
                j,
            ) && (#[trigger] fs[c].values@[j]).artifacts@.contains(i as usize);
        assert(keep(fs[c]));
        assert(fs.contains(fs[c]));
        r.conflicts@.lemma_filter_contains_rev(keep, fs[c]);
        let x = r.conflicts@.index_of(fs[c]);
        assert(r.conflicts@[x].values@[j].artifacts@.contains(i as usize));
    }
    if departs_on(r, i, k) {
        let (x, j) = choose|x: int, j: int|
            0 <= x < r.conflicts@.len() && r.conflicts@[x].key@ == k && wtd::actionable(
                r.conflicts@[x],
            ) && 0 <= j < r.conflicts@[x].values@.len() && wtd::outvoted(r.conflicts@[x], j) && (
            #[trigger] r.conflicts@[x].values@[j]).artifacts@.contains(i as usize);
        assert(keep(r.conflicts@[x]));
        assert(fs.contains(r.conflicts@[x]));
        let c = fs.index_of(r.conflicts@[x]);
        assert(fs[c].values@[j].artifacts@.contains(i as usize));
    }
}

/// A file that no report marks as an outlier is not said to be one, and one
/// that every report marks is.
pub proof fn outliers_are_marked(all: Seq<Checked>, path: Seq<char>)
    requires
        departures_of(all).contains_key(path),
    ensures
        (forall|c: int, i: int|
            0 <= c < all.len() && all[c].1 is Ok && 0 <= i < all[c].1->Ok_0.artifacts@.len() && (
            #[trigger] all[c].1->Ok_0.artifacts@[i]).path@ == path
                ==> !all[c].1->Ok_0.artifacts@[i].outlier) ==> !departures_of(all)[path].outlier,
        (forall|c: int, i: int|
            0 <= c < all.len() && all[c].1 is Ok && 0 <= i < all[c].1->Ok_0.artifacts@.len() && (
            #[trigger] all[c].1->Ok_0.artifacts@[i]).path@ == path
                ==> all[c].1->Ok_0.artifacts@[i].outlier) ==> departures_of(all)[path].outlier,
{
    departures_tell_of_one_artifact(all, path);
    let (c, i) = choose|c: int, i: int|
        0 <= c < all.len() && counts(all[c]) && 0 <= i < all[c].1->Ok_0.artifacts@.len() && (
        #[trigger] all[c].1->Ok_0.artifacts@[i]).path@ == path && departures_of(all)[path].outlier
            == all[c].1->Ok_0.artifacts@[i].outlier;
    assert(all[c].1->Ok_0.artifacts@[i].path@ == path);
}

/// Every artifact of a fleet that counts is heard: something is said of its
/// path, with no fewer keys than the artifact departs on, and with no lesser
/// drift where the keys are as many.
pub proof fn every_artifact_is_heard(all: Seq<Checked>, c: int, i: int)
    requires
        measured(all),
        0 <= c < all.len(),
        counts(all[c]),
        0 <= i < all[c].1->Ok_0.artifacts@.len(),
    ensures
        ({
            let r = all[c].1->Ok_0;
            let path = r.artifacts@[i].path@;
            let own = departure(all[c].0, r, i).deviant_keys;
            &&& departures_of(all).contains_key(path)
            &&& departures_of(all)[path].deviant_keys.len() >= own.len()
            &&& departures_of(all)[path].deviant_keys.len() == own.len() ==> ieee::at_least(
                departures_of(all)[path].drift,
                r.artifacts@[i].drift,
            )
            &&& sorted_map::ascending(own)
            &&& forall|k: Seq<char>| #[trigger] own.contains(k) <==> departs_on(r, i, k)
        }),
{
    let r = all[c].1->Ok_0;
    let path = r.artifacts@[i].path@;
    let d = departure(all[c].0, r, i);
    assert(departs(all, c, i, path, d));
    loudest_departure_is_kept(all, c, i, path, d);
    lemma_all_numbers(all, path);
    assert(!ieee::is_nan(all[c].1->Ok_0.artifacts@[i].drift));
    assert forall|k: Seq<char>| #[trigger] d.deviant_keys.contains(k) <==> departs_on(r, i, k) by {
        lemma_departs_on(r, i, k);
    }
    wtd::deviant_keys_are_outvoted(findings(r), i as usize, path);
}

/// Where the departure of the last of some artifacts was put in, it was louder
/// than what stood there.
proof fn lemma_put_in(
    m: Map<Seq<char>, DivergenceModel>,
    f: Fleet,
    r: WtdReport,
    n: nat,
    path: Seq<char>,
) -> (i: int)
    requires
        n <= r.artifacts@.len(),
        with_artifacts(m, f, r, n).contains_key(path),
    ensures
        i == -1 ==> m.contains_key(path) && with_artifacts(m, f, r, n)[path] == m[path],
        i != -1 ==> {
            let before = with_artifacts(m, f, r, i as nat);
            &&& 0 <= i < n
            &&& r.artifacts@[i].path@ == path
            &&& with_artifacts(m, f, r, n)[path] == departure(f, r, i)
            &&& before.contains_key(path) ==> louder(departure(f, r, i), before[path])
        },
    decreases n,
{
    if n == 0 {
        -1
    } else {
        let k = (n - 1) as nat;
        let before = with_artifacts(m, f, r, k);
        let d = departure(f, r, n - 1);
        if r.artifacts@[n - 1].path@ == path && !(before.contains_key(path) && !louder(
            d,
            before[path],
        )) {
            n - 1
        } else {
            lemma_put_in(m, f, r, k, path)
        }
    }
}

/// Of equally loud departures the first stays: what is kept has more keys than
/// every earlier departure of the file, or as many and a greater drift.
pub proof fn first_of_the_loudest_is_kept(all: Seq<Checked>, path: Seq<char>) -> (at: (int, int))
    requires
        measured(all),
        departures_of(all).contains_key(path),
    ensures
        departs(all, at.0, at.1, path, departures_of(all)[path]),
        forall|c: int, i: int, d: DivergenceModel| #[trigger]
            departs(all, c, i, path, d) && (c < at.0 || c == at.0 && i < at.1) ==> {
                let kept = departures_of(all)[path];
                ||| kept.deviant_keys.len() > d.deviant_keys.len()
                ||| kept.deviant_keys.len() == d.deviant_keys.len() && ieee::greater(
                    kept.drift,
                    d.drift,
                )
            },
    decreases all.len(),
{
    let front = all.drop_last();
    let last = all.last();
    let n = all.len() - 1;
    let kept = departures_of(all)[path];
    assert(measured(front)) by {
        assert forall|x: int, y: int|
            0 <= x < front.len() && accepted(front[x]) && 0 <= y
                < front[x].1->Ok_0.artifacts@.len() implies !ieee::is_nan(
            (#[trigger] front[x].1->Ok_0.artifacts@[y]).drift,
        ) by {
            assert(front[x] == all[x]);
            assert(!ieee::is_nan(all[x].1->Ok_0.artifacts@[y].drift));
        }
    }
    let r = last.1->Ok_0;
    let i = if accepted(last) {
        lemma_put_in(departures_of(front), last.0, r, r.artifacts@.len(), path)
    } else {
        -1
    };
    if i == -1 {
        let at = first_of_the_loudest_is_kept(front, path);
        assert(front[at.0] == all[at.0]);
        assert forall|c: int, y: int, d: DivergenceModel| #[trigger]
            departs(all, c, y, path, d) && (c < at.0 || c == at.0 && y < at.1) implies {
            ||| kept.deviant_keys.len() > d.deviant_keys.len()
            ||| kept.deviant_keys.len() == d.deviant_keys.len() && ieee::greater(
                kept.drift,
                d.drift,
            )
        } by {
            assert(front[c] == all[c]);
            assert(departs(front, c, y, path, d));
        }
        at
    } else {
        let before = with_artifacts(departures_of(front), last.0, r, i as nat);
        assert forall|y: int| 0 <= y < r.artifacts@.len() implies !ieee::is_nan(
            (#[trigger] r.artifacts@[y]).drift,
        ) by {
            assert(all[n].1->Ok_0.artifacts@[y] == r.artifacts@[y]);
        }
        lemma_all_numbers(front, path);
        assert forall|c: int, y: int, d: DivergenceModel| #[trigger]
            departs(all, c, y, path, d) && (c < n || c == n && y < i) implies {
            ||| kept.deviant_keys.len() > d.deviant_keys.len()
            ||| kept.deviant_keys.len() == d.deviant_keys.len() && ieee::greater(
                kept.drift,
                d.drift,
            )
        } by {
            assert(!ieee::is_nan(all[c].1->Ok_0.artifacts@[y].drift));
            if c == n {
                lemma_loudest(departures_of(front), last.0, r, i as nat, y);
            } else {
                assert(front[c] == all[c]);
                assert(departs(front, c, y, path, d));
                loudest_departure_is_kept(front, c, y, path, d);
                lemma_stays(departures_of(front), last.0, r, i as nat, path, d);
            }
        }
        assert(departs(all, n, i, path, kept));
        (n, i)
    }
}

/// The failed fleets are told of in the order in which they came, each by its
/// own id and with its own message, and so are the sets of files that are no
/// fleet, with their id, their label, the number of their members and why.
pub proof fn refusals_are_told_as_they_came(all: Seq<Checked>)
    ensures
        errors_of(all) == ranking::places(all.len(), |k: int| all[k].1 is Err).map_values(
            |k: int| (all[k].0.id@, (all[k].1->Err_0)@),
        ),
        rejected_of(all) == ranking::places(
            all.len(),
            |k: int| all[k].1 is Ok && !counts(all[k]),
        ).map_values(
            |k: int|
                RejectedModel {
                    id: all[k].0.id@,
                    label: all[k].0.label@,
                    members: all[k].0.members@.len(),
                    reason: wtd::verdict(all[k].1->Ok_0)->0,
                },
        ),
    decreases all.len(),
{
    let failed = |k: int| all[k].1 is Err;
    let error = |k: int| (all[k].0.id@, (all[k].1->Err_0)@);
    let refused = |k: int| all[k].1 is Ok && !counts(all[k]);
    let refusal = |k: int|
        RejectedModel {
            id: all[k].0.id@,
            label: all[k].0.label@,
            members: all[k].0.members@.len(),
            reason: wtd::verdict(all[k].1->Ok_0)->0,
        };
    if all.len() > 0 {
        let front = all.drop_last();
        let n = front.len();
        refusals_are_told_as_they_came(front);
        let failed0 = |k: int| front[k].1 is Err;
        let error0 = |k: int| (front[k].0.id@, (front[k].1->Err_0)@);
        let refused0 = |k: int| front[k].1 is Ok && !counts(front[k]);
        let refusal0 = |k: int|
            RejectedModel {
                id: front[k].0.id@,
                label: front[k].0.label@,
                members: front[k].0.members@.len(),
                reason: wtd::verdict(front[k].1->Ok_0)->0,
            };
        ranking::places_agree(n, failed0, failed);
        ranking::places_agree(n, refused0, refused);
        let a = ranking::places(n, failed0);
        let b = ranking::places(n, refused0);
        ranking::places_are_exact(n, failed0);
        ranking::places_are_exact(n, refused0);
        assert forall|i: int| 0 <= i < a.len() implies error0(#[trigger] a[i]) == error(a[i]) by {
            assert(a.contains(a[i]));
        }
        assert forall|i: int| 0 <= i < b.len() implies refusal0(#[trigger] b[i]) == refusal(
            b[i],
        ) by {
            assert(b.contains(b[i]));
        }
        assert(a.map_values(error0) =~= a.map_values(error));
        assert(b.map_values(refusal0) =~= b.map_values(refusal));
        assert(failed(n as int) <==> all.last().1 is Err);
        assert(refused(n as int) <==> all.last().1 is Ok && wtd::verdict(all.last().1->Ok_0)
            is Some);
        assert(ranking::places(all.len(), failed).map_values(error) =~= errors_of(all));
        assert(ranking::places(all.len(), refused).map_values(refusal) =~= rejected_of(all));
    } else {
        assert(errors_of(all) =~= ranking::places(0, failed).map_values(error));
        assert(rejected_of(all) =~= ranking::places(0, refused).map_values(refusal));
    }
}

/// The fleet with more findings comes first; of two with as many, that with
/// more factions; of two with as many of both, that with the lesser id.
pub proof fn loudest_fleets_come_first(rs: Seq<FleetResult>, i: int, j: int)
    requires
        0 <= i < j < rs.len(),
    ensures
        ({
            let all = ranking::ranked(rs, ranking::by_rank::<FleetResult>());
            let a = all[i];
            let b = all[j];
            &&& a.report.conflicts@.len() >= b.report.conflicts@.len()
            &&& a.report.conflicts@.len() == b.report.conflicts@.len()
                ==> a.report.factions@.len() >= b.report.factions@.len()
            &&& a.report.conflicts@.len() == b.report.conflicts@.len()
                && a.report.factions@.len() == b.report.factions@.len()
                ==> !order::text_less(b.fleet.id@, a.fleet.id@)
        }),
{
    let leq = ranking::by_rank::<FleetResult>();
    ranking::by_rank_is_total_preorder::<FleetResult>();
    ranking::ranked_is_ordered(rs, leq);
    ranking::ranked_keeps_items(rs, leq);
    let all = ranking::ranked(rs, leq);
    assert(leq(all[i], all[j]));
    assert(all[i].leq(all[j]));
    let x = all[i].fleet.id@;
    let y = all[j].fleet.id@;
    order::text_less_irreflexive(x);
    if order::text_less(x, y) && order::text_less(y, x) {
        order::text_less_transitive(x, y, x);
    }
}

/// A fleet that counts keeps its report, of which the conflicts that are no
/// findings are left out and counted.
pub proof fn results_keep_their_reports(r: FleetResult, c: Checked, x: Conflict)
    requires
        is_result(r, c),
    ensures
        accepted(c) <==> counts(c),
        r.fleet == c.0,
        r.report.artifacts == c.1->Ok_0.artifacts,
        r.report.factions == c.1->Ok_0.factions,
        r.report.consensus == c.1->Ok_0.consensus,
        r.report.corpus == c.1->Ok_0.corpus,
        r.report.drift == c.1->Ok_0.drift,
        r.report.conflicts@.contains(x) <==> c.1->Ok_0.conflicts@.contains(x) && wtd::actionable(x),
        r.identifier_keys_suppressed + r.report.conflicts@.len() == c.1->Ok_0.conflicts@.len(),
{
    broadcast use vstd::seq_lib::group_filter_ensures;

    let keep = |y: Conflict| wtd::actionable(y);
    let all = c.1->Ok_0.conflicts@;
    if all.contains(x) && wtd::actionable(x) {
        assert(keep(x));
    }
    if all.filter(keep).contains(x) {
        let i = all.filter(keep).index_of(x);
        assert(keep(all.filter(keep)[i]));
        all.lemma_filter_contains_rev(keep, x);
    }
}

/// As values, a departure, a refused set and a failure are their own fields.
pub proof fn values_are_own_fields(d: PathDivergence, r: RejectedFleet, e: FleetError)
    ensures
        d@.fleet == d.fleet@,
        d@.fleet_label == d.fleet_label@,
        d@.drift == d.drift,
        d@.outlier == d.outlier,
        d@.deviant_keys == d.deviant_keys@.map_values(|k: String| k@),
        d@.faction_size == d.faction_size,
        r@.id == r.id@,
        r@.label == r.label@,
        r@.members == r.members,
        r@.reason == r.reason@,
        e@ == (e.fleet@, e.message@),
{
}

/// What is said of each path is said under that path.
pub proof fn departures_stand_under_their_paths(m: Map<Seq<char>, PathDivergence>, p: Seq<char>)
    ensures
        departure_models(m).contains_key(p) <==> m.contains_key(p),
        m.contains_key(p) ==> departure_models(m)[p] == m[p]@,
{
}

} // verus!
