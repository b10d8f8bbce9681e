//! What `wtd` reports of a fleet, and what of it is a finding.
//!
//! Measures stand as the bits of double-precision numbers.

use vstd::prelude::*;
use vstd::string::*;

use crate::ieee;
use crate::sorted_map;
use crate::sorted_map::SortedMap;
use crate::text;
use crate::text::{decimal_string, trimmed};

verus! {

/// The part of a report that is used.
#[derive(Clone, Debug)]
pub struct WtdReport {
    pub corpus: Corpus,
    pub consensus: Consensus,
    pub drift: DriftStats,
    pub conflicts: Vec<Conflict>,
    pub factions: Vec<Faction>,
    pub artifacts: Vec<WtdArtifact>,
}

#[derive(Clone, Debug)]
pub struct Corpus {
    pub artifacts: u32,
    pub distinct_primitives: u32,
    pub observations: u32,
    pub skipped: u32,
}

#[derive(Clone, Debug)]
pub struct Consensus {
    pub universal: u32,
    pub majority: u32,
    pub minority: u32,
    pub unique: u32,
    pub core_size: u32,
}

#[derive(Clone, Debug)]
pub struct DriftStats {
    /// Bits of the mean drift.
    pub mean: u64,
    /// Bits of its standard deviation.
    pub stddev: u64,
    /// The mean in percent, rounded to a whole number and written out.
    pub mean_percent: String,
}

/// A key on which artifacts disagree.
#[derive(Clone, Debug)]
pub struct Conflict {
    pub key: String,
    pub holders: u32,
    pub deviants: u32,
    pub values: Vec<ConflictValue>,
}

/// One value of such a key, and the artifacts that hold it.
#[derive(Clone, Debug)]
pub struct ConflictValue {
    pub value: String,
    pub count: u32,
    pub artifacts: Vec<usize>,
}

/// Artifacts that drifted together.
#[derive(Clone, Debug)]
pub struct Faction {
    pub size: u32,
    pub members: Vec<usize>,
    pub member_paths: Vec<String>,
    /// Bits of the cohesion.
    pub cohesion: u64,
    /// The signature's entries, each as JSON text.
    pub signature: Vec<String>,
}

#[derive(Clone, Debug)]
pub struct WtdArtifact {
    pub path: String,
    pub kind: String,
    /// Bits of the drift.
    pub drift: u64,
    pub outlier: bool,
    pub primitives: u32,
    pub in_core: u32,
    pub unique: u32,
}

/// The place of the value with the greatest count, the last of several.
pub open spec fn majority(values: Seq<ConflictValue>) -> int
    decreases values.len(),
{
    if values.len() <= 1 {
        0
    } else {
        let m = majority(values.drop_last());
        if values.last().count >= values[m].count {
            values.len() - 1
        } else {
            m
        }
    }
}

/// No value counts more than the majority, and none behind it as much.
pub proof fn majority_is_last_greatest(values: Seq<ConflictValue>)
    requires
        values.len() > 0,
    ensures
        0 <= majority(values) < values.len(),
        forall|i: int|
            0 <= i < values.len() ==> (#[trigger] values[i]).count <= values[majority(
                values,
            )].count,
        forall|i: int|
            majority(values) < i < values.len() ==> (#[trigger] values[i]).count < values[majority(
                values,
            )].count,
    decreases values.len(),
{
    if values.len() > 1 {
        let t = values.drop_last();
        majority_is_last_greatest(t);
        assert forall|i: int| 0 <= i < values.len() - 1 implies values[i] == #[trigger] t[i] by {}
        assert forall|i: int| 0 <= i < values.len() implies (#[trigger] values[i]).count
            <= values[majority(values)].count by {
            if i < values.len() - 1 {
                assert(values[i] == t[i]);
            }
        }
        assert forall|i: int| majority(values) < i < values.len() implies (
        #[trigger] values[i]).count < values[majority(values)].count by {
            if i < values.len() - 1 {
                assert(values[i] == t[i]);
            }
        }
    }
}

/// Some holders are not with the majority: not all of them hold its value, or
/// another one is held.
pub open spec fn departed_from(c: Conflict) -> bool {
    ||| c.values@[majority(c.values@)].count < c.holders
    ||| exists|j: int|
        0 <= j < c.values@.len() && j != majority(c.values@) && (#[trigger] c.values@[j]).count > 0
}

/// A key is actionable when the fleet has a position that some depart from: a
/// value that at least two artifacts and three tenths of the holders have, but
/// not everyone. An identifier varies by nature and has none.
pub open spec fn actionable(c: Conflict) -> bool {
    &&& c.values@.len() > 0
    &&& c.values@[majority(c.values@)].count >= 2
    &&& c.holders != 0
    &&& 10 * c.values@[majority(c.values@)].count >= 3 * c.holders
    &&& departed_from(c)
}

fn majority_place(values: &Vec<ConflictValue>) -> (r: usize)
    requires
        values@.len() > 0,
    ensures
        r == majority(values@),
        r < values@.len(),
{
    let mut best: usize = 0;
    let mut i: usize = 1;
    assert(values@.take(1).len() == 1);
    while i < values.len()
        invariant
            1 <= i <= values@.len(),
            best < i,
            best == majority(values@.take(i as int)),
        decreases values@.len() - i,
    {
        assert(values@.take(i + 1).drop_last() =~= values@.take(i as int));
        if values[i].count >= values[best].count {
            best = i;
        }
        i = i + 1;
    }
    assert(values@.take(i as int) =~= values@);
    best
}

/// Whether some value other than that at `place` is held.
fn another_is_held(values: &Vec<ConflictValue>, place: usize) -> (r: bool)
    ensures
        r == exists|j: int|
            0 <= j < values@.len() && j != place && (#[trigger] values@[j]).count > 0,
{
    let mut i: usize = 0;
    while i < values.len()
        invariant
            i <= values@.len(),
            forall|j: int| 0 <= j < i && j != place ==> (#[trigger] values@[j]).count == 0,
        decreases values@.len() - i,
    {
        if i != place && values[i].count > 0 {
            assert(values@[i as int].count > 0);
            return true;
        }
        i = i + 1;
    }
    false
}

/// Is this key a genuine disagreement, or just an identifier?
pub fn is_actionable_conflict(c: &Conflict) -> (r: bool)
    ensures
        r == actionable(*c),
{
    if c.values.len() == 0 {
        return false;
    }
    let place: usize = majority_place(&c.values);
    let count: u32 = c.values[place].count;
    if count < 2 || c.holders == 0 {
        return false;
    }
    let departed: bool = count < c.holders || another_is_held(&c.values, place);
    10 * (count as u64) >= 3 * (c.holders as u64) && departed
}

/// Bits of 0.95.
pub const UNRELATED_DRIFT: u64 = 0x3fee_6666_6666_6666;

/// Why the files are no fleet, if they are none: without a primitive that all
/// of them have, or with almost everything unshared, there is no agreement to
/// measure against.
pub open spec fn verdict(r: WtdReport) -> Option<Seq<char>> {
    if r.consensus.universal == 0 {
        Some(
            "these "@ + text::decimal(r.corpus.artifacts as nat)
                + " files have nothing in common, so there is no agreement to measure against"@,
        )
    } else if ieee::at_least(r.drift.mean, UNRELATED_DRIFT) {
        Some(
            "these files are almost entirely different from one another ("@
                + r.drift.mean_percent@
                + "% unshared) — they are not versions of the same thing"@,
        )
    } else {
        None
    }
}

/// Why the files of a report are no fleet, if they are none.
pub fn consensus_verdict(r: &WtdReport) -> (reason: Option<String>)
    ensures
        match reason {
            Some(t) => verdict(*r) == Some(t@),
            None => verdict(*r) is None,
        },
{
    if r.consensus.universal == 0 {
        let mut t = "these ".to_owned();
        t.append(decimal_string(r.corpus.artifacts as usize).as_str());
        t.append(" files have nothing in common, so there is no agreement to measure against");
        return Some(t);
    }
    if ieee::is_at_least(r.drift.mean, UNRELATED_DRIFT) {
        let mut t = "these files are almost entirely different from one another (".to_owned();
        t.append(r.drift.mean_percent.as_str());
        t.append("% unshared) — they are not versions of the same thing");
        return Some(t);
    }
    None
}

/// A signed number in decimal notation.
pub open spec fn signed_decimal(n: int) -> Seq<char> {
    if n < 0 {
        "-"@ + text::decimal((-n) as nat)
    } else {
        text::decimal(n as nat)
    }
}

/// What is said of a run that failed; a run that ended by a signal has no
/// code. Code three says that drift was above a limit, and is no failure.
pub open spec fn run_failure(
    success: bool,
    code: Option<i32>,
    stderr: Seq<char>,
) -> Option<Seq<char>> {
    if success || code == Some(3i32) {
        None
    } else {
        let c = match code {
            Some(c) => c as int,
            None => -1,
        };
        Some("wtd exited "@ + signed_decimal(c) + ": "@ + text::trim(stderr))
    }
}

/// What a run of `wtd` failed with, if it did.
pub fn wtd_failure(success: bool, code: Option<i32>, stderr: &str) -> (r: Option<String>)
    ensures
        match r {
            Some(t) => run_failure(success, code, stderr@) == Some(t@),
            None => run_failure(success, code, stderr@) is None,
        },
{
    if success {
        return None;
    }
    let c: i32 = match code {
        Some(c) => c,
        None => -1,
    };
    if c == 3 {
        return None;
    }
    let mut t = "wtd exited ".to_owned();
    if c < 0 {
        t.append("-");
        let m: i64 = -(c as i64);
        t.append(decimal_string(m as usize).as_str());
    } else {
        t.append(decimal_string(c as usize).as_str());
    }
    t.append(": ");
    t.append(trimmed(stderr).as_str());
    assert(t@ =~= run_failure(success, code, stderr@)->0);
    Some(t)
}

/// An artifact holds a value of the key that is not the majority's.
pub open spec fn holds_minority(c: Conflict, artifact: usize) -> bool {
    exists|j: int|
        0 <= j < c.values@.len() && j != majority(c.values@) && (
        #[trigger] c.values@[j]).artifacts@.contains(artifact)
}

/// The keys on which an artifact holds a minority value.
pub open spec fn deviant_set(conflicts: Seq<Conflict>, artifact: usize) -> Set<Seq<char>> {
    Set::new(
        |k: Seq<char>|
            exists|c: int|
                0 <= c < conflicts.len() && (#[trigger] conflicts[c]).key@ == k && holds_minority(
                    conflicts[c],
                    artifact,
                ),
    )
}

fn lists_artifact(v: &Vec<usize>, artifact: usize) -> (r: bool)
    ensures
        r == v@.contains(artifact),
{
    let mut i: usize = 0;
    while i < v.len()
        invariant
            i <= v@.len(),
            forall|k: int| 0 <= k < i ==> v@[k] != artifact,
        decreases v@.len() - i,
    {
        if v[i] == artifact {
            return true;
        }
        i = i + 1;
    }
    false
}

fn is_minority_holder(c: &Conflict, artifact: usize) -> (r: bool)
    ensures
        r == holds_minority(*c, artifact),
{
    if c.values.len() == 0 {
        return false;
    }
    let m: usize = majority_place(&c.values);
    let mut j: usize = 0;
    while j < c.values.len()
        invariant
            j <= c.values@.len(),
            m == majority(c.values@),
            forall|k: int|
                0 <= k < j && k != m ==> !(#[trigger] c.values@[k]).artifacts@.contains(artifact),
        decreases c.values@.len() - j,
    {
        if j != m && lists_artifact(&c.values[j].artifacts, artifact) {
            return true;
        }
        j = j + 1;
    }
    false
}

/// The keys on which an artifact holds a minority value, each once and in
/// order: an array-valued key may put it in several minorities at once.
pub fn deviant_keys(conflicts: &Vec<Conflict>, artifact: usize) -> (r: Vec<String>)
    ensures
        sorted_map::texts(r@) == sorted_map::in_key_order(deviant_set(conflicts@, artifact)),
        sorted_map::ascending(sorted_map::texts(r@)),
        sorted_map::texts(r@).to_set() == deviant_set(conflicts@, artifact),
{
    let mut keys: SortedMap<()> = SortedMap::new();
    let mut i: usize = 0;
    assert(keys@.dom() =~= deviant_set(conflicts@.take(0), artifact));
    while i < conflicts.len()
        invariant
            i <= conflicts@.len(),
            keys.wf(),
            keys@.dom() == deviant_set(conflicts@.take(i as int), artifact),
        decreases conflicts@.len() - i,
    {
        let ghost k0 = conflicts@[i as int].key@;
        let holds = is_minority_holder(&conflicts[i], artifact);
        if holds {
            keys.put(conflicts[i].key.as_str(), ());
        }
        proof {
            let s0 = conflicts@.take(i as int);
            let s1 = conflicts@.take(i + 1);
            assert forall|k: Seq<char>| #[trigger] deviant_set(s1, artifact).contains(k)
                <==> deviant_set(s0, artifact).contains(k) || (holds && k == k0) by {
                if deviant_set(s0, artifact).contains(k) {
                    let c = choose|c: int|
                        0 <= c < s0.len() && (#[trigger] s0[c]).key@ == k && holds_minority(
                            s0[c],
                            artifact,
                        );
                    assert(s1[c] == s0[c]);
                }
                assert(s1[i as int] == conflicts@[i as int]);
                if deviant_set(s1, artifact).contains(k) {
                    let c = choose|c: int|
                        0 <= c < s1.len() && (#[trigger] s1[c]).key@ == k && holds_minority(
                            s1[c],
                            artifact,
                        );
                    if c < i {
                        assert(s0[c] == s1[c]);
                    }
                }
            }
            assert(keys@.dom() =~= deviant_set(s1, artifact));
        }
        i = i + 1;
    }
    assert(conflicts@.take(i as int) =~= conflicts@);
    proof {
        keys.wf_keys();
        keys.wf_key_order();
    }
    keys.key_list()
}

/// The size of the last faction that an artifact belongs to.
pub open spec fn faction_of(factions: Seq<Faction>, artifact: usize) -> Option<u32>
    decreases factions.len(),
{
    if factions.len() == 0 {
        None
    } else if factions.last().members@.contains(artifact) {
        Some(factions.last().size)
    } else {
        faction_of(factions.drop_last(), artifact)
    }
}

/// The size of the last faction that an artifact belongs to.
pub fn faction_size(factions: &Vec<Faction>, artifact: usize) -> (r: Option<u32>)
    ensures
        r == faction_of(factions@, artifact),
{
    let mut i: usize = factions.len();
    assert(factions@.take(i as int) =~= factions@);
    while i > 0
        invariant
            i <= factions@.len(),
            faction_of(factions@, artifact) == faction_of(factions@.take(i as int), artifact),
        decreases i,
    {
        assert(factions@.take(i as int).drop_last() =~= factions@.take(i - 1));
        if lists_artifact(&factions[i - 1].members, artifact) {
            return Some(factions[i - 1].size);
        }
        i = i - 1;
    }
    None
}

// ---- what a conflict says --------------------------------------------

/// Another value of the key counts more, or as much and stands behind.
pub open spec fn outvoted(c: Conflict, j: int) -> bool {
    exists|i: int|
        0 <= i < c.values@.len() && i != j && ((#[trigger] c.values@[i]).count
            > c.values@[j].count || (i > j && c.values@[i].count == c.values@[j].count))
}

/// Only the majority is not outvoted.
proof fn lemma_majority_wins(c: Conflict, j: int)
    requires
        0 <= j < c.values@.len(),
    ensures
        outvoted(c, j) <==> j != majority(c.values@),
{
    majority_is_last_greatest(c.values@);
    let m = majority(c.values@);
    if j != m {
        assert(c.values@[m].count >= c.values@[j].count);
        assert(j > m ==> c.values@[j].count < c.values@[m].count);
    }
}

/// A key is a finding exactly where one value is held by two artifacts or more
/// and by three holders in ten, where no other value outvotes it, and where
/// somebody is not with it.
pub proof fn findings_have_a_position(c: Conflict, m: int)
    requires
        0 <= m < c.values@.len(),
        !outvoted(c, m),
    ensures
        actionable(c) <==> c.holders > 0 && c.values@[m].count >= 2 && c.values@[m].count * 10
            >= c.holders * 3 && (c.values@[m].count < c.holders || exists|j: int|
            0 <= j < c.values@.len() && j != m && (#[trigger] c.values@[j]).count != 0),
{
    lemma_majority_wins(c, m);
}

/// Without values there is no finding.
pub proof fn findings_have_values(c: Conflict)
    requires
        actionable(c),
    ensures
        exists|m: int| 0 <= m < c.values@.len() && !#[trigger] outvoted(c, m),
{
    majority_is_last_greatest(c.values@);
    lemma_majority_wins(c, majority(c.values@));
}

/// The keys on which an artifact departs are those of which it holds a value
/// that another one outvotes. Each stands once, in order.
pub proof fn deviant_keys_are_outvoted(conflicts: Seq<Conflict>, artifact: usize, k: Seq<char>)
    ensures
        sorted_map::ascending(sorted_map::in_key_order(deviant_set(conflicts, artifact))),
        sorted_map::in_key_order(deviant_set(conflicts, artifact)).contains(k) <==> exists|
            c: int,
            j: int,
        |
            0 <= c < conflicts.len() && conflicts[c].key@ == k && 0 <= j
                < conflicts[c].values@.len() && outvoted(conflicts[c], j) && (
            #[trigger] conflicts[c].values@[j]).artifacts@.contains(artifact),
{
    broadcast use vstd::seq_lib::group_filter_ensures;

    let s = deviant_set(conflicts, artifact);
    let keep = |c: Conflict| holds_minority(c, artifact);
    let some = conflicts.filter(keep);
    let ks = some.map_values(|c: Conflict| c.key@);
    assert forall|x: Seq<char>| #[trigger] s.contains(x) <==> ks.to_set().contains(x) by {
        if s.contains(x) {
            let c = choose|c: int|
                0 <= c < conflicts.len() && (#[trigger] conflicts[c]).key@ == x && holds_minority(
                    conflicts[c],
                    artifact,
                );
            assert(keep(conflicts[c]));
            assert(some.contains(conflicts[c]));
            let i = some.index_of(conflicts[c]);
            assert(ks[i] == x);
        }
        if ks.contains(x) {
            let i = ks.index_of(x);
            assert(keep(some[i]));
            assert(some.contains(some[i]));
            conflicts.lemma_filter_contains_rev(keep, some[i]);
            let c = conflicts.index_of(some[i]);
            assert(conflicts[c].key@ == x && holds_minority(conflicts[c], artifact));
        }
    }
    assert(s =~= ks.to_set());
    sorted_map::set_of_list_has_order(ks);
    let list = sorted_map::in_key_order(s);
    assert(list.to_set().contains(k) <==> list.contains(k));
    if s.contains(k) {
        let c = choose|c: int|
            0 <= c < conflicts.len() && (#[trigger] conflicts[c]).key@ == k && holds_minority(
                conflicts[c],
                artifact,
            );
        let j = choose|j: int|
            0 <= j < conflicts[c].values@.len() && j != majority(conflicts[c].values@) && (
            #[trigger] conflicts[c].values@[j]).artifacts@.contains(artifact);
        lemma_majority_wins(conflicts[c], j);
        assert(conflicts[c].values@[j].artifacts@.contains(artifact));
    }
    if exists|c: int, j: int|
        0 <= c < conflicts.len() && conflicts[c].key@ == k && 0 <= j < conflicts[c].values@.len()
            && outvoted(conflicts[c], j) && (
        #[trigger] conflicts[c].values@[j]).artifacts@.contains(artifact) {
        let (c, j) = choose|c: int, j: int|
            0 <= c < conflicts.len() && conflicts[c].key@ == k && 0 <= j
                < conflicts[c].values@.len() && outvoted(conflicts[c], j) && (
            #[trigger] conflicts[c].values@[j]).artifacts@.contains(artifact);
        lemma_majority_wins(conflicts[c], j);
        assert(holds_minority(conflicts[c], artifact));
        assert(conflicts[c].key@ == k);
    }
}

/// An artifact's faction is one that lists it, the last of several; it has none
/// only if no faction lists it.
pub proof fn faction_lists_its_artifact(factions: Seq<Faction>, artifact: usize)
    ensures
        match faction_of(factions, artifact) {
            Some(n) => exists|i: int|
                0 <= i < factions.len() && (#[trigger] factions[i]).members@.contains(artifact)
                    && factions[i].size == n && forall|j: int|
                    i < j < factions.len() ==> !(#[trigger] factions[j]).members@.contains(
                        artifact,
                    ),
            None => forall|i: int|
                0 <= i < factions.len() ==> !(#[trigger] factions[i]).members@.contains(artifact),
        },
    decreases factions.len(),
{
    if factions.len() > 0 {
        let front = factions.drop_last();
        if factions.last().members@.contains(artifact) {
            assert(factions[factions.len() - 1] == factions.last());
        } else {
            faction_lists_its_artifact(front, artifact);
            match faction_of(front, artifact) {
                Some(n) => {
                    let i = choose|i: int|
                        0 <= i < front.len() && (#[trigger] front[i]).members@.contains(artifact)
                            && front[i].size == n && forall|j: int|
                            i < j < front.len() ==> !(#[trigger] front[j]).members@.contains(
                                artifact,
                            );
                    assert(factions[i] == front[i]);
                    assert forall|j: int| i < j < factions.len() implies !(
                    #[trigger] factions[j]).members@.contains(artifact) by {
                        if j < front.len() {
                            assert(factions[j] == front[j]);
                        }
                    }
                },
                None => {
                    assert forall|i: int| 0 <= i < factions.len() implies !(
                    #[trigger] factions[i]).members@.contains(artifact) by {
                        if i < front.len() {
                            assert(factions[i] == front[i]);
                        }
                    }
                },
            }
        }
    }
}

/// Files are peers where all of them share something and their mean drift is
/// below 0.95, or is no number.
pub proof fn peers_share_something(r: WtdReport)
    ensures
        verdict(r) is None <==> r.consensus.universal > 0 && !ieee::at_least(
            r.drift.mean,
            0x3fee_6666_6666_6666,
        ),
{
}

/// A run failed unless it succeeded or ended with code three; a run without a
/// code is told of as code minus one.
pub proof fn failed_runs_are_told(success: bool, code: Option<i32>, stderr: Seq<char>)
    ensures
        run_failure(success, code, stderr) is None <==> success || code == Some(3i32),
        run_failure(success, None, stderr) == run_failure(success, Some(-1i32), stderr),
        run_failure(success, code, stderr) matches Some(t) ==> text::starts_with(
            t,
            "wtd exited "@,
        ) && text::ends_with(t, text::trim(stderr)),
{
    if let Some(t) = run_failure(success, code, stderr) {
        let a = "wtd exited "@;
        let e = text::trim(stderr);
        assert(t.subrange(0, a.len() as int) =~= a);
        assert(t.subrange(t.len() - e.len(), t.len() as int) =~= e);
    }
}

/// What is said of a failed run is its code in decimal notation, with a sign
/// where it is negative, and what the run printed without blanks around it.
pub proof fn failures_name_the_code(c: i32, stderr: Seq<char>)
    requires
        c != 3,
    ensures
        run_failure(false, Some(c), stderr) == Some(
            "wtd exited "@ + (if c < 0 {
                "-"@ + text::decimal((0 - c) as nat)
            } else {
                text::decimal(c as nat)
            }) + ": "@ + text::trim(stderr),
        ),
{
}

/// Files without anything in common are told so, with their number; files whose
/// drift is too great are told how much of them is not shared.
pub proof fn verdicts_say_why(r: WtdReport)
    ensures
        r.consensus.universal == 0 ==> verdict(r) == Some(
            "these "@ + text::decimal(r.corpus.artifacts as nat)
                + " files have nothing in common, so there is no agreement to measure against"@,
        ),
        r.consensus.universal > 0 && verdict(r) is Some ==> verdict(r) == Some(
            "these files are almost entirely different from one another ("@
                + r.drift.mean_percent@
                + "% unshared) — they are not versions of the same thing"@,
        ),
{
}

} // verus!
