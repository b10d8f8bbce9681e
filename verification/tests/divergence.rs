//! Conflicts, verdicts and departures.

use exsurvey::divergence::{analyze, Checked};
use exsurvey::fleets::Fleet;
use exsurvey::wtd::{
    consensus_verdict, deviant_keys, faction_size, is_actionable_conflict, wtd_failure, Conflict,
    ConflictValue, Consensus, Corpus, DriftStats, Faction, WtdArtifact, WtdReport,
};

fn conflict(holders: u32, counts: &[u32]) -> Conflict {
    Conflict {
        key: "k".into(),
        holders,
        deviants: holders - counts.iter().max().copied().unwrap_or(0),
        values: counts
            .iter()
            .enumerate()
            .map(|(i, &count)| ConflictValue {
                value: format!("v{i}"),
                count,
                artifacts: vec![i],
            })
            .collect(),
    }
}

#[test]
fn a_real_majority_with_deviants_is_actionable() {
    // log_level: info x3, debug x2 across 5 files.
    assert!(is_actionable_conflict(&conflict(5, &[3, 2])));
}

#[test]
fn identifier_fields_are_not_conflicts() {
    // 57 payer records, 55 distinct ids, best value held twice.
    let mut counts = vec![2, 2];
    counts.extend(std::iter::repeat_n(1, 53));
    assert!(!is_actionable_conflict(&conflict(57, &counts)));
}

#[test]
fn a_lone_deviant_against_a_clear_majority_is_actionable() {
    assert!(is_actionable_conflict(&conflict(12, &[11, 1])));
}

#[test]
fn an_even_three_way_split_still_counts() {
    assert!(is_actionable_conflict(&conflict(9, &[3, 3, 3])));
}

#[test]
fn a_singleton_majority_is_not_consensus() {
    assert!(!is_actionable_conflict(&conflict(2, &[1, 1])));
}

#[test]
fn the_share_is_taken_exactly() {
    // Three of ten is exactly the share that counts.
    assert!(is_actionable_conflict(&conflict(10, &[3])));
    assert!(!is_actionable_conflict(&conflict(11, &[3])));
    for holders in 1..400u32 {
        for count in 1..=holders.min(130) {
            let expected = count >= 2 && f64::from(count) / f64::from(holders) >= 0.30;
            assert_eq!(is_actionable_conflict(&conflict(holders, &[count, 1])), expected);
            let alone = expected && count < holders;
            assert_eq!(is_actionable_conflict(&conflict(holders, &[count])), alone);
        }
    }
    let mut none = conflict(0, &[]);
    assert!(!is_actionable_conflict(&none));
    none.values.push(ConflictValue {
        value: "v".into(),
        count: 5,
        artifacts: vec![],
    });
    assert!(!is_actionable_conflict(&none));
}

#[test]
fn a_key_that_nobody_departs_from_is_not_actionable() {
    assert!(!is_actionable_conflict(&conflict(5, &[5])));
    // A value that nobody holds is no departure.
    assert!(!is_actionable_conflict(&conflict(5, &[5, 0])));
    assert!(!is_actionable_conflict(&conflict(5, &[0, 5])));
    // Two of five hold something that is not listed.
    assert!(is_actionable_conflict(&conflict(5, &[3])));
    assert!(is_actionable_conflict(&conflict(5, &[4, 1])));
    assert!(is_actionable_conflict(&conflict(5, &[1, 4])));
}

fn artifact(path: &str, drift: f64) -> WtdArtifact {
    WtdArtifact {
        path: path.into(),
        kind: "json".into(),
        drift: drift.to_bits(),
        outlier: drift > 0.5,
        primitives: 4,
        in_core: 2,
        unique: 1,
    }
}

fn report(core_size: u32, mean: f64) -> WtdReport {
    WtdReport {
        corpus: Corpus {
            artifacts: 3,
            distinct_primitives: 9,
            observations: 12,
            skipped: 0,
        },
        consensus: Consensus {
            universal: core_size,
            majority: 1,
            minority: 1,
            unique: 1,
            core_size,
        },
        drift: DriftStats {
            mean: mean.to_bits(),
            stddev: 0.1f64.to_bits(),
            mean_percent: format!("{:.0}", mean * 100.0),
        },
        conflicts: vec![],
        factions: vec![],
        artifacts: vec![],
    }
}

#[test]
fn a_set_without_a_core_is_rejected() {
    assert_eq!(
        consensus_verdict(&report(0, 0.1)).as_deref(),
        Some("these 3 files have nothing in common, so there is no agreement to measure against")
    );
}

#[test]
fn a_set_without_universal_primitives_is_rejected() {
    let mut r = report(1, 0.5);
    assert!(consensus_verdict(&r).is_none());
    r.consensus.universal = 0;
    assert_eq!(
        consensus_verdict(&r).as_deref(),
        Some("these 3 files have nothing in common, so there is no agreement to measure against")
    );
    // A core is no substitute, and the lack of one is no fault.
    r.consensus.universal = 1;
    r.consensus.core_size = 0;
    assert!(consensus_verdict(&r).is_none());
}

#[test]
fn a_set_with_nothing_shared_is_rejected() {
    assert_eq!(
        consensus_verdict(&report(1, 0.96)).as_deref(),
        Some(
            "these files are almost entirely different from one another (96% unshared) — they \
             are not versions of the same thing"
        )
    );
    assert!(consensus_verdict(&report(1, 0.95)).is_some());
    assert!(consensus_verdict(&report(1, 0.949_999)).is_none());
    assert!(consensus_verdict(&report(1, f64::NAN)).is_none());
    assert!(consensus_verdict(&report(1, -1.0)).is_none());
    assert!(consensus_verdict(&report(1, f64::INFINITY)).is_some());
}

#[test]
fn a_failed_run_is_told_with_its_code() {
    assert_eq!(wtd_failure(true, Some(0), "x"), None);
    assert_eq!(wtd_failure(false, Some(3), "limit"), None);
    assert_eq!(
        wtd_failure(false, Some(17), "  no such file\n").as_deref(),
        Some("wtd exited 17: no such file")
    );
    assert_eq!(
        wtd_failure(false, None, "").as_deref(),
        Some("wtd exited -1: ")
    );
    assert_eq!(
        wtd_failure(false, Some(i32::MIN), "").as_deref(),
        Some("wtd exited -2147483648: ")
    );
}

fn value(count: u32, artifacts: &[usize]) -> ConflictValue {
    ConflictValue {
        value: format!("c{count}"),
        count,
        artifacts: artifacts.to_vec(),
    }
}

fn keyed(key: &str, holders: u32, values: Vec<ConflictValue>) -> Conflict {
    Conflict {
        key: key.into(),
        holders,
        deviants: 0,
        values,
    }
}

#[test]
fn a_key_is_listed_once_however_often_it_deviates() {
    let conflicts = vec![
        keyed("z", 5, vec![value(3, &[0]), value(1, &[1]), value(1, &[1, 2])]),
        keyed("a", 5, vec![value(1, &[1]), value(3, &[0])]),
        keyed("z", 5, vec![value(3, &[0]), value(1, &[1])]),
    ];
    assert_eq!(deviant_keys(&conflicts, 1), vec!["a", "z"]);
    assert_eq!(deviant_keys(&conflicts, 2), vec!["z"]);
    assert!(deviant_keys(&conflicts, 0).is_empty());
}

#[test]
fn of_equal_counts_the_last_is_the_majority() {
    let conflicts = vec![keyed("k", 4, vec![value(2, &[0]), value(2, &[1])])];
    assert_eq!(deviant_keys(&conflicts, 0), vec!["k"]);
    assert!(deviant_keys(&conflicts, 1).is_empty());
}

fn faction(size: u32, members: &[usize]) -> Faction {
    Faction {
        size,
        members: members.to_vec(),
        member_paths: vec![],
        cohesion: 0,
        signature: vec![],
    }
}

#[test]
fn the_last_faction_counts() {
    let f = vec![faction(2, &[0, 1]), faction(3, &[1, 2, 3])];
    assert_eq!(faction_size(&f, 0), Some(2));
    assert_eq!(faction_size(&f, 1), Some(3));
    assert_eq!(faction_size(&f, 9), None);
}

fn fleet(id: &str, members: usize) -> Fleet {
    Fleet {
        id: id.into(),
        label: format!("{id} label"),
        rule: "basename",
        members: (0..members).map(|i| format!("{id}/{i}")).collect(),
        truncated: 0,
    }
}

#[test]
fn an_analysis_accounts_for_every_fleet() {
    let mut quiet = report(2, 0.2);
    quiet.artifacts = vec![artifact("shared", 0.3), artifact("only", 0.1)];
    let mut loud = report(2, 0.4);
    loud.conflicts = vec![
        keyed("level", 5, vec![value(3, &[1]), value(2, &[0])]),
        keyed("id", 57, vec![value(2, &[0]), value(1, &[1])]),
    ];
    loud.factions = vec![faction(2, &[0, 1])];
    loud.artifacts = vec![artifact("shared", 0.2), artifact("other", 0.9)];
    let checked: Vec<Checked> = vec![
        (fleet("b", 2), Ok(quiet)),
        (fleet("broken", 2), Err("wtd not runnable: gone".into())),
        (fleet("strangers", 4), Ok(report(0, 0.0))),
        (fleet("a", 2), Ok(loud)),
    ];
    let r = analyze(checked);

    assert_eq!(r.errors.len(), 1);
    assert_eq!(r.errors[0].fleet, "broken");
    assert_eq!(r.errors[0].message, "wtd not runnable: gone");

    assert_eq!(r.rejected.len(), 1);
    assert_eq!(r.rejected[0].id, "strangers");
    assert_eq!(r.rejected[0].label, "strangers label");
    assert_eq!(r.rejected[0].members, 4);
    assert!(r.rejected[0].reason.starts_with("these 3 files"));

    // The fleet with a finding comes first, without its identifier key.
    assert_eq!(r.fleets.len(), 2);
    assert_eq!(r.fleets[0].fleet.id, "a");
    assert_eq!(r.fleets[0].report.conflicts.len(), 1);
    assert_eq!(r.fleets[0].report.conflicts[0].key, "level");
    assert_eq!(r.fleets[0].identifier_keys_suppressed, 1);
    assert_eq!(r.fleets[1].fleet.id, "b");
    assert_eq!(r.fleets[1].identifier_keys_suppressed, 0);

    // The file in two fleets shows where it departs most.
    let shared = r.by_path.get("shared").unwrap();
    assert_eq!(shared.fleet, "a");
    assert_eq!(shared.fleet_label, "a label");
    assert_eq!(shared.deviant_keys, vec!["level"]);
    assert_eq!(shared.faction_size, Some(2));
    assert_eq!(f64::from_bits(shared.drift), 0.2);
    let other = r.by_path.get("other").unwrap();
    assert!(other.outlier);
    assert!(other.deviant_keys.is_empty());
    assert_eq!(r.by_path.get("only").unwrap().fleet, "b");
    assert!(r.by_path.get("nowhere").is_none());
}

#[test]
fn an_equal_departure_does_not_replace_the_first() {
    let one = |id: &str, drift: f64| {
        let mut r = report(1, 0.1);
        r.artifacts = vec![artifact("p", drift)];
        (fleet(id, 2), Ok(r))
    };
    let r = analyze(vec![one("x", 0.5), one("y", 0.5), one("z", 0.4)]);
    assert_eq!(r.by_path.get("p").unwrap().fleet, "x");
    let r = analyze(vec![one("x", 0.5), one("y", 0.6)]);
    assert_eq!(r.by_path.get("p").unwrap().fleet, "y");
    let ids: Vec<&str> = r.fleets.iter().map(|f| f.fleet.id.as_str()).collect();
    assert_eq!(ids, vec!["x", "y"]);
}
