//! The walk over history and what is made of it.

use std::collections::BTreeMap;

use entropyx_cli::cache::DiskItemsCache;
use exsurvey::blobs::{
    api_request, blob_items, drift_of, fits, items_of, plan_blobs, take_parsed, ApiSides, BlobKey,
    ChangeKind, FileChange, ItemIndex, Language, PreparedCommit,
};
use exsurvey::events::{detect_events, window_days, Event};
use exsurvey::evidence::keep_evidence;
use exsurvey::explain::{explain_from_index, resolve, top_authors};
use exsurvey::graph::{change_counts, coupling, degrees, measure};
use exsurvey::handles::{mint_handles, resolve_handles};
use exsurvey::replay::{commit_deltas, Commit, Replay};
use exsurvey::rows::{
    gather_axes, latest_touch, score_rows, share_given, test_share, PathMeasures, SeriesMeasures,
    TestShare,
};
use exsurvey::signal::SignalClass;
use exsurvey::sorted_map::SortedMap;
use exsurvey::summary::{is_numberable, summarize};
use exsurvey::vertices::number_all;

fn commit(sha: &str, subject: &str, author: &str, time: i64) -> Commit {
    Commit {
        sha: sha.into(),
        subject: subject.into(),
        author: author.into(),
        time,
        parents: vec![format!("parent of {sha}")],
    }
}

fn modified(path: &str) -> FileChange {
    FileChange {
        path: path.into(),
        kind: ChangeKind::Modified,
    }
}

fn renamed(from: &str, to: &str) -> FileChange {
    FileChange {
        path: to.into(),
        kind: ChangeKind::Renamed { from: from.into() },
    }
}

fn prepared(changes: Vec<FileChange>) -> PreparedCommit {
    let api = changes.iter().map(|_| None).collect();
    PreparedCommit { changes, api }
}

fn run(history: Vec<(Commit, PreparedCommit)>, items: &ItemIndex) -> (Replay, Vec<Commit>) {
    let (commits, prepared): (Vec<Commit>, Vec<PreparedCommit>) = history.into_iter().unzip();
    let mut w = Replay::new();
    assert!(fits(items));
    w.run(&commits, &prepared, items, 0, commits.len());
    (w, commits)
}

/// Newest first: a file `new.rs` that was `old.rs` before, with its test.
fn history() -> Vec<(Commit, PreparedCommit)> {
    vec![
        (
            commit("c4", "fix: crash", "b@x", 400_000),
            prepared(vec![modified("new.rs"), modified("tests/t.rs")]),
        ),
        (
            commit("c3", "Rename", "b@x", 300_000),
            prepared(vec![renamed("old.rs", "new.rs"), modified("a.txt")]),
        ),
        (
            commit("c2", "  HOTFIX(core): again", "a@x", 200_000),
            prepared(vec![modified("old.rs")]),
        ),
        (
            commit("c1", "Start", "a@x", 100_000),
            prepared(vec![modified("old.rs"), modified("a.txt"), modified("old.rs")]),
        ),
    ]
}

fn shas(w: &Replay, path: &str) -> Vec<String> {
    w.series
        .get(path)
        .map(|s| s.touches.iter().map(|t| t.sha.clone()).collect())
        .unwrap_or_default()
}

#[test]
fn a_trajectory_gathers_its_former_names() {
    let (w, _) = run(history(), &SortedMap::new());
    assert_eq!(shas(&w, "new.rs"), vec!["c4", "c3", "c2", "c1"]);
    assert!(shas(&w, "old.rs").is_empty());
    assert_eq!(shas(&w, "a.txt"), vec!["c3", "c1"]);
    assert_eq!(w.series.get("new.rs").unwrap().authors, vec!["b@x", "b@x", "a@x", "a@x"]);
    assert_eq!(w.authors, vec!["b@x", "a@x"]);
    assert_eq!(
        w.commit_paths,
        vec![
            vec!["new.rs", "tests/t.rs"],
            vec!["a.txt", "new.rs"],
            vec!["new.rs"],
            vec!["a.txt", "new.rs"],
        ]
    );
    assert_eq!(w.renames.len(), 1);
    assert_eq!(w.renames[0].from, "old.rs");
    assert_eq!(w.renames[0].to, "new.rs");
    assert_eq!(w.renames[0].sha, "c3");
}

#[test]
fn incidents_are_told_by_their_subjects() {
    let (w, _) = run(history(), &SortedMap::new());
    let hits: Vec<&str> = w
        .incidents
        .get("new.rs")
        .unwrap()
        .iter()
        .map(|t| t.sha.as_str())
        .collect();
    assert_eq!(hits, vec!["c4", "c2"]);
    assert!(w.incidents.get("a.txt").is_none());
    for (subject, incident) in [
        ("fix it", true),
        ("Revert!: x", true),
        ("fixup! y", false),
        ("prefix: z", false),
        ("hotfixed", false),
        ("fix", false),
    ] {
        let (w, _) = run(
            vec![(commit("c", subject, "a", 1), prepared(vec![modified("f")]))],
            &SortedMap::new(),
        );
        assert_eq!(w.incidents.contains("f"), incident, "{subject}");
    }
}

#[test]
fn touches_beside_tests_are_counted() {
    let (w, _) = run(history(), &SortedMap::new());
    let new = w.series.get("new.rs").unwrap();
    assert_eq!(new.with_test, 1);
    let test = w.series.get("tests/t.rs").unwrap();
    assert_eq!(test.with_test, 0);
    assert_eq!(test_share("tests/t.rs", test), TestShare::Test);
    assert_eq!(
        test_share("new.rs", new),
        TestShare::Share {
            with_test: 1,
            touches: 4
        }
    );
    assert_eq!(share_given(true, new), TestShare::Test);
}

#[test]
fn a_walk_in_parts_is_the_walk() {
    let (whole, commits) = run(history(), &SortedMap::new());
    let (_, prep): (Vec<Commit>, Vec<PreparedCommit>) = history().into_iter().unzip();
    let mut w = Replay::new();
    w.run(&commits, &prep, &SortedMap::new(), 0, 2);
    w.run(&commits, &prep, &SortedMap::new(), 2, 4);
    assert_eq!(w.commit_paths, whole.commit_paths);
    assert_eq!(shas(&w, "new.rs"), shas(&whole, "new.rs"));
}

#[test]
fn sides_of_a_change_are_looked_up_where_they_are() {
    let parents = vec!["p1".to_string(), "p2".to_string()];
    let q = api_request(&modified("src/a.rs"), "c", &parents).unwrap();
    assert_eq!(q.lang, Language::Rust);
    assert_eq!(q.old_side, Some(("p1".into(), "src/a.rs".into())));
    assert_eq!(q.new_side, Some(("c".into(), "src/a.rs".into())));
    let q = api_request(&renamed("b.py", "c.py"), "c", &parents).unwrap();
    assert_eq!(q.old_side, Some(("p1".into(), "b.py".into())));
    let copied = FileChange {
        path: "d.go".into(),
        kind: ChangeKind::Copied { from: "e.go".into() },
    };
    let q = api_request(&copied, "c", &[].to_vec()).unwrap();
    assert_eq!(q.old_side, None);
    assert_eq!(q.lang, Language::Go);
    let gone = FileChange {
        path: "x.tsx".into(),
        kind: ChangeKind::Deleted,
    };
    let q = api_request(&gone, "c", &parents).unwrap();
    assert_eq!(q.new_side, None);
    assert_eq!(q.lang, Language::TypeScript);
    assert!(api_request(&modified("README.md"), "c", &parents).is_none());
}

#[test]
fn every_language_is_told_by_its_extensions() {
    let cases = [
        ("a.rs", Language::Rust),
        ("a.go", Language::Go),
        ("a.py", Language::Python),
        ("a.ts", Language::TypeScript),
        ("a.java", Language::Java),
        ("a.js", Language::JavaScript),
        ("a.jsx", Language::JavaScript),
        ("a.mjs", Language::JavaScript),
        ("a.cjs", Language::JavaScript),
        ("a.rb", Language::Ruby),
        ("a.cpp", Language::Cpp),
        ("a.cc", Language::Cpp),
        ("a.cxx", Language::Cpp),
        ("a.hpp", Language::Cpp),
        ("a.hh", Language::Cpp),
        ("a.hxx", Language::Cpp),
        ("a.h", Language::Cpp),
    ];
    for (path, lang) in cases {
        let q = api_request(&modified(path), "c", &vec![]).unwrap();
        assert_eq!(q.lang, lang, "{path}");
    }
}

fn sides(old: Option<&str>, new: Option<&str>) -> Option<ApiSides> {
    Some(ApiSides {
        old_blob: old.map(String::from),
        new_blob: new.map(String::from),
        lang: Language::Rust,
    })
}

#[test]
fn blobs_are_parsed_once_and_kept() {
    let ps = vec![
        PreparedCommit {
            changes: vec![modified("a.rs"), modified("b.md")],
            api: vec![sides(Some("b1"), Some("b2")), None],
        },
        PreparedCommit {
            changes: vec![modified("a.rs")],
            api: vec![sides(None, Some("b1"))],
        },
        PreparedCommit {
            changes: vec![modified("a.py")],
            api: vec![Some(ApiSides {
                old_blob: Some("b1".into()),
                new_blob: Some("a0".into()),
                lang: Language::Python,
            })],
        },
    ];
    let mut cache = DiskItemsCache::default();
    cache.insert("b2".into(), entropyx_ast::Language::Rust, vec!["fn:x/0".into()]);
    let plan = plan_blobs(&ps, &cache);
    let listed: Vec<(&str, Language)> = plan
        .to_parse
        .iter()
        .map(|k| (k.sha.as_str(), k.lang))
        .collect();
    assert_eq!(
        listed,
        vec![
            ("a0", Language::Python),
            ("b1", Language::Rust),
            ("b1", Language::Python),
        ]
    );
    assert_eq!(plan.items.len(), 1);
    assert_eq!(plan.items.get("rust/b2"), Some(&vec!["fn:x/0".to_string()]));

    let mut items = plan.items;
    let parsed: Vec<(BlobKey, Vec<String>)> = plan
        .to_parse
        .into_iter()
        .map(|k| {
            let source = format!("pub fn f() {{}} // {}", k.sha);
            let v = blob_items(Some(source), k.lang);
            (k, v)
        })
        .collect();
    take_parsed(&mut items, &mut cache, parsed);
    assert_eq!(items.len(), 4);
    assert_eq!(
        cache.get("b1", entropyx_ast::Language::Rust),
        items.get("rust/b1").cloned()
    );
    // Everything is known now.
    assert!(plan_blobs(&ps, &cache).to_parse.is_empty());
}

#[test]
fn items_of_a_blob_are_those_of_the_parser() {
    let source = "pub fn beta() {}\npub struct Alpha;\nfn hidden() {}\n";
    let want =
        entropyx_ast::parse_public_items(source, entropyx_ast::Language::Rust).unwrap();
    assert!(!want.is_empty());
    assert_eq!(blob_items(Some(source.into()), Language::Rust), want);
    let broken = blob_items(Some("pub fn (".into()), Language::Rust);
    assert_eq!(
        broken,
        entropyx_ast::parse_public_items("pub fn (", entropyx_ast::Language::Rust)
            .unwrap_or_default()
    );
    assert!(blob_items(None, Language::Rust).is_empty());
    assert!(items_of(None).is_empty());
    assert_eq!(items_of(Some(vec!["i".into()])), vec!["i"]);
}

#[test]
fn drift_adds_up_along_a_trajectory() {
    let mut items: ItemIndex = SortedMap::new();
    items.put("rust/old", vec!["fn:a/0".into(), "fn:b/0".into()]);
    items.put("rust/new", vec!["fn:b/0".into(), "fn:c/0".into(), "fn:d/0".into()]);
    let s = sides(Some("old"), Some("new")).unwrap();
    assert_eq!(drift_of(&items, &s), 3);
    assert_eq!(drift_of(&items, &sides(None, Some("new")).unwrap()), 3);
    assert_eq!(drift_of(&items, &sides(Some("old"), Some("missing")).unwrap()), 2);
    assert_eq!(drift_of(&items, &sides(Some("new"), Some("new")).unwrap()), 0);
    let history = vec![
        (
            commit("c2", "s", "a", 2),
            PreparedCommit {
                changes: vec![renamed("x.rs", "y.rs"), modified("z.md")],
                api: vec![sides(Some("old"), Some("new")), None],
            },
        ),
        (
            commit("c1", "s", "a", 1),
            PreparedCommit {
                changes: vec![modified("x.rs")],
                api: vec![sides(None, Some("old"))],
            },
        ),
    ];
    assert_eq!(commit_deltas(&items, &history[0].1), vec![Some(3), None]);
    let (w, _) = run(history, &items);
    assert_eq!(w.drift.get("y.rs"), Some(&5));
    assert_eq!(w.drift.get("z.md"), None);
}

#[test]
fn drift_stays_at_the_greatest_number() {
    let mut w = Replay::new();
    let c = commit("c", "s", "a", 1);
    let p = prepared(vec![modified("f")]);
    w.step(&c, &p, &vec![Some(u32::MAX)]);
    w.step(&c, &p, &vec![Some(1)]);
    assert_eq!(w.drift.get("f"), Some(&(u64::from(u32::MAX) + 1)));
    w.drift.put("f", u64::MAX - 1);
    w.step(&c, &p, &vec![Some(7)]);
    assert_eq!(w.drift.get("f"), Some(&u64::MAX));
}

#[test]
fn counts_and_degrees_agree_with_the_reference_crates() {
    let (w, _) = run(history(), &SortedMap::new());
    let counts = change_counts(&w.commit_paths);
    for (path, n) in entropyx_core::metric::change_counts(&w.commit_paths) {
        assert_eq!(counts.get(&path), Some(&n));
        // A file is changed as often as it is touched.
        assert_eq!(n as usize, shas(&w, &path).len());
    }
    assert_eq!(counts.len(), 3);
    let d = degrees(&w.commit_paths);
    assert_eq!(d.get("new.rs"), Some(&3));
    assert_eq!(d.get("a.txt"), Some(&2));
    assert_eq!(d.get("tests/t.rs"), Some(&1));
    assert_eq!(d.get("old.rs"), None);
}

#[test]
fn degrees_count_every_pair_of_entries() {
    let lists: Vec<Vec<String>> = [vec!["a", "b", "a", "c"], vec!["a"], vec!["b", "c"], vec![]]
        .iter()
        .map(|l| l.iter().map(|s| s.to_string()).collect())
        .collect();
    let d = degrees(&lists);
    let g = entropyx_graph::CoChangeGraph::from_commit_paths(&lists);
    assert_eq!(d.len(), g.nodes().len());
    for p in g.nodes() {
        assert_eq!(d.get(p), Some(&g.weighted_degree(p)));
    }
    // Two entries beside two others; one beside three, and one beside one.
    assert_eq!(d.get("a"), Some(&4));
    assert_eq!(d.get("b"), Some(&4));
}

#[test]
fn items_in_another_order_are_passed_side_by_side() {
    let mut items: ItemIndex = SortedMap::new();
    let list = |v: &[&str]| v.iter().map(|s| s.to_string()).collect::<Vec<String>>();
    items.put("rust/x", list(&["b", "a", "a"]));
    items.put("rust/y", list(&["a", "c"]));
    let s = ApiSides {
        old_blob: Some("x".into()),
        new_blob: Some("y".into()),
        lang: Language::Rust,
    };
    let expected = entropyx_ast::public_api_delta_from_items(
        items.get("rust/x").unwrap(),
        items.get("rust/y").unwrap(),
    );
    assert_eq!(drift_of(&items, &s), expected);
    assert_eq!(expected, 5);
}

fn bits(pairs: &[(&str, f64)]) -> SortedMap<u64> {
    let mut m = SortedMap::new();
    for (p, x) in pairs {
        m.put(p, x.to_bits());
    }
    m
}

#[test]
fn coupling_is_the_greater_of_degree_and_betweenness() {
    let degree = bits(&[("a", 0.2), ("b", 0.9), ("c", 0.0), ("n", f64::NAN)]);
    let between = bits(&[("a", 0.5), ("b", 0.1), ("x", 1.0), ("n", 0.25)]);
    let c = coupling(&degree, &between);
    assert_eq!(c.len(), 4);
    assert_eq!(f64::from_bits(measure(&c, "a")), 0.5);
    assert_eq!(f64::from_bits(measure(&c, "b")), 0.9);
    assert_eq!(f64::from_bits(measure(&c, "c")), 0.0);
    assert_eq!(f64::from_bits(measure(&c, "n")), 0.25);
    assert_eq!(measure(&c, "x"), 0);
}

fn measures() -> PathMeasures {
    PathMeasures {
        change_density: bits(&[("new.rs", 1.0), ("a.txt", 0.5)]),
        coupling_stress: bits(&[("new.rs", 0.1), ("a.txt", 0.1)]),
        blame_youth: bits(&[("new.rs", 0.25)]),
        semantic_drift: bits(&[("a.txt", 0.9)]),
    }
}

fn given(h: f64, v: f64, t: f64) -> SeriesMeasures {
    SeriesMeasures {
        author_entropy: h.to_bits(),
        temporal_volatility: v.to_bits(),
        test_cooevolution: t.to_bits(),
    }
}

#[test]
fn a_summary_is_put_together() {
    let (mut w, commits) = run(history(), &SortedMap::new());
    w.drift.put("a.txt", 4_294_967_299);
    // a.txt, new.rs, tests/t.rs
    let given = vec![given(0.5, 0.1, 0.0), given(1.0, 0.6, 0.25), given(0.0, 0.0, 1.0)];
    let axes = gather_axes(&w.series, &measures(), &given);
    assert_eq!(f64::from_bits(axes[0].semantic_drift), 0.9);
    assert_eq!(f64::from_bits(axes[1].change_density), 1.0);
    assert_eq!(f64::from_bits(axes[1].blame_youth), 0.25);
    assert_eq!(axes[2].change_density, 0);

    let mut t = number_all(&w);
    assert_eq!(t.files, vec!["a.txt", "new.rs", "tests/t.rs"]);
    assert_eq!(t.authors, vec!["b@x", "a@x"]);
    let composites: Vec<u64> = [0.3f64, 0.8, 0.1].iter().map(|x| x.to_bits()).collect();
    let (rows, notices) = score_rows(&w, &mut t, &axes, &composites);
    assert_eq!(rows.len(), 3);
    assert_eq!(rows[1].file, 1);
    assert_eq!(rows[1].composite, 0.8f64.to_bits());
    assert_eq!(rows[0].signal_class, Some(SignalClass::ApiDrift));
    assert_eq!(rows[1].signal_class, Some(SignalClass::IncidentAftershock));
    assert_eq!(rows[2].signal_class, Some(SignalClass::FrozenNeglect));
    assert_eq!(notices.len(), 1);
    assert_eq!(notices[0].path, "a.txt");
    assert_eq!(notices[0].at, 300_000);
    assert_eq!(notices[0].sha, "c3");
    // Counted in thirty-two bits.
    assert_eq!(notices[0].pub_items_changed, 3);

    let bursts = vec![None, Some(400_000), Some(1)];
    let volatility: Vec<u64> = axes.iter().map(|a| a.temporal_volatility).collect();
    let events = detect_events(&mut w, &mut t, &bursts, &volatility, &notices);
    assert_eq!(events.len(), 6);
    match &events[0] {
        Event::Rename { file, at, sha, from, to } => {
            assert_eq!((*file, *at), (1, 300_000));
            assert_eq!((sha.as_str(), from.as_str(), to.as_str()), ("c3", "old.rs", "new.rs"));
        }
        _ => panic!("expected a rename"),
    }
    match &events[1] {
        Event::Hotspot { file, at, sha, reason } => {
            assert_eq!((*file, *at), (1, 400_000));
            assert_eq!((sha.as_str(), reason.as_str()), ("c4", "recent_burst"));
        }
        _ => panic!("expected a hotspot"),
    }
    match &events[2] {
        // No touch of the test was at that time.
        Event::Hotspot { file, at, sha, .. } => assert_eq!((*file, *at, sha.as_str()), (2, 1, "")),
        _ => panic!("expected a hotspot"),
    }
    match &events[3] {
        Event::OwnershipSplit { file, at, sha, authors } => {
            assert_eq!((*file, *at, sha.as_str()), (1, 300_000, "c3"));
            // a@x, then b@x, by their numbers.
            assert_eq!(authors, &vec![1, 0]);
        }
        _ => panic!("expected a split"),
    }
    match &events[4] {
        Event::IncidentAftershock { file, at, sha, window_days } => {
            assert_eq!((*file, *at, sha.as_str()), (1, 400_000, "c4"));
            assert_eq!(*window_days, 2);
        }
        _ => panic!("expected an aftershock"),
    }
    match &events[5] {
        Event::ApiDrift { file, at, sha, pub_items_changed } => {
            assert_eq!((*file, *at, sha.as_str()), (0, 300_000, "c3"));
            assert_eq!(*pub_items_changed, 3);
        }
        _ => panic!("expected a drift"),
    }

    // Handles and what they lead to.
    let mut head = SortedMap::new();
    head.put("new.rs", "0123456789abcdef".to_string());
    head.put("a.txt", "short".to_string());
    head.put("elsewhere", "ffff".to_string());
    let handles = mint_handles(&w.series, &head);
    assert_eq!(handles.len(), 2);
    assert_eq!(handles.get("file:0123456789ab").unwrap().file, 1);
    assert_eq!(handles.get("file:short").unwrap().blob_sha, "short");
    let paths = resolve_handles(&handles, &w.series);
    assert_eq!(paths.get("file:0123456789ab").unwrap(), "new.rs");

    let evidence = keep_evidence(&commits, &w.series);
    assert_eq!(evidence.commits.len(), 4);
    assert_eq!(evidence.commits[1].subject, "Rename");
    let touches = evidence.touches("new.rs");
    assert_eq!(touches.len(), 4);
    assert_eq!((touches[0].commit, touches[0].time), (0, 400_000));
    assert_eq!((touches[3].commit, touches[3].time), (3, 100_000));
    assert!(evidence.touches("nothing").is_empty());

    let e = explain_from_index(&evidence, &paths, "file:0123456789ab").unwrap();
    assert_eq!(e.path, "new.rs");
    assert_eq!(e.commits_touched, 4);
    assert_eq!(e.first_commit_time, Some(100_000));
    assert_eq!(e.last_commit_time, Some(400_000));
    assert_eq!(e.times, vec![400_000, 300_000, 200_000, 100_000]);
    assert_eq!(e.authors, vec!["b@x", "b@x", "a@x", "a@x"]);
    assert_eq!(e.commits[2].sha, "c2");
    assert_eq!(e.commits[2].subject, "  HOTFIX(core): again");
    assert_eq!(e.commits[2].author, "a@x");
    assert_eq!(e.commits[2].time, 200_000);
    let top: Vec<(&str, usize)> = e
        .top_authors
        .iter()
        .map(|a| (a.email.as_str(), a.count))
        .collect();
    assert_eq!(top, vec![("a@x", 2), ("b@x", 2)]);
    assert_eq!(explain_from_index(&evidence, &paths, "a.txt").unwrap().path, "a.txt");
    assert!(explain_from_index(&evidence, &paths, "file:none").is_none());
    assert_eq!(resolve(&paths, &evidence, "tests/t.rs").as_deref(), Some("tests/t.rs"));
}

#[test]
fn a_summary_holds_its_parts_together() {
    let (mut w, commits) = run(history(), &SortedMap::new());
    let given = vec![given(0.5, 0.1, 0.0), given(1.0, 0.6, 0.25), given(0.0, 0.0, 1.0)];
    let axes = gather_axes(&w.series, &measures(), &given);
    let composites = vec![1, 2, 3];
    let mut head = SortedMap::new();
    head.put("new.rs", "0123456789abcdef".to_string());
    assert!(is_numberable(&w));
    let s = summarize(&mut w, &head, &axes, &composites, &vec![None, None, None]);
    assert_eq!(s.table.files, vec!["a.txt", "new.rs", "tests/t.rs"]);
    assert_eq!(s.rows.len(), 3);
    for (i, r) in s.rows.iter().enumerate() {
        assert_eq!(r.file as usize, i);
        assert_eq!(r.composite, i as u64 + 1);
    }
    // A rename, a split, an aftershock and a drift.
    assert_eq!(s.events.len(), 4);
    assert_eq!(s.handles.len(), 1);
    let path = s.handle_paths.get("file:0123456789ab").unwrap();
    assert_eq!(path, "new.rs");
    let evidence = keep_evidence(&commits, &w.series);
    assert_eq!(evidence.touches(path).len(), 4);
}

#[test]
fn a_calm_file_has_no_aftershock() {
    let (mut w, _) = run(history(), &SortedMap::new());
    let mut t = number_all(&w);
    let none = vec![None, None, None];
    let count = |events: &[Event]| {
        events
            .iter()
            .filter(|e| matches!(e, Event::IncidentAftershock { .. }))
            .count()
    };
    let at = 0.3f64.to_bits();
    let events = detect_events(&mut w, &mut t, &none, &vec![0, at, 0], &vec![]);
    assert_eq!(count(&events), 0);
    let events = detect_events(&mut w, &mut t, &none, &vec![0, at + 1, at + 1], &vec![]);
    // Both files of the fix, once each.
    assert_eq!(count(&events), 2);
}

#[test]
fn a_file_that_is_gone_keeps_its_number() {
    // The name that the rename led to was given up again before.
    let history = vec![
        (commit("c2", "s", "a", 2), prepared(vec![renamed("y", "z")])),
        (commit("c1", "s", "a", 1), prepared(vec![renamed("x", "y")])),
    ];
    let (mut w, _) = run(history, &SortedMap::new());
    let mut t = number_all(&w);
    let events = detect_events(&mut w, &mut t, &vec![None], &vec![0], &vec![]);
    let files: Vec<u32> = events
        .iter()
        .map(|e| match e {
            Event::Rename { file, .. } => *file,
            _ => panic!("expected renames only"),
        })
        .collect();
    assert_eq!(files, vec![0, 0]);
    assert_eq!(t.files, vec!["z"]);
}

#[test]
fn the_latest_touch_is_the_last_of_equals() {
    let (w, _) = run(
        vec![
            (commit("n", "s", "a", 5), prepared(vec![modified("f")])),
            (commit("m", "s", "a", 5), prepared(vec![modified("f")])),
            (commit("l", "s", "a", 4), prepared(vec![modified("f")])),
        ],
        &SortedMap::new(),
    );
    assert_eq!(latest_touch(&w.series.get("f").unwrap().touches), 1);
    assert_eq!(window_days(0, 86_399), 0);
    assert_eq!(window_days(-86_400, 86_400), 2);
    assert_eq!(window_days(i64::MIN, i64::MAX), ((u64::MAX / 86_400) % (1 << 32)) as u32);
}

#[test]
fn a_repeated_sha_leads_to_its_last_commit() {
    let (w, commits) = run(
        vec![
            (commit("s", "first", "a", 2), prepared(vec![modified("f")])),
            (commit("s", "second", "b", 1), prepared(vec![modified("f")])),
        ],
        &SortedMap::new(),
    );
    let e = keep_evidence(&commits, &w.series);
    let places: Vec<u32> = e.touches("f").iter().map(|t| t.commit).collect();
    assert_eq!(places, vec![1, 1]);
}

#[test]
fn five_authors_are_shown() {
    let names: Vec<String> = ["f", "e", "d", "c", "b", "a", "a", "f", "f"]
        .iter()
        .map(|s| s.to_string())
        .collect();
    let top: Vec<(String, usize)> = top_authors(&names)
        .into_iter()
        .map(|a| (a.email, a.count))
        .collect();
    let want: Vec<(String, usize)> = [("f", 3), ("a", 2), ("b", 1), ("c", 1), ("d", 1)]
        .iter()
        .map(|(n, c)| (n.to_string(), *c))
        .collect();
    assert_eq!(top, want);
    assert!(top_authors(&vec![]).is_empty());
}

#[test]
fn a_sorted_map_is_a_map_in_order() {
    let words = ["m", "b", "", "z", "bb", "é", "b", "Z"];
    let mut ours: SortedMap<usize> = SortedMap::new();
    let mut std_map: BTreeMap<String, usize> = BTreeMap::new();
    for (i, w) in words.iter().enumerate() {
        ours.put(w, i);
        std_map.insert(w.to_string(), i);
    }
    assert_eq!(ours.len(), std_map.len());
    for (i, (k, v)) in std_map.iter().enumerate() {
        assert_eq!(ours.key_at(i), k);
        assert_eq!(ours.value_at(i), v);
        assert_eq!(ours.position(k), Some(i));
    }
    assert!(!ours.contains("q"));
    let place = ours.place_or_put("new", 7);
    *ours.value_mut(place) += 1;
    assert_eq!(ours.get("new"), Some(&8));
    assert_eq!(ours.key_list().len(), 8);
}
