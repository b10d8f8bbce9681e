//! Phases, messages and text.

use std::sync::Arc;

use exsurvey::blobs::{ChangeKind, FileChange, PreparedCommit};
use exsurvey::ieee::{is_at_least, is_greater};
use exsurvey::phases::{
    chunk_len, is_tick, join_parts, proceed, time_bounds, Course, Phase, ScanError, Told, Turn,
};
use exsurvey::replay::Commit;
use exsurvey::rows::FileRow;
use exsurvey::session::{
    answer_plan, cache_key, closing_plan, collect_authors, emission_order, emission_plan, head_of,
    list_repos, opening_plan, receipt, start_scan, KeptScan, Line, Message, RepoEntry, ScanStart,
    Shelf,
};
use exsurvey::signal::Axes;
use exsurvey::text::{
    begins, chars_of, decimal_string, drop_trailing, ends, find_last, holds, split, string_of,
    to_lower, trimmed,
};

#[test]
fn phases_are_named_in_order() {
    let all = Phase::all();
    let ids: Vec<&str> = all.iter().map(|p| p.id()).collect();
    assert_eq!(
        ids,
        vec![
            "open", "walk", "commit_loop", "normalize", "graph_build", "betweenness", "head_tree",
            "blame", "rows", "events", "handles",
        ]
    );
    assert_eq!(Phase::HeadTree.label(), "Reading HEAD tree");
    assert_eq!(Phase::CommitLoop.label(), "Diffing commits and parsing public API");
    let weights: Vec<f64> = all.iter().map(|p| f64::from_bits(p.weight())).collect();
    assert_eq!(
        weights,
        vec![0.005, 0.005, 0.15, 0.005, 0.10, 0.40, 0.005, 0.30, 0.005, 0.005, 0.005]
    );
    let stops: Vec<&str> = all.iter().filter(|p| p.checkpoint(true)).map(|p| p.id()).collect();
    assert_eq!(stops, ids[..10].to_vec());
    let within: Vec<&str> = all.iter().filter(|p| p.checkpoint(false)).map(|p| p.id()).collect();
    assert_eq!(within, vec!["commit_loop", "blame"]);
    assert!(proceed(Phase::Walk, true, true).is_err());
    assert!(proceed(Phase::Walk, true, false).is_ok());
    assert!(proceed(Phase::Walk, false, true).is_ok());
    assert!(proceed(Phase::Blame, false, true).is_err());
    assert!(proceed(Phase::Blame, true, true).is_err());
    assert!(proceed(Phase::Rows, true, true).is_err());
    assert!(proceed(Phase::Handles, true, true).is_ok());
}

#[test]
fn errors_are_spelled_out() {
    assert_eq!(ScanError::Open("x".into()).message(), "open failed: x");
    assert_eq!(ScanError::Walk("x".into()).message(), "walk failed: x");
    assert_eq!(ScanError::Diff("x at c".into()).message(), "diff failed: x at c");
    assert_eq!(ScanError::HeadTree("x".into()).message(), "head tree walk failed: x");
    assert_eq!(ScanError::Cancelled.message(), "cancelled by client");
    assert_eq!(ScanError::Cancelled.answer(), None);
    assert_eq!(
        ScanError::Open("x".into()).answer().as_deref(),
        Some("open failed: x")
    );
}

#[test]
fn work_is_divided_evenly() {
    assert_eq!(chunk_len(0, 8), 1);
    assert_eq!(chunk_len(10, 0), 10);
    assert_eq!(chunk_len(10, 3), 4);
    assert_eq!(chunk_len(9, 3), 3);
    assert_eq!(chunk_len(2, 8), 1);
    for total in 1..60usize {
        for threads in 0..10usize {
            assert_eq!(chunk_len(total, threads), total.div_ceil(threads.max(1)).max(1));
        }
    }
    assert!(is_tick(0, 64));
    assert!(is_tick(128, 64));
    assert!(!is_tick(127, 64));
}

fn part(n: usize) -> Result<Vec<PreparedCommit>, ScanError> {
    Ok((0..n)
        .map(|_| PreparedCommit {
            changes: vec![],
            api: vec![],
        })
        .collect())
}

#[test]
fn parts_are_joined_or_the_first_failure_is_told() {
    assert_eq!(join_parts(vec![part(2), part(0), part(3)]).unwrap().len(), 5);
    assert!(join_parts(vec![]).unwrap().is_empty());
    let r = join_parts(vec![
        part(1),
        Err(ScanError::Diff("first".into())),
        Err(ScanError::Open("second".into())),
    ]);
    match r {
        Err(e) => assert_eq!(e.message(), "diff failed: first"),
        Ok(_) => panic!("expected a failure"),
    }
}

#[test]
fn parts_line_up_with_what_was_given() {
    let one = |i: usize| PreparedCommit {
        changes: vec![FileChange {
            path: format!("f{i}"),
            kind: ChangeKind::Added,
        }],
        api: vec![None],
    };
    let total: usize = 11;
    let len = chunk_len(total, 4);
    assert_eq!(len, 3);
    let numbers: Vec<usize> = (0..total).collect();
    let parts = numbers
        .chunks(len)
        .map(|c| Ok(c.iter().map(|&i| one(i)).collect()))
        .collect();
    let joined = join_parts(parts).unwrap();
    assert_eq!(joined.len(), total);
    for (k, p) in joined.iter().enumerate() {
        assert_eq!(p.changes[0].path, format!("f{k}"));
    }
}

fn at(time: i64) -> Commit {
    Commit {
        sha: String::new(),
        subject: String::new(),
        author: String::new(),
        time,
        parents: vec![],
    }
}

#[test]
fn history_has_bounds() {
    assert_eq!(time_bounds(&[]), (0, 0));
    assert_eq!(time_bounds(&[at(5), at(-3), at(9), at(2)]), (-3, 9));
}

#[test]
fn keys_follow_the_head() {
    assert_eq!(cache_key("/r", Some("abc")), "/r@abc");
    assert_eq!(cache_key("/r", None), "/r@unknown");
    assert_ne!(cache_key("/r", Some("a")), cache_key("/r", Some("b")));
    assert_eq!(head_of(true, " abc\n").as_deref(), Some("abc"));
    assert_eq!(head_of(false, "abc"), None);
}

#[test]
fn a_request_is_met() {
    match start_scan("/x", false, true, true) {
        ScanStart::Refuse { message } => assert_eq!(message, "not a git repository: /x"),
        _ => panic!("expected a refusal"),
    }
    assert!(matches!(start_scan("/x", true, false, true), ScanStart::Serve));
    assert!(matches!(start_scan("/x", true, true, true), ScanStart::Run));
    assert!(matches!(start_scan("/x", true, false, false), ScanStart::Run));
}

#[test]
fn a_receipt_is_the_digest() {
    assert_eq!(
        receipt(Some(b"")),
        "af1349b9f5f9a1a6a0404dea36dcc9499bcb25c9adc112b7cc9a93cae41f3262"
    );
    assert_eq!(receipt(Some(b"abc")), blake3::hash(b"abc").to_hex().to_string());
    assert_eq!(receipt(None), "");
}

fn scored(x: f64) -> FileRow {
    FileRow {
        file: 0,
        axes: Axes {
            change_density: 0,
            author_entropy: 0,
            temporal_volatility: 0,
            coupling_stress: 0,
            blame_youth: 0,
            semantic_drift: 0,
            test_cooevolution: 0,
        },
        composite: x.to_bits(),
        signal_class: None,
    }
}

#[test]
fn the_highest_scores_go_out_first() {
    let rows: Vec<FileRow> = [0.1, 0.9, f64::NAN, 0.9, -0.5, f64::INFINITY]
        .into_iter()
        .map(scored)
        .collect();
    assert_eq!(emission_order(&rows), vec![1, 3, 0, 2, 5, 4]);
}

#[test]
fn a_summary_goes_out_in_chunks() {
    assert_eq!(emission_plan(0, 0), vec![Message::Dict, Message::Handles]);
    assert_eq!(
        emission_plan(301, 150),
        vec![
            Message::Dict,
            Message::Rows { offset: 0, end: 150, total: 301 },
            Message::Rows { offset: 150, end: 300, total: 301 },
            Message::Rows { offset: 300, end: 301, total: 301 },
            Message::Events { offset: 0, end: 150, total: 150 },
            Message::Handles,
        ]
    );
}

#[test]
fn phases_follow_on_one_another() {
    let mut c = Course::new();
    let mut told = vec![];
    for p in Phase::all() {
        assert_eq!(c, Course::Before { phase: p });
        // What cannot happen here changes nothing.
        assert_eq!(c.turn(Turn::Completed), None);
        assert_eq!(c.turn(Turn::Looked { cancelled: true }), None);
        told.extend(c.turn(Turn::Begun));
        assert_eq!(c.turn(Turn::Begun), None);
        assert_eq!(c, Course::Within { phase: p });
        told.extend(c.turn(Turn::Completed));
        assert_eq!(c, Course::Behind { phase: p });
        assert_eq!(c.turn(Turn::Looked { cancelled: false }), None);
    }
    assert_eq!(c, Course::Finished);
    let expected: Vec<Told> = Phase::all()
        .into_iter()
        .flat_map(|phase| [Told::Phase { phase, done: false }, Told::Phase { phase, done: true }])
        .collect();
    assert_eq!(told, expected);
}

#[test]
fn ticks_are_told_while_a_long_phase_runs() {
    let mut c = Course::new();
    let mut told = vec![];
    for p in Phase::all() {
        let long = matches!(p, Phase::CommitLoop | Phase::Blame);
        assert_eq!(c.tick(1, 2), None);
        told.extend(c.turn(Turn::Begun));
        let expected = Told::Tick { phase: p, done: 64, total: 64 };
        assert_eq!(c.tick(64, 64), long.then_some(expected));
        // More than there is cannot be done.
        assert_eq!(c.tick(65, 64), None);
        told.extend(c.turn(Turn::Advanced { done: 0, total: 9 }));
        assert_eq!(c, Course::Within { phase: p });
        told.extend(c.turn(Turn::Completed));
        assert_eq!(c.tick(1, 2), None);
        c.turn(Turn::Looked { cancelled: false });
    }
    assert_eq!(told.len(), 22 + 2);
    assert_eq!(told[5], Told::Tick { phase: Phase::CommitLoop, done: 0, total: 9 });
    assert_eq!(told[16], Told::Tick { phase: Phase::Blame, done: 0, total: 9 });
    told.retain(|t| matches!(t, Told::Phase { .. }));
    assert_eq!(told.len(), 22);
}

#[test]
fn a_scan_is_given_up_at_a_boundary() {
    let mut c = Course::new();
    c.turn(Turn::Begun);
    assert_eq!(
        c.turn(Turn::Completed),
        Some(Told::Phase { phase: Phase::Open, done: true })
    );
    c.turn(Turn::Looked { cancelled: true });
    assert_eq!(c, Course::GivenUp);
    assert_eq!(c.turn(Turn::Begun), None);
    let mut c = Course::Within { phase: Phase::Walk };
    assert_eq!(c.turn(Turn::Failed), None);
    assert_eq!(c, Course::GivenUp);
    let mut c = Course::Behind { phase: Phase::Handles };
    c.turn(Turn::Looked { cancelled: true });
    assert_eq!(c, Course::Finished);
}

#[test]
fn a_kept_scan_is_answered_alike() {
    let mut shelf: Shelf<&str> = Shelf::new();
    let (first, none) = shelf.request("/r", Some("h"), true, false);
    assert!(matches!(first, ScanStart::Run));
    assert!(none.is_none());
    let scan = KeptScan::new("summary", vec![scored(0.1), scored(0.9)], 151, 7, Some(b"abc"));
    let n = (scan.rows.len(), scan.events);
    let sent = answer_plan(&first, n.0, n.1);
    let order = emission_order(&scan.rows);
    let note = scan.note(false);
    assert_eq!((note.elapsed_ms, note.original_elapsed_ms, note.cached), (7, None, false));
    shelf.keep("/r", Some("h"), Arc::new(scan));
    shelf.keep("/other", Some("h"), Arc::new(KeptScan::new("x", vec![], 0, 1, None)));

    let (again, hit) = shelf.request("/r", Some("h"), true, false);
    assert!(matches!(again, ScanStart::Serve));
    let hit = hit.unwrap();
    assert_eq!(hit.payload, "summary");
    assert_eq!(emission_order(&hit.rows), order);
    let served = answer_plan(&again, hit.rows.len(), hit.events);
    assert_eq!(sent[0], Message::Meta);
    assert_eq!(served[..2], [Message::Meta, Message::Cached]);
    assert_eq!(sent[23..sent.len() - 1], served[2..served.len() - 1]);
    assert_eq!(sent[sent.len() - 1], Message::Done { cached: false });
    assert_eq!(served[served.len() - 1], Message::Done { cached: true });
    assert!(sent[1..23].iter().all(|m| matches!(m, Message::Phase { .. })));
    assert!(!served
        .iter()
        .any(|m| matches!(m, Message::Phase { .. } | Message::Tick { .. })));
    let second = hit.note(true);
    assert_eq!((second.elapsed_ms, second.original_elapsed_ms, second.cached), (0, Some(7), true));
    assert_eq!(second.digest, note.digest);
    assert_eq!(second.digest, receipt(Some(b"abc")));

    // Another head, a wish for a fresh scan, and what is no repository.
    assert!(matches!(shelf.request("/r", Some("g"), true, false).0, ScanStart::Run));
    assert!(matches!(shelf.request("/r", None, true, false).0, ScanStart::Run));
    assert!(matches!(shelf.request("/r", Some("h"), true, true).0, ScanStart::Run));
    let (refused, none) = shelf.request("/r", Some("h"), false, false);
    assert!(none.is_none());
    assert_eq!(answer_plan(&refused, 3, 3), vec![Message::Refusal]);
    assert!(shelf.find("/r", Some("g")).is_none());
    assert_eq!(shelf.find("/other", Some("h")).unwrap().digest, "");
}

#[test]
fn an_answer_has_a_beginning_and_an_end() {
    for start in [ScanStart::Serve, ScanStart::Run] {
        let all = answer_plan(&start, 200, 0);
        let begin = opening_plan(&start);
        let end = closing_plan(&start, 200, 0);
        assert_eq!(all[..begin.len()], begin[..]);
        assert_eq!(all[all.len() - end.len()..], end[..]);
    }
    assert_eq!(answer_plan(&ScanStart::Run, 0, 0).len(), 1 + 22 + 3);
    assert_eq!(answer_plan(&ScanStart::Serve, 0, 0).len(), 2 + 3);
}

#[test]
fn a_dead_line_stays_dead() {
    let mut l = Line::new();
    assert!(l.sends());
    l.note(true);
    assert!(!l.cancelled());
    l.note(false);
    assert!(l.cancelled());
    assert!(!l.sends());
    l.note(true);
    assert!(l.cancelled());
}

fn repo(name: &str, path: &str) -> RepoEntry {
    RepoEntry {
        name: name.into(),
        path: path.into(),
    }
}

#[test]
fn repositories_are_listed_by_name() {
    let r = list_repos(vec![
        repo("root", "/root"),
        repo("b", "/root/b"),
        repo("a", "/root/a"),
        repo("b", "/other/b"),
        repo("root", "/root"),
    ]);
    let paths: Vec<&str> = r.iter().map(|e| e.path.as_str()).collect();
    assert_eq!(paths, vec!["/root/a", "/root/b", "/other/b", "/root"]);
}

#[test]
fn authors_are_collected_once() {
    assert_eq!(
        collect_authors("B@x\na@x\r\n\n  b@X \n"),
        vec!["a@x", "b@x"]
    );
    assert!(collect_authors("").is_empty());
}

#[test]
fn measures_compare_as_numbers_do() {
    let xs = [0.0, -0.0, 1.5, -1.5, 1e-310, -1e-310, f64::INFINITY, f64::NEG_INFINITY, f64::NAN];
    for a in xs {
        for b in xs {
            assert_eq!(is_greater(a.to_bits(), b.to_bits()), a > b, "{a} > {b}");
            assert_eq!(is_at_least(a.to_bits(), b.to_bits()), a >= b, "{a} >= {b}");
        }
    }
}

#[test]
fn text_is_handled_as_str_does() {
    for s in ["", "  x ", "\u{3000}é\u{a0}", "\u{200b}z\u{200b}", "a\tb\n", "\u{1680}\u{2028}"] {
        assert_eq!(trimmed(s), s.trim());
        assert_eq!(to_lower(s), s.to_ascii_lowercase());
        assert_eq!(string_of(&chars_of(s)), s);
    }
    assert_eq!(to_lower("ÀBC-z"), "Àbc-z");
    let s = chars_of("a/b//c");
    let parts: Vec<String> = split(&s, '/').iter().map(|p| string_of(p)).collect();
    assert_eq!(parts, "a/b//c".split('/').collect::<Vec<&str>>());
    assert_eq!(find_last(&s, '/'), Some(4));
    assert_eq!(find_last(&s, 'q'), None);
    assert!(begins(&s, "a/"));
    assert!(!begins(&s, "b"));
    assert!(ends(&s, "/c"));
    assert!(!ends(&s, "a/b//cc"));
    assert!(holds(&s, "b//"));
    assert!(holds(&s, ""));
    assert!(!holds(&s, "///"));
    assert_eq!(string_of(&drop_trailing(&chars_of("x///"), '/')), "x");
    for n in [0usize, 7, 10, 1999, usize::MAX] {
        assert_eq!(decimal_string(n), n.to_string());
    }
}
