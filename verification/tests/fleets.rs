//! Peer sets.

use exsurvey::fleets::{cap, detect, MAX_FLEETS, MAX_MEMBERS};

fn paths(v: &[&str]) -> Vec<String> {
    v.iter().map(|s| s.to_string()).collect()
}

#[test]
fn same_basename_across_directories_is_a_fleet() {
    let f = detect(&paths(&[
        "packages/a/package.json",
        "packages/b/package.json",
        "packages/c/package.json",
    ]));
    assert_eq!(f.len(), 1);
    assert_eq!(f[0].rule, "basename");
    assert_eq!(f[0].members.len(), 3);
}

#[test]
fn source_files_sharing_a_name_are_not_a_fleet() {
    let f = detect(&paths(&[
        "crates/a/src/lib.rs",
        "crates/b/src/lib.rs",
        "crates/c/src/lib.rs",
    ]));
    assert!(f.is_empty(), "got {f:?}");
}

#[test]
fn config_extension_in_one_directory_is_a_fleet() {
    let f = detect(&paths(&[
        ".github/workflows/ci.yml",
        ".github/workflows/release.yml",
        ".github/workflows/nightly.yml",
    ]));
    assert_eq!(f.len(), 1);
    assert_eq!(f[0].rule, "extension");
}

#[test]
fn two_files_do_not_make_an_extension_fleet() {
    let f = detect(&paths(&[
        ".github/workflows/ci.yml",
        ".github/workflows/release.yml",
    ]));
    assert!(f.is_empty());
}

#[test]
fn extensionless_named_files_are_fleetable() {
    let f = detect(&paths(&["svc/a/Dockerfile", "svc/b/Dockerfile"]));
    assert_eq!(f.len(), 1);
    assert_eq!(f[0].rule, "basename");
}

#[test]
fn oversized_fleets_report_their_truncation() {
    let many: Vec<String> = (0..80).map(|i| format!("pkg/{i}/package.json")).collect();
    let f = detect(&many);
    assert_eq!(f.len(), 1);
    assert_eq!(f[0].members.len(), MAX_MEMBERS);
    assert_eq!(f[0].truncated, 80 - MAX_MEMBERS);
    assert!(
        f[0].label.contains("80"),
        "label should state the true size"
    );
}

#[test]
fn markdown_and_prose_are_not_fleets() {
    let f = detect(&paths(&["docs/a/README.md", "docs/b/README.md"]));
    assert!(f.is_empty());
}

#[test]
fn ids_and_labels_are_spelled_out() {
    let f = detect(&paths(&[
        "b.toml",
        "a.toml",
        "c.toml",
        "x/k8s.yaml",
        "y/k8s.yaml",
    ]));
    assert_eq!(f.len(), 2);
    assert_eq!(f[0].id, "ext::toml");
    assert_eq!(f[0].label, "repository root/*.toml × 3");
    assert_eq!(f[0].members, vec!["a.toml", "b.toml", "c.toml"]);
    assert_eq!(f[0].truncated, 0);
    assert_eq!(f[1].id, "basename:k8s.yaml");
    assert_eq!(f[1].label, "k8s.yaml × 2");
    assert_eq!(f[1].members, vec!["x/k8s.yaml", "y/k8s.yaml"]);
}

#[test]
fn a_directory_label_names_the_directory() {
    let f = detect(&paths(&["d/e/1.sql", "d/e/2.sql", "d/e/3.sql"]));
    assert_eq!(f[0].id, "ext:d/e:sql");
    assert_eq!(f[0].label, "d/e/*.sql × 3");
}

#[test]
fn a_set_is_reported_once() {
    // The same three files by name and by extension: given twice each, the
    // basename fleet has as many members as the directory's group.
    let f = detect(&paths(&["d/x.json", "d/x.json", "d/x.json"]));
    assert_eq!(f.len(), 1);
    assert_eq!(f[0].rule, "basename");
    assert_eq!(f[0].members.len(), 3);
}

#[test]
fn larger_fleets_come_first_and_ties_go_by_id() {
    let f = detect(&paths(&[
        "a/one.cfg", "b/one.cfg", "a/two.cfg", "b/two.cfg", "c/two.cfg", "a/zero.cfg", "b/zero.cfg",
    ]));
    let ids: Vec<&str> = f.iter().map(|x| x.id.as_str()).collect();
    assert_eq!(
        ids,
        vec![
            "basename:two.cfg",
            "ext:a:cfg",
            "ext:b:cfg",
            "basename:one.cfg",
            "basename:zero.cfg",
        ]
    );
}

#[test]
fn no_more_fleets_than_are_kept() {
    let mut many = Vec::new();
    for i in 0..40 {
        many.push(format!("a/n{i:02}.lock"));
        many.push(format!("b/n{i:02}.lock"));
    }
    let f = detect(&many);
    assert_eq!(f.len(), MAX_FLEETS);
    assert_eq!(f[0].id, "basename:n00.lock");
    assert_eq!(f[23].id, "basename:n23.lock");
}

#[test]
fn named_files_match_in_any_case() {
    let f = detect(&paths(&["a/MAKEFILE", "b/MAKEFILE", "a/other", "b/other"]));
    assert_eq!(f.len(), 1);
    assert_eq!(f[0].id, "basename:MAKEFILE");
}

#[test]
fn fleets_do_not_depend_on_the_order_of_paths() {
    let mut p = paths(&[
        "a/x.ini", "a/y.ini", "a/z.ini", "b/x.ini", "c/CODEOWNERS", "d/CODEOWNERS",
    ]);
    let one = detect(&p);
    p.reverse();
    let two = detect(&p);
    assert_eq!(one.len(), two.len());
    for (a, b) in one.iter().zip(&two) {
        assert_eq!(a.id, b.id);
        assert_eq!(a.members, b.members);
    }
}

#[test]
fn cap_counts_what_it_drops() {
    let all: Vec<String> = (0..61).map(|i| format!("{i}")).collect();
    let refs: Vec<&String> = all.iter().collect();
    let (kept, dropped) = cap(refs);
    assert_eq!(kept.len(), 60);
    assert_eq!(kept[0], "0");
    assert_eq!(kept[59], "59");
    assert_eq!(dropped, 1);
    let (kept, dropped) = cap(Vec::new());
    assert!(kept.is_empty());
    assert_eq!(dropped, 0);
}
