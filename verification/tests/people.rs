//! Addresses, people and the lookup.

use exsurvey::addresses::{
    is_employer_domain, is_unresolvable, local_commit_counts, parse_slug,
};
use exsurvey::enrich::{advance, begin, crawl_arguments, unavailable, Answer, Enrichment};
use exsurvey::people::{
    coverage_of, index_persons, person_of, CareerStep, KrakenEmail, KrakenPerson, KrakenProfile,
    KrakenReport, KrakenTimezone, KrakenWorkPattern, PeopleReport,
};

#[test]
fn parses_every_github_remote_form() {
    for u in [
        "git@github.com:copyleftdev/entropyx.git",
        "https://github.com/copyleftdev/entropyx.git",
        "https://github.com/copyleftdev/entropyx",
        "http://github.com/copyleftdev/entropyx",
        "ssh://git@github.com/copyleftdev/entropyx.git",
    ] {
        assert_eq!(
            parse_slug(u).as_deref(),
            Some("copyleftdev/entropyx"),
            "{u}"
        );
    }
}

#[test]
fn rejects_non_github_remotes() {
    assert_eq!(parse_slug("git@gitlab.com:a/b.git"), None);
    assert_eq!(parse_slug("/srv/git/local.git"), None);
    assert_eq!(parse_slug(""), None);
}

#[test]
fn personal_providers_are_never_employers() {
    // A gmail address is corporate-shaped to a naive classifier but
    // says nothing about who anyone works for.
    assert!(!is_employer_domain("gmail.com", "corporate"));
    assert!(!is_employer_domain("users.noreply.github.com", "corporate"));
    assert!(is_employer_domain("codetestcode.io", "corporate"));
}

#[test]
fn non_corporate_kinds_are_never_employers() {
    assert!(!is_employer_domain("mit.edu", "academic"));
    assert!(!is_employer_domain("kernel.org", "open_source"));
}

#[test]
fn noreply_and_bot_addresses_are_unresolvable() {
    assert!(is_unresolvable("12345678+someone@users.noreply.github.com"));
    assert!(is_unresolvable("actions@github.com"));
    assert!(is_unresolvable("dependabot[bot]"));
    assert!(!is_unresolvable("someone@example.com"));
}

#[test]
fn slugs_are_cleaned_up() {
    assert_eq!(parse_slug("  https://github.com/a/b/ \n").as_deref(), Some("a/b"));
    assert_eq!(parse_slug("https://github.com/a/b///").as_deref(), Some("a/b"));
    assert_eq!(parse_slug("https://github.com/a/b/tree/main").as_deref(), Some("a/b"));
    assert_eq!(parse_slug("https://github.com/a.git"), None);
    assert_eq!(parse_slug("https://github.com//b"), None);
    assert_eq!(parse_slug("https://github.com/a//b"), None);
    assert_eq!(parse_slug("git@github.com:a/b.git.git").as_deref(), Some("a/b.git"));
    assert_eq!(parse_slug("HTTPS://github.com/a/b"), None);
}

#[test]
fn case_does_not_hide_a_provider_or_a_relay() {
    assert!(!is_employer_domain("GMail.Com", "corporate"));
    assert!(is_employer_domain("gmail.com.example", "corporate"));
    assert!(!is_employer_domain("example.com", "Corporate"));
    assert!(is_unresolvable("NoReply@Example.com"));
    assert!(is_unresolvable("no-reply@example.com"));
    assert!(is_unresolvable("Renovate[BOT]"));
    assert!(!is_unresolvable("[bot]someone@example.com"));
}

#[test]
fn commits_are_counted_per_address() {
    let c = local_commit_counts("A@x.org\n b@x.org \r\n\na@X.org\n  \nb@x.org");
    assert_eq!(c.total, 4);
    assert_eq!(c.by_email.get("a@x.org"), Some(&2));
    assert_eq!(c.by_email.get("b@x.org"), Some(&2));
    assert_eq!(c.by_email.get("A@x.org"), None);
    let none = local_commit_counts("");
    assert_eq!(none.total, 0);
    assert_eq!(none.by_email.len(), 0);
}

fn email(address: &str, domain: &str, kind: &str) -> KrakenEmail {
    KrakenEmail {
        email: address.into(),
        domain: domain.into(),
        domain_kind: kind.into(),
    }
}

fn person(name: &str, logins: &[&str], emails: Vec<KrakenEmail>) -> KrakenPerson {
    KrakenPerson {
        name: name.into(),
        github_logins: logins.iter().map(|s| s.to_string()).collect(),
        emails,
        orgs: vec!["org".into()],
        total_commits: 7,
        profile: None,
        timezone: None,
        work_pattern: None,
        career: vec![],
    }
}

#[test]
fn a_person_is_described() {
    let mut p = person(
        "",
        &["login", "second"],
        vec![
            email("Me@Gmail.com", "gmail.com", "corporate"),
            email("me@corp.io", "corp.io", "corporate"),
            email("me@other.io", "other.io", "corporate"),
        ],
    );
    p.profile = Some(KrakenProfile {
        company: Some("Corp".into()),
        location: None,
    });
    p.timezone = Some(KrakenTimezone {
        confidence: 0.25f64.to_bits(),
        region: "Europe".into(),
    });
    p.work_pattern = Some(KrakenWorkPattern {
        pattern: "weekday".into(),
    });
    p.career = vec![CareerStep {
        domain: "corp.io".into(),
        kind: "corporate".into(),
        first_seen: "2020".into(),
        last_seen: "2021".into(),
        commits: 3,
    }];
    let r = person_of(p);
    assert_eq!(r.name, "login");
    assert_eq!(r.logins, vec!["login", "second"]);
    assert_eq!(r.emails, vec!["me@gmail.com", "me@corp.io", "me@other.io"]);
    assert_eq!(r.employer.as_deref(), Some("corp.io"));
    assert_eq!(r.company_profile.as_deref(), Some("Corp"));
    assert_eq!(r.location, None);
    assert_eq!(r.orgs, vec!["org"]);
    assert_eq!(r.total_commits, 7);
    assert_eq!(r.timezone.as_deref(), Some("Europe"));
    assert_eq!(r.timezone_confidence, Some(0.25f64.to_bits()));
    assert_eq!(r.work_pattern.as_deref(), Some("weekday"));
    assert_eq!(r.career.len(), 1);
    assert_eq!(r.career[0].commits, 3);

    let bare = person_of(person("Name", &[], vec![]));
    assert_eq!(bare.name, "Name");
    assert_eq!(bare.employer, None);
    assert_eq!(bare.timezone_confidence, None);
    assert_eq!(person_of(person("", &[], vec![])).name, "");
}

#[test]
fn an_address_leads_to_the_last_person_with_it() {
    let (persons, by_email) = index_persons(vec![
        person("one", &[], vec![email("a@x", "x", ""), email("b@x", "x", "")]),
        person("two", &[], vec![email("B@X", "x", "")]),
    ]);
    assert_eq!(persons.len(), 2);
    assert_eq!(by_email.get("a@x"), Some(&0));
    assert_eq!(by_email.get("b@x"), Some(&1));
    assert_eq!(by_email.get("c@x"), None);
}

#[test]
fn coverage_is_told_in_both_dimensions() {
    let (_, by_email) = index_persons(vec![person("p", &[], vec![email("a@x", "x", "")])]);
    let log = "a@x\na@x\na@x\nb@x\nnoreply@x\n";
    let authors: Vec<String> = ["A@x", "b@x", "noreply@x"].iter().map(|s| s.to_string()).collect();
    let c = coverage_of(&authors, &by_email, log);
    assert_eq!(c.authors, 3);
    assert_eq!(c.resolved, 1);
    assert_eq!(c.resolved_commits, 3);
    assert_eq!(c.local_commits, 5);
    assert_eq!(c.unresolvable, 1);
    // Distinct authors never have more commits than there are.
    assert!(c.resolved_commits <= u128::from(c.local_commits));
}

fn reason(s: &Enrichment) -> String {
    match s {
        Enrichment::Done { report } => report.reason.clone().unwrap_or_default(),
        _ => panic!("not done"),
    }
}

fn empty_report() -> KrakenReport {
    KrakenReport {
        persons: vec![],
        repos_scanned: None,
        stats: "{}".into(),
    }
}

fn crawl() -> Enrichment {
    Enrichment::Crawl {
        seed: "o/n".into(),
        token: "t".into(),
    }
}

#[test]
fn a_seed_is_taken_or_asked_for() {
    assert!(matches!(begin(None), Enrichment::Remote));
    assert!(matches!(begin(Some("  \t")), Enrichment::Remote));
    match begin(Some(" torvalds ")) {
        Enrichment::Environment { seed } => assert_eq!(seed, "torvalds"),
        _ => panic!("expected the seed"),
    }
    match advance(
        Enrichment::Remote,
        Answer::Remote(Some("git@github.com:o/n.git\n".into())),
        &[],
    ) {
        Enrichment::Environment { seed } => assert_eq!(seed, "o/n"),
        _ => panic!("expected the slug"),
    }
}

#[test]
fn no_remote_is_explained() {
    let want =
        "this repository is not on GitHub, so there are no public profiles to look names up in";
    let s = advance(Enrichment::Remote, Answer::Remote(None), &[]);
    assert_eq!(reason(&s), want);
    let s = advance(
        Enrichment::Remote,
        Answer::Remote(Some("git@gitlab.com:a/b.git".into())),
        &[],
    );
    assert_eq!(reason(&s), want);
}

#[test]
fn a_token_comes_from_the_environment_or_the_client() {
    let at = || Enrichment::Environment { seed: "s".into() };
    match advance(at(), Answer::Environment(Some(" tok ".into())), &[]) {
        Enrichment::Crawl { seed, token } => {
            assert_eq!(seed, "s");
            assert_eq!(token, " tok ");
        }
        _ => panic!("expected a crawl"),
    }
    for blank in [None, Some(" \n".to_string())] {
        assert!(matches!(
            advance(at(), Answer::Environment(blank), &[]),
            Enrichment::Credential { .. }
        ));
    }
    let at = || Enrichment::Credential { seed: "s".into() };
    match advance(at(), Answer::Credential(Some("tok\n".into())), &[]) {
        Enrichment::Crawl { token, .. } => assert_eq!(token, "tok"),
        _ => panic!("expected a crawl"),
    }
    for blank in [None, Some("\n".to_string())] {
        let s = advance(at(), Answer::Credential(blank), &[]);
        assert_eq!(
            reason(&s),
            "no GitHub token available. Set GITHUB_TOKEN, or run `gh auth login` and try again"
        );
    }
}

#[test]
fn a_crawl_that_fails_is_explained() {
    let s = advance(crawl(), Answer::CrawlNotRun("gone".into()), &[]);
    assert_eq!(reason(&s), "kraken is not runnable: gone");
    let s = advance(crawl(), Answer::CrawlFailed(" rate limit \n".into()), &[]);
    assert_eq!(reason(&s), "kraken failed: rate limit");
    let s = advance(crawl(), Answer::CrawlUnreadable("eof".into()), &[]);
    assert_eq!(reason(&s), "kraken output unreadable: eof");
    let s = advance(crawl(), Answer::Crawled(empty_report()), &[]);
    assert_eq!(
        reason(&s),
        "GitHub returned nothing for `o/n`. It may be private, renamed, or invisible to \
         this token — or the request may simply have failed this time. Worth retrying."
    );
}

#[test]
fn an_empty_crawl_that_reached_the_repository_goes_on() {
    let mut r = empty_report();
    r.repos_scanned = Some(1);
    assert!(matches!(
        advance(crawl(), Answer::Crawled(r), &[]),
        Enrichment::History { .. }
    ));
}

#[test]
fn a_lookup_comes_to_its_end() {
    let found = KrakenReport {
        persons: vec![person("P", &["p"], vec![email("a@x", "corp.io", "corporate")])],
        repos_scanned: Some(2),
        stats: "{\"repos_scanned\":2}".into(),
    };
    let authors = vec!["a@x".to_string(), "b@x".to_string()];
    let s = advance(crawl(), Answer::Crawled(found), &authors);
    let s = advance(s, Answer::History("a@x\nb@x\na@x\n".into()), &authors);
    let report: PeopleReport = match s {
        Enrichment::Done { report } => report,
        _ => panic!("not done"),
    };
    assert!(report.available);
    assert_eq!(report.reason, None);
    assert_eq!(report.seed.as_deref(), Some("o/n"));
    assert_eq!(report.persons[0].employer.as_deref(), Some("corp.io"));
    assert_eq!(report.by_email.get("a@x"), Some(&0));
    assert_eq!(report.coverage.resolved, 1);
    assert_eq!(report.coverage.resolved_commits, 2);
    assert_eq!(report.coverage.local_commits, 3);
    assert_eq!(report.stats, "{\"repos_scanned\":2}");
}

#[test]
fn an_unavailable_report_is_empty_and_says_why() {
    let r = unavailable("because");
    assert!(!r.available);
    assert_eq!(r.reason.as_deref(), Some("because"));
    assert_eq!(r.seed, None);
    assert!(r.persons.is_empty());
    assert_eq!(r.by_email.len(), 0);
    assert_eq!(r.coverage.authors, 0);
    assert_eq!(r.stats, "{}");
}

#[test]
fn the_crawl_is_bounded() {
    assert_eq!(
        crawl_arguments("o/n"),
        vec!["o/n", "-d", "0", "--max-users", "60", "--max-repos", "8", "-f", "json"]
    );
}
