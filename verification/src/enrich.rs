//! Looking up the people of a repository, one question at a time.
//!
//! The lookup needs the remote's URL, a token, a crawl and the local log, each
//! of which somebody else has to fetch. What is needed next, and what becomes
//! of each answer, is decided here.

use vstd::prelude::*;
use vstd::string::*;

use crate::addresses;
use crate::addresses::parse_slug;
use crate::people;
use crate::people::{coverage_of, index_persons, Coverage, KrakenReport, PeopleReport};
use crate::sorted_map;
use crate::sorted_map::SortedMap;
use crate::text;
use crate::text::{is_empty_text, trimmed};

verus! {

/// What the lookup waits for.
pub enum Enrichment {
    /// The URL of the origin remote.
    Remote,
    /// The token of the environment.
    Environment { seed: String },
    /// The credential that the command-line client stored.
    Credential { seed: String },
    /// A crawl from the seed.
    Crawl { seed: String, token: String },
    /// The log of the local history, an author address per line.
    History { seed: String, found: KrakenReport },
    /// Nothing more.
    Done { report: PeopleReport },
}

/// What was fetched.
pub enum Answer {
    /// The configured URL, if there is one.
    Remote(Option<String>),
    /// The variable's value, if it is set.
    Environment(Option<String>),
    /// What the client printed, if it had a credential.
    Credential(Option<String>),
    /// The crawl could not be started, for this reason.
    CrawlNotRun(String),
    /// The crawl failed and printed this.
    CrawlFailed(String),
    /// What the crawl printed cannot be read, for this reason.
    CrawlUnreadable(String),
    /// The crawl's report.
    Crawled(KrakenReport),
    /// The log; empty if it cannot be had.
    History(String),
}

/// The answer is one to what is waited for.
pub open spec fn answers(state: Enrichment, a: Answer) -> bool {
    match state {
        Enrichment::Remote => a is Remote,
        Enrichment::Environment { .. } => a is Environment,
        Enrichment::Credential { .. } => a is Credential,
        Enrichment::Crawl { .. } => a is CrawlNotRun || a is CrawlFailed || a is CrawlUnreadable
            || a is Crawled,
        Enrichment::History { .. } => a is History,
        Enrichment::Done { .. } => false,
    }
}

/// A report without people, which says why.
pub open spec fn is_unavailable(r: PeopleReport, reason: Seq<char>) -> bool {
    &&& !r.available
    &&& r.reason is Some
    &&& r.reason->0@ == reason
    &&& r.seed is None
    &&& r.persons@.len() == 0
    &&& r.by_email.wf()
    &&& r.by_email@ == Map::<Seq<char>, usize>::empty()
    &&& r.coverage.authors == 0
    &&& r.coverage.resolved == 0
    &&& r.coverage.resolved_commits == 0
    &&& r.coverage.local_commits == 0
    &&& r.coverage.unresolvable == 0
    &&& r.stats@ == "{}"@
}

/// The people of the crawl and how far they cover the authors.
pub open spec fn is_enriched(
    r: PeopleReport,
    seed: String,
    found: KrakenReport,
    authors: Seq<String>,
    log: Seq<char>,
) -> bool {
    &&& r.available
    &&& r.reason is None
    &&& r.seed == Some(seed)
    &&& people::are_persons(r.persons@, found.persons@)
    &&& r.by_email.wf()
    &&& people::indexes(r.by_email@, r.persons@)
    &&& people::covers_authors(
        r.coverage,
        people::author_keys(authors),
        r.by_email@.dom(),
        addresses::log_addresses(log),
    )
    &&& r.stats == found.stats
}

/// The lookup is over and gave no people, for this reason.
pub open spec fn ends_without(s: Enrichment, reason: Seq<char>) -> bool {
    s is Done && is_unavailable(s->Done_report, reason)
}

pub open spec fn not_on_github() -> Seq<char> {
    "this repository is not on GitHub, so there are no public profiles to look names up in"@
}

pub open spec fn no_token() -> Seq<char> {
    "no GitHub token available. Set GITHUB_TOKEN, or run `gh auth login` and try again"@
}

/// A private repository, a renamed one and a failed request all give an empty
/// report: none of them is blamed.
pub open spec fn nothing_found(seed: Seq<char>) -> Seq<char> {
    "GitHub returned nothing for `"@ + seed
        + "`. It may be private, renamed, or invisible to this token — or the request may simply have failed this time. Worth retrying."@
}

/// The crawl never reached the repository.
pub open spec fn saw_nothing(r: KrakenReport) -> bool {
    &&& r.persons@.len() == 0
    &&& match r.repos_scanned {
        Some(n) => n == 0,
        None => true,
    }
}

/// What becomes of an answer.
pub open spec fn follows(
    state: Enrichment,
    a: Answer,
    authors: Seq<String>,
    next: Enrichment,
) -> bool {
    match (state, a) {
        (Enrichment::Remote, Answer::Remote(url)) => match url {
            Some(u) => match addresses::slug_of(text::trim(u@)) {
                Some(s) => next is Environment && next->Environment_seed@ == s,
                None => ends_without(next, not_on_github()),
            },
            None => ends_without(next, not_on_github()),
        },
        (Enrichment::Environment { seed }, Answer::Environment(value)) => match value {
            Some(t) => if text::trim(t@).len() > 0 {
                next == (Enrichment::Crawl { seed, token: t })
            } else {
                next == (Enrichment::Credential { seed })
            },
            None => next == (Enrichment::Credential { seed }),
        },
        (Enrichment::Credential { seed }, Answer::Credential(printed)) => match printed {
            Some(t) => if text::trim(t@).len() > 0 {
                next is Crawl && next->Crawl_seed == seed && next->Crawl_token@ == text::trim(t@)
            } else {
                ends_without(next, no_token())
            },
            None => ends_without(next, no_token()),
        },
        (Enrichment::Crawl { .. }, Answer::CrawlNotRun(e)) => ends_without(
            next,
            "kraken is not runnable: "@ + e@,
        ),
        (Enrichment::Crawl { .. }, Answer::CrawlFailed(stderr)) => ends_without(
            next,
            "kraken failed: "@ + text::trim(stderr@),
        ),
        (Enrichment::Crawl { .. }, Answer::CrawlUnreadable(e)) => ends_without(
            next,
            "kraken output unreadable: "@ + e@,
        ),
        (Enrichment::Crawl { seed, .. }, Answer::Crawled(report)) => if saw_nothing(report) {
            ends_without(next, nothing_found(seed@))
        } else {
            next == (Enrichment::History { seed, found: report })
        },
        (Enrichment::History { seed, found }, Answer::History(log)) => {
            &&& next is Done
            &&& is_enriched(next->Done_report, seed, found, authors, log@)
        },
        _ => false,
    }
}

/// How far the lookup is.
pub open spec fn stage(s: Enrichment) -> nat {
    match s {
        Enrichment::Remote => 0,
        Enrichment::Environment { .. } => 1,
        Enrichment::Credential { .. } => 2,
        Enrichment::Crawl { .. } => 3,
        Enrichment::History { .. } => 4,
        Enrichment::Done { .. } => 5,
    }
}

/// Every answer brings the lookup further, so it ends.
pub proof fn enrichment_advances(
    state: Enrichment,
    a: Answer,
    authors: Seq<String>,
    next: Enrichment,
)
    requires
        answers(state, a),
        follows(state, a, authors, next),
    ensures
        stage(state) < stage(next) <= 5,
{
}

/// A report without people is never silent: it says why, and one with people
/// has nothing to excuse.
pub proof fn absence_is_explained(
    state: Enrichment,
    a: Answer,
    authors: Seq<String>,
    next: Enrichment,
)
    requires
        answers(state, a),
        follows(state, a, authors, next),
        next is Done,
    ensures
        next->Done_report.available <==> next->Done_report.reason is None,
        next->Done_report.available <==> state is History,
{
}

/// The seed is kept from where it was found to the report.
pub proof fn seed_is_kept(state: Enrichment, a: Answer, authors: Seq<String>, next: Enrichment)
    requires
        answers(state, a),
        follows(state, a, authors, next),
    ensures
        state matches Enrichment::Environment { seed } ==> (next
            == (Enrichment::Credential { seed }) || (next is Crawl && next->Crawl_seed == seed)),
        state matches Enrichment::Credential { seed } ==> next is Done || (next is Crawl
            && next->Crawl_seed == seed),
        state matches Enrichment::Crawl { seed, .. } ==> next is Done || (next is History
            && next->History_seed == seed),
        state matches Enrichment::History { seed, .. } ==> next is Done
            && next->Done_report.seed == Some(seed),
{
}

/// A report that says why there are no people.
pub fn unavailable(reason: &str) -> (r: PeopleReport)
    ensures
        is_unavailable(r, reason@),
{
    PeopleReport {
        available: false,
        reason: Some(reason.to_owned()),
        seed: None,
        persons: Vec::new(),
        by_email: SortedMap::new(),
        coverage: Coverage {
            authors: 0,
            resolved: 0,
            resolved_commits: 0,
            local_commits: 0,
            unresolvable: 0,
        },
        stats: "{}".to_owned(),
    }
}

fn end_without(reason: &str) -> (r: Enrichment)
    ensures
        ends_without(r, reason@),
{
    Enrichment::Done { report: unavailable(reason) }
}

/// Begin a lookup: a seed that is given, and not blank, is taken as it is,
/// without white space around it; otherwise the remote is asked.
pub fn begin(seed_override: Option<&str>) -> (r: Enrichment)
    ensures
        match seed_override {
            Some(s) => if text::trim(s@).len() > 0 {
                r is Environment && r->Environment_seed@ == text::trim(s@)
            } else {
                r is Remote
            },
            None => r is Remote,
        },
{
    match seed_override {
        Some(s) => {
            let seed = trimmed(s);
            if is_empty_text(seed.as_str()) {
                Enrichment::Remote
            } else {
                Enrichment::Environment { seed }
            }
        },
        None => Enrichment::Remote,
    }
}

/// The arguments of the crawl. It is bounded, since every user that it visits
/// is paid for.
pub fn crawl_arguments(seed: &str) -> (r: Vec<String>)
    ensures
        sorted_map::texts(r@) == seq![
            seed@,
            "-d"@,
            "0"@,
            "--max-users"@,
            "60"@,
            "--max-repos"@,
            "8"@,
            "-f"@,
            "json"@,
        ],
{
    let mut r: Vec<String> = Vec::new();
    r.push(seed.to_owned());
    r.push("-d".to_owned());
    r.push("0".to_owned());
    r.push("--max-users".to_owned());
    r.push("60".to_owned());
    r.push("--max-repos".to_owned());
    r.push("8".to_owned());
    r.push("-f".to_owned());
    r.push("json".to_owned());
    assert(sorted_map::texts(r@) =~= seq![
        seed@,
        "-d"@,
        "0"@,
        "--max-users"@,
        "60"@,
        "--max-repos"@,
        "8"@,
        "-f"@,
        "json"@,
    ]);
    r
}

/// Take the answer to what is waited for.
pub fn advance(state: Enrichment, a: Answer, authors: &[String]) -> (next: Enrichment)
    requires
        answers(state, a),
    ensures
        follows(state, a, authors@, next),
{
    match (state, a) {
        (Enrichment::Remote, Answer::Remote(url)) => {
            let slug = match url {
                Some(u) => parse_slug(trimmed(u.as_str()).as_str()),
                None => None,
            };
            match slug {
                Some(seed) => Enrichment::Environment { seed },
                None => end_without(
                    "this repository is not on GitHub, so there are no public profiles to look names up in",
                ),
            }
        },
        (Enrichment::Environment { seed }, Answer::Environment(value)) => match value {
            Some(token) => {
                if is_empty_text(trimmed(token.as_str()).as_str()) {
                    Enrichment::Credential { seed }
                } else {
                    Enrichment::Crawl { seed, token }
                }
            },
            None => Enrichment::Credential { seed },
        },
        (Enrichment::Credential { seed }, Answer::Credential(printed)) => {
            let token = match printed {
                Some(t) => trimmed(t.as_str()),
                None => String::new(),
            };
            if is_empty_text(token.as_str()) {
                end_without(
                    "no GitHub token available. Set GITHUB_TOKEN, or run `gh auth login` and try again",
                )
            } else {
                Enrichment::Crawl { seed, token }
            }
        },
        (Enrichment::Crawl { .. }, Answer::CrawlNotRun(e)) => {
            let mut reason = "kraken is not runnable: ".to_owned();
            reason.append(e.as_str());
            end_without(reason.as_str())
        },
        (Enrichment::Crawl { .. }, Answer::CrawlFailed(stderr)) => {
            let mut reason = "kraken failed: ".to_owned();
            reason.append(trimmed(stderr.as_str()).as_str());
            end_without(reason.as_str())
        },
        (Enrichment::Crawl { .. }, Answer::CrawlUnreadable(e)) => {
            let mut reason = "kraken output unreadable: ".to_owned();
            reason.append(e.as_str());
            end_without(reason.as_str())
        },
        (Enrichment::Crawl { seed, .. }, Answer::Crawled(report)) => {
            let scanned: u64 = match report.repos_scanned {
                Some(n) => n,
                None => 0,
            };
            if report.persons.len() == 0 && scanned == 0 {
                let mut reason = "GitHub returned nothing for `".to_owned();
                reason.append(seed.as_str());
                reason.append(
                    "`. It may be private, renamed, or invisible to this token — or the request may simply have failed this time. Worth retrying.",
                );
                end_without(reason.as_str())
            } else {
                Enrichment::History { seed, found: report }
            }
        },
        (Enrichment::History { seed, found }, Answer::History(log)) => {
            let (persons, by_email) = index_persons(found.persons);
            let coverage = coverage_of(authors, &by_email, log.as_str());
            Enrichment::Done {
                report: PeopleReport {
                    available: true,
                    reason: None,
                    seed: Some(seed),
                    persons,
                    by_email,
                    coverage,
                    stats: found.stats,
                },
            }
        },
        (other, _) => other,
    }
}

/// A remote on GitHub gives the seed; without one, or with one elsewhere, the
/// lookup ends and says that the repository is not there.
pub proof fn remotes_give_the_seed(
    url: Option<String>,
    authors: Seq<String>,
    next: Enrichment,
)
    requires
        follows(Enrichment::Remote, Answer::Remote(url), authors, next),
    ensures
        url is Some && addresses::slug_of((url->0)@) is Some ==> next is Environment
            && next->Environment_seed@ == addresses::slug_of((url->0)@)->0,
        url is None || addresses::slug_of((url->0)@) is None ==> ends_without(
            next,
            "this repository is not on GitHub, so there are no public profiles to look names up in"@,
        ),
{
    if let Some(u) = url {
        addresses::remotes_ignore_what_surrounds_them(u@, u@);
    }
}

/// A token of the environment is used as it is, and one that the client printed
/// without white space around it. A blank one is none: then the client is
/// asked, and after that the lookup ends and says that there is no token.
pub proof fn blank_tokens_are_none(
    seed: String,
    given: Option<String>,
    authors: Seq<String>,
    next: Enrichment,
)
    ensures
        follows(
            Enrichment::Environment { seed },
            Answer::Environment(given),
            authors,
            next,
        ) ==> (if given is Some && text::trim((given->0)@).len() != 0 {
            next == (Enrichment::Crawl { seed, token: given->0 })
        } else {
            next == (Enrichment::Credential { seed })
        }),
        follows(
            Enrichment::Credential { seed },
            Answer::Credential(given),
            authors,
            next,
        ) ==> (if given is Some && text::trim((given->0)@).len() != 0 {
            next matches Enrichment::Crawl { seed: s, token } && s == seed && token@ == text::trim(
                (given->0)@,
            )
        } else {
            ends_without(
                next,
                "no GitHub token available. Set GITHUB_TOKEN, or run `gh auth login` and try again"@,
            )
        }),
{
}

/// A crawl that did not run, failed or cannot be read ends the lookup with its
/// reason. One that found nobody and reached no repository, or did not say how
/// many, ends it too; with anybody, or with a repository, it goes on.
pub proof fn crawls_end_or_go_on(
    seed: String,
    token: String,
    said: String,
    report: KrakenReport,
    authors: Seq<String>,
    next: Enrichment,
)
    ensures
        follows(
            Enrichment::Crawl { seed, token },
            Answer::CrawlNotRun(said),
            authors,
            next,
        ) ==> ends_without(next, "kraken is not runnable: "@ + said@),
        follows(
            Enrichment::Crawl { seed, token },
            Answer::CrawlFailed(said),
            authors,
            next,
        ) ==> ends_without(next, "kraken failed: "@ + text::trim(said@)),
        follows(
            Enrichment::Crawl { seed, token },
            Answer::CrawlUnreadable(said),
            authors,
            next,
        ) ==> ends_without(next, "kraken output unreadable: "@ + said@),
        follows(Enrichment::Crawl { seed, token }, Answer::Crawled(report), authors, next) && (
        report.persons@.len() > 0 || (report.repos_scanned is Some && report.repos_scanned->0 > 0))
            ==> next == (Enrichment::History { seed, found: report }),
        follows(Enrichment::Crawl { seed, token }, Answer::Crawled(report), authors, next)
            && report.persons@.len() == 0 && (report.repos_scanned is None || report.repos_scanned
            == Some(0u64)) ==> ends_without(
            next,
            "GitHub returned nothing for `"@ + seed@
                + "`. It may be private, renamed, or invisible to this token — or the request may simply have failed this time. Worth retrying."@,
        ),
{
}

/// A lookup that ends without people has none, covers nobody and says why; one
/// that ends with people has those of the crawl, in its order, and its
/// statistics.
pub proof fn reports_hold_the_people_or_say_why(
    r: PeopleReport,
    reason: Seq<char>,
    seed: String,
    found: KrakenReport,
    authors: Seq<String>,
    log: Seq<char>,
)
    ensures
        is_unavailable(r, reason) ==> !r.available && r.reason is Some && (r.reason->0)@ == reason
            && r.seed is None && r.persons@.len() == 0 && r.coverage.authors == 0
            && r.coverage.resolved == 0 && r.coverage.resolved_commits == 0
            && r.coverage.local_commits == 0 && r.coverage.unresolvable == 0 && r.stats@ == "{}"@
            && forall|e: Seq<char>| !#[trigger] r.by_email@.contains_key(e),
        is_enriched(r, seed, found, authors, log) ==> r.available && r.reason is None && r.seed
            == Some(seed) && r.persons@.len() == found.persons@.len() && r.stats == found.stats
            && r.coverage.authors == authors.len() && r.coverage.local_commits
            == addresses::log_addresses(log).len(),
{
}

} // verus!
