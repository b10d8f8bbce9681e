//! Who is behind the addresses of a history.
//!
//! The local history knows addresses; a crawl of public profiles knows people.
//! The two join on the address. Coverage is told by headcount and by
//! contribution, since the people that a crawl finds are the prolific ones.

use vstd::prelude::*;

use crate::addresses;
use crate::addresses::{
    is_employer_domain, is_unresolvable, local_commit_counts,
};
use crate::ranking::reversed;
use crate::sorted_map;
use crate::sorted_map::SortedMap;
use crate::text;
use crate::text::{is_empty_text, to_lower};

verus! {

// ---- what the crawl reports -----------------------------------------

#[derive(Debug)]
pub struct KrakenReport {
    pub persons: Vec<KrakenPerson>,
    /// How many repositories were reached, if that was said.
    pub repos_scanned: Option<u64>,
    /// The statistics as JSON text.
    pub stats: String,
}

#[derive(Debug)]
pub struct KrakenPerson {
    pub name: String,
    pub github_logins: Vec<String>,
    pub emails: Vec<KrakenEmail>,
    pub orgs: Vec<String>,
    pub total_commits: u64,
    pub profile: Option<KrakenProfile>,
    pub timezone: Option<KrakenTimezone>,
    pub work_pattern: Option<KrakenWorkPattern>,
    pub career: Vec<CareerStep>,
}

#[derive(Debug)]
pub struct KrakenEmail {
    pub email: String,
    pub domain: String,
    pub domain_kind: String,
}

#[derive(Debug)]
pub struct KrakenProfile {
    pub company: Option<String>,
    pub location: Option<String>,
}

#[derive(Debug)]
pub struct KrakenTimezone {
    /// Bits of the confidence.
    pub confidence: u64,
    pub region: String,
}

#[derive(Debug)]
pub struct KrakenWorkPattern {
    pub pattern: String,
}

// ---- what is made of it ---------------------------------------------

#[derive(Debug)]
pub struct Person {
    pub name: String,
    pub logins: Vec<String>,
    /// Every known address of this person, in lower case.
    pub emails: Vec<String>,
    /// The first domain of theirs that is an employer's.
    pub employer: Option<String>,
    pub company_profile: Option<String>,
    pub location: Option<String>,
    pub orgs: Vec<String>,
    /// Commits across all repositories that the crawl saw, not this one.
    pub total_commits: u64,
    pub timezone: Option<String>,
    /// Bits of the confidence.
    pub timezone_confidence: Option<u64>,
    pub work_pattern: Option<String>,
    pub career: Vec<CareerStep>,
}

#[derive(Clone, Debug)]
pub struct CareerStep {
    pub domain: String,
    pub kind: String,
    pub first_seen: String,
    pub last_seen: String,
    pub commits: u64,
}

#[derive(Debug)]
pub struct Coverage {
    /// Author addresses in the local history.
    pub authors: usize,
    /// How many of those have a person behind them.
    pub resolved: usize,
    /// Local commits by resolved authors, of all local commits: their
    /// quotient is the share by contribution, and is zero without commits.
    pub resolved_commits: u128,
    pub local_commits: u64,
    /// Addresses that can never resolve.
    pub unresolvable: usize,
}

pub struct PeopleReport {
    pub available: bool,
    /// Why there are no people, when there are none.
    pub reason: Option<String>,
    pub seed: Option<String>,
    pub persons: Vec<Person>,
    pub by_email: SortedMap<usize>,
    pub coverage: Coverage,
    /// The statistics as JSON text.
    pub stats: String,
}

// ---- one person ------------------------------------------------------

/// The addresses in lower case.
pub open spec fn lowered(emails: Seq<KrakenEmail>) -> Seq<Seq<char>> {
    emails.map_values(|e: KrakenEmail| text::lower_text(e.email@))
}

/// The first domain that is an employer's.
pub open spec fn first_employer(emails: Seq<KrakenEmail>) -> Option<Seq<char>>
    decreases emails.len(),
{
    if emails.len() == 0 {
        None
    } else if addresses::employer_domain(emails[0].domain@, emails[0].domain_kind@) {
        Some(emails[0].domain@)
    } else {
        first_employer(emails.drop_first())
    }
}

/// The name, or the first login in its place.
pub open spec fn display_name(p: KrakenPerson) -> Seq<char> {
    if p.name@.len() > 0 {
        p.name@
    } else if p.github_logins@.len() > 0 {
        p.github_logins@[0]@
    } else {
        Seq::empty()
    }
}

/// `r` is the person that the crawl found.
pub open spec fn is_person(r: Person, p: KrakenPerson) -> bool {
    &&& r.name@ == display_name(p)
    &&& r.logins == p.github_logins
    &&& sorted_map::texts(r.emails@) == lowered(p.emails@)
    &&& match r.employer {
        Some(d) => first_employer(p.emails@) == Some(d@),
        None => first_employer(p.emails@) is None,
    }
    &&& r.company_profile == match p.profile {
        Some(x) => x.company,
        None => None,
    }
    &&& r.location == match p.profile {
        Some(x) => x.location,
        None => None,
    }
    &&& r.orgs == p.orgs
    &&& r.total_commits == p.total_commits
    &&& r.timezone == match p.timezone {
        Some(t) => Some(t.region),
        None => None,
    }
    &&& r.timezone_confidence == match p.timezone {
        Some(t) => Some(t.confidence),
        None => None,
    }
    &&& r.work_pattern == match p.work_pattern {
        Some(w) => Some(w.pattern),
        None => None,
    }
    &&& r.career == p.career
}

fn employer_of(emails: &Vec<KrakenEmail>) -> (r: Option<String>)
    ensures
        match r {
            Some(d) => first_employer(emails@) == Some(d@),
            None => first_employer(emails@) is None,
        },
{
    let mut i: usize = 0;
    assert(emails@.skip(0) =~= emails@);
    while i < emails.len()
        invariant
            i <= emails@.len(),
            first_employer(emails@) == first_employer(emails@.skip(i as int)),
        decreases emails@.len() - i,
    {
        let e = &emails[i];
        assert(emails@.skip(i as int).drop_first() =~= emails@.skip(i + 1));
        if is_employer_domain(e.domain.as_str(), e.domain_kind.as_str()) {
            return Some(e.domain.clone());
        }
        i = i + 1;
    }
    None
}

fn lower_emails(emails: &Vec<KrakenEmail>) -> (r: Vec<String>)
    ensures
        sorted_map::texts(r@) == lowered(emails@),
{
    let mut r: Vec<String> = Vec::new();
    let mut i: usize = 0;
    while i < emails.len()
        invariant
            i <= emails@.len(),
            sorted_map::texts(r@) == lowered(emails@).take(i as int),
        decreases emails@.len() - i,
    {
        let ghost r0 = r@;
        let e = to_lower(emails[i].email.as_str());
        r.push(e);
        assert(sorted_map::texts(r@) =~= sorted_map::texts(r0).push(e@));
        assert(lowered(emails@).take(i + 1) =~= lowered(emails@).take(i as int).push(e@));
        i = i + 1;
    }
    assert(lowered(emails@).take(i as int) =~= lowered(emails@));
    r
}

/// The person that the crawl found.
pub fn person_of(p: KrakenPerson) -> (r: Person)
    ensures
        is_person(r, p),
{
    let employer = employer_of(&p.emails);
    let emails = lower_emails(&p.emails);
    let name = if !is_empty_text(p.name.as_str()) {
        p.name
    } else if p.github_logins.len() > 0 {
        p.github_logins[0].clone()
    } else {
        String::new()
    };
    let (company_profile, location) = match p.profile {
        Some(x) => (x.company, x.location),
        None => (None, None),
    };
    let (timezone, timezone_confidence) = match p.timezone {
        Some(t) => (Some(t.region), Some(t.confidence)),
        None => (None, None),
    };
    let work_pattern = match p.work_pattern {
        Some(w) => Some(w.pattern),
        None => None,
    };
    Person {
        name,
        logins: p.github_logins,
        emails,
        employer,
        company_profile,
        location,
        orgs: p.orgs,
        total_commits: p.total_commits,
        timezone,
        timezone_confidence,
        work_pattern,
        career: p.career,
    }
}

// ---- whose address it is --------------------------------------------

/// The last person with the address.
pub open spec fn last_holder(persons: Seq<Person>, e: Seq<char>) -> Option<int>
    decreases persons.len(),
{
    if persons.len() == 0 {
        None
    } else if sorted_map::texts(persons.last().emails@).contains(e) {
        Some(persons.len() - 1)
    } else {
        last_holder(persons.drop_last(), e)
    }
}

/// Every known address leads to the last person with it.
pub open spec fn indexes(m: Map<Seq<char>, usize>, persons: Seq<Person>) -> bool {
    forall|e: Seq<char>|
        #![trigger m.contains_key(e)]
        #![trigger last_holder(persons, e)]
        match last_holder(persons, e) {
            Some(i) => m.contains_key(e) && m[e] == i,
            None => !m.contains_key(e),
        }
}

/// An address leads to a person who has it, and to no earlier one.
pub proof fn index_leads_to_holder(persons: Seq<Person>, e: Seq<char>)
    ensures
        match last_holder(persons, e) {
            Some(i) => 0 <= i < persons.len() && sorted_map::texts(
                persons[i].emails@,
            ).contains(e) && forall|j: int|
                i < j < persons.len() ==> !sorted_map::texts(
                    (#[trigger] persons[j]).emails@,
                ).contains(e),
            None => forall|j: int|
                0 <= j < persons.len() ==> !sorted_map::texts(
                    (#[trigger] persons[j]).emails@,
                ).contains(e),
        },
    decreases persons.len(),
{
    if persons.len() > 0 {
        index_leads_to_holder(persons.drop_last(), e);
        assert forall|j: int| 0 <= j < persons.len() - 1 implies persons.drop_last()[j]
            == #[trigger] persons[j] by {}
    }
}

/// Lead every address of a person to that person.
fn note_emails(m: &mut SortedMap<usize>, p: &Person, idx: usize)
    requires
        old(m).wf(),
    ensures
        final(m).wf(),
        forall|e: Seq<char>| #[trigger]
            final(m)@.contains_key(e) <==> old(m)@.contains_key(e) || sorted_map::texts(
                p.emails@,
            ).contains(e),
        forall|e: Seq<char>| #[trigger]
            final(m)@.contains_key(e) ==> final(m)@[e] == if sorted_map::texts(
                p.emails@,
            ).contains(e) {
                idx
            } else {
                old(m)@[e]
            },
{
    let ghost es = sorted_map::texts(p.emails@);
    let mut i: usize = 0;
    assert(es.take(0) =~= Seq::empty());
    while i < p.emails.len()
        invariant
            i <= p.emails@.len(),
            es == sorted_map::texts(p.emails@),
            m.wf(),
            forall|e: Seq<char>| #[trigger]
                m@.contains_key(e) <==> old(m)@.contains_key(e) || es.take(i as int).contains(e),
            forall|e: Seq<char>| #[trigger]
                m@.contains_key(e) ==> m@[e] == if es.take(i as int).contains(e) {
                    idx
                } else {
                    old(m)@[e]
                },
        decreases p.emails@.len() - i,
    {
        m.put(p.emails[i].as_str(), idx);
        proof {
            let k = es[i as int];
            assert forall|e: Seq<char>| #[trigger] es.take(i + 1).contains(e) <==> es.take(
                i as int,
            ).contains(e) || e == k by {
                assert(es.take(i + 1)[i as int] == k);
                if es.take(i as int).contains(e) {
                    let j = choose|j: int| 0 <= j < i && es.take(i as int)[j] == e;
                    assert(es.take(i + 1)[j] == e);
                }
                if es.take(i + 1).contains(e) {
                    let j = es.take(i + 1).index_of(e);
                    if j < i {
                        assert(es.take(i as int)[j] == e);
                    }
                }
            }
        }
        i = i + 1;
    }
    assert(es.take(i as int) =~= es);
}

/// The people, and whose each address is.
pub open spec fn are_persons(rs: Seq<Person>, ps: Seq<KrakenPerson>) -> bool {
    &&& rs.len() == ps.len()
    &&& forall|i: int| 0 <= i < rs.len() ==> is_person(#[trigger] rs[i], ps[i])
}

/// Take the people of a crawl, and note whose each address is.
pub fn index_persons(found: Vec<KrakenPerson>) -> (r: (Vec<Person>, SortedMap<usize>))
    ensures
        are_persons(r.0@, found@),
        r.1.wf(),
        indexes(r.1@, r.0@),
{
    let ghost all = found@;
    let mut persons: Vec<Person> = Vec::new();
    let mut rest = reversed(found);
    let mut by_email: SortedMap<usize> = SortedMap::new();
    while rest.len() > 0
        invariant
            rest@.len() + persons@.len() == all.len(),
            forall|i: int| 0 <= i < rest@.len() ==> rest@[i] == all[all.len() - 1 - i],
            forall|i: int| 0 <= i < persons@.len() ==> is_person(#[trigger] persons@[i], all[i]),
            by_email.wf(),
            indexes(by_email@, persons@),
        decreases rest@.len(),
    {
        let idx: usize = persons.len();
        let p = person_of(rest.pop().unwrap());
        let ghost m0 = by_email@;
        let ghost ps0 = persons@;
        note_emails(&mut by_email, &p, idx);
        persons.push(p);
        proof {
            assert(persons@.drop_last() =~= ps0);
            assert forall|e: Seq<char>|
                #![trigger by_email@.contains_key(e)]
                #![trigger last_holder(persons@, e)]
                match last_holder(persons@, e) {
                    Some(i) => by_email@.contains_key(e) && by_email@[e] == i,
                    None => !by_email@.contains_key(e),
                } by {
                assert(m0.contains_key(e) || !m0.contains_key(e));
                assert(by_email@.contains_key(e) || !by_email@.contains_key(e));
            }
        }
    }
    (persons, by_email)
}

// ---- coverage --------------------------------------------------------

/// The addresses in lower case.
pub open spec fn author_keys(authors: Seq<String>) -> Seq<Seq<char>> {
    authors.map_values(|a: String| text::lower_text(a@))
}

/// How many of the addresses can never resolve.
pub open spec fn count_unresolvable(keys: Seq<Seq<char>>) -> nat
    decreases keys.len(),
{
    if keys.len() == 0 {
        0
    } else {
        count_unresolvable(keys.drop_last()) + if addresses::unresolvable(keys.last()) {
            1nat
        } else {
            0
        }
    }
}

/// How many of the addresses are known.
pub open spec fn count_resolved(keys: Seq<Seq<char>>, known: Set<Seq<char>>) -> nat
    decreases keys.len(),
{
    if keys.len() == 0 {
        0
    } else {
        count_resolved(keys.drop_last(), known) + if known.contains(keys.last()) {
            1nat
        } else {
            0
        }
    }
}

/// How many of the logged commits are by known addresses of the list.
pub open spec fn commits_resolved(
    keys: Seq<Seq<char>>,
    known: Set<Seq<char>>,
    log: Seq<Seq<char>>,
) -> nat
    decreases keys.len(),
{
    if keys.len() == 0 {
        0
    } else {
        commits_resolved(keys.drop_last(), known, log) + if known.contains(keys.last()) {
            addresses::times(log, keys.last())
        } else {
            0
        }
    }
}

/// The coverage of some authors by known addresses, over a log.
pub open spec fn covers_authors(
    c: Coverage,
    keys: Seq<Seq<char>>,
    known: Set<Seq<char>>,
    log: Seq<Seq<char>>,
) -> bool {
    &&& c.authors == keys.len()
    &&& c.resolved == count_resolved(keys, known)
    &&& c.resolved_commits == commits_resolved(keys, known, log)
    &&& c.local_commits == log.len()
    &&& c.unresolvable == count_unresolvable(keys)
}

/// The share by headcount is a share.
pub proof fn resolved_at_most_authors(keys: Seq<Seq<char>>, known: Set<Seq<char>>)
    ensures
        count_resolved(keys, known) <= keys.len(),
        count_unresolvable(keys) <= keys.len(),
    decreases keys.len(),
{
    if keys.len() > 0 {
        resolved_at_most_authors(keys.drop_last(), known);
    }
}

proof fn lemma_without(log: Seq<Seq<char>>, e: Seq<char>, f: Seq<char>)
    requires
        f != e,
    ensures
        addresses::times(log.filter(|x: Seq<char>| x != e), f) == addresses::times(log, f),
        log.filter(|x: Seq<char>| x != e).len() + addresses::times(log, e) == log.len(),
    decreases log.len(),
{
    reveal(Seq::filter);
    if log.len() > 0 {
        let p = |x: Seq<char>| x != e;
        lemma_without(log.drop_last(), e, f);
        let kept = log.drop_last().filter(p);
        if log.last() != e {
            assert(kept.push(log.last()).drop_last() =~= kept);
        }
    }
}

proof fn lemma_commits_without(
    keys: Seq<Seq<char>>,
    known: Set<Seq<char>>,
    log: Seq<Seq<char>>,
    e: Seq<char>,
)
    requires
        !keys.contains(e),
    ensures
        commits_resolved(keys, known, log.filter(|x: Seq<char>| x != e)) == commits_resolved(
            keys,
            known,
            log,
        ),
    decreases keys.len(),
{
    if keys.len() > 0 {
        assert(keys.contains(keys.last()));
        assert(!keys.drop_last().contains(e)) by {
            if keys.drop_last().contains(e) {
                let j = choose|j: int| 0 <= j < keys.drop_last().len() && keys.drop_last()[j] == e;
                assert(keys[j] == e);
            }
        }
        lemma_commits_without(keys.drop_last(), known, log, e);
        lemma_without(log, e, keys.last());
    }
}

/// Where no author is listed twice, the share by contribution is a share.
pub proof fn resolved_commits_at_most_logged(
    keys: Seq<Seq<char>>,
    known: Set<Seq<char>>,
    log: Seq<Seq<char>>,
)
    requires
        keys.no_duplicates(),
    ensures
        commits_resolved(keys, known, log) <= log.len(),
    decreases keys.len(),
{
    if keys.len() > 0 {
        let e = keys.last();
        let front = keys.drop_last();
        assert(!front.contains(e)) by {
            if front.contains(e) {
                let j = choose|j: int| 0 <= j < front.len() && front[j] == e;
                assert(keys[j] == keys[keys.len() - 1]);
            }
        }
        let rest = log.filter(|x: Seq<char>| x != e);
        lemma_commits_without(front, known, log, e);
        let other = e.push('x');
        assert(other != e) by {
            assert(other.len() != e.len());
        }
        lemma_without(log, e, other);
        resolved_commits_at_most_logged(front, known, rest);
    }
}

/// How far the people cover the authors of the local history.
pub fn coverage_of(
    authors: &[String],
    by_email: &SortedMap<usize>,
    log: &str,
) -> (r: Coverage)
    requires
        by_email.wf(),
    ensures
        covers_authors(
            r,
            author_keys(authors@),
            by_email@.dom(),
            addresses::log_addresses(log@),
        ),
{
    let local = local_commit_counts(log);
    let ghost log = addresses::log_addresses(log@);
    let ghost keys = author_keys(authors@);
    let ghost known = by_email@.dom();
    let mut resolved: usize = 0;
    let mut resolved_commits: u128 = 0;
    let mut unresolvable: usize = 0;
    let mut i: usize = 0;
    assert(keys.take(0) =~= Seq::empty());
    while i < authors.len()
        invariant
            i <= authors@.len(),
            keys == author_keys(authors@),
            known == by_email@.dom(),
            by_email.wf(),
            local.by_email.wf(),
            addresses::counts(local.by_email@, log),
            local.total == log.len(),
            resolved <= i,
            unresolvable <= i,
            resolved_commits <= i * local.total,
            resolved == count_resolved(keys.take(i as int), known),
            resolved_commits == commits_resolved(keys.take(i as int), known, log),
            unresolvable == count_unresolvable(keys.take(i as int)),
        decreases authors@.len() - i,
    {
        let key = to_lower(authors[i].as_str());
        proof {
            assert(keys.take(i + 1).drop_last() =~= keys.take(i as int));
            assert(keys.take(i + 1).last() == key@);
            addresses::times_bounded(log, key@);
            assert(i * local.total + local.total == (i + 1) * local.total) by (nonlinear_arith);
            assert((i + 1) * local.total <= u128::MAX) by (nonlinear_arith)
                requires
                    i + 1 <= u64::MAX + 1,
                    local.total <= u64::MAX,
            ;
            assert(i * local.total <= (i + 1) * local.total) by (nonlinear_arith);
        }
        if is_unresolvable(key.as_str()) {
            unresolvable = unresolvable + 1;
        }
        if by_email.contains(key.as_str()) {
            resolved = resolved + 1;
            let n: u64 = match local.by_email.get(key.as_str()) {
                Some(n) => *n,
                None => 0,
            };
            assert(n == addresses::times(log, key@));
            resolved_commits = resolved_commits + n as u128;
        }
        i = i + 1;
    }
    assert(keys.take(i as int) =~= keys);
    Coverage {
        authors: authors.len(),
        resolved,
        resolved_commits,
        local_commits: local.total,
        unresolvable,
    }
}

/// A free provider is never an employer.
pub proof fn employer_is_never_personal(emails: Seq<KrakenEmail>)
    ensures
        first_employer(emails) matches Some(d) ==> !addresses::personal(d),
    decreases emails.len(),
{
    if emails.len() > 0 {
        employer_is_never_personal(emails.drop_first());
    }
}

// ---- what holds of people --------------------------------------------

/// A person has what the crawl said of them, each thing in its own place: the
/// name, or failing that the first login; the logins, organisations, career
/// and commits as they were; company and place off the profile; region and
/// confidence off the time zone; and every address in lower case.
pub proof fn persons_are_as_found(r: Person, p: KrakenPerson)
    requires
        is_person(r, p),
    ensures
        p.name@.len() > 0 ==> r.name@ == p.name@,
        p.name@.len() == 0 && p.github_logins@.len() > 0 ==> r.name@ == p.github_logins@[0]@,
        p.name@.len() == 0 && p.github_logins@.len() == 0 ==> r.name@.len() == 0,
        r.logins == p.github_logins,
        r.orgs == p.orgs,
        r.career == p.career,
        r.total_commits == p.total_commits,
        p.profile matches Some(x) ==> r.company_profile == x.company && r.location == x.location,
        p.profile is None ==> r.company_profile is None && r.location is None,
        p.timezone matches Some(t) ==> r.timezone == Some(t.region) && r.timezone_confidence
            == Some(t.confidence),
        p.timezone is None ==> r.timezone is None && r.timezone_confidence is None,
        p.work_pattern matches Some(w) ==> r.work_pattern == Some(w.pattern),
        p.work_pattern is None ==> r.work_pattern is None,
        r.emails@.len() == p.emails@.len(),
        forall|i: int|
            0 <= i < r.emails@.len() ==> (#[trigger] r.emails@[i])@ == text::lower_text(
                p.emails@[i].email@,
            ),
{
    let a = sorted_map::texts(r.emails@);
    let b = lowered(p.emails@);
    assert(a.len() == b.len());
    assert forall|i: int| 0 <= i < r.emails@.len() implies (#[trigger] r.emails@[i])@
        == text::lower_text(p.emails@[i].email@) by {
        assert(a[i] == b[i]);
    }
}

/// The employer is the domain of one of the person's addresses, corporate and
/// no free provider's, and no address before it has such a domain; there is
/// none only if no address has.
pub proof fn employers_come_first(emails: Seq<KrakenEmail>)
    ensures
        match first_employer(emails) {
            Some(d) => exists|i: int|
                0 <= i < emails.len() && (#[trigger] emails[i]).domain@ == d
                    && emails[i].domain_kind@ == "corporate"@ && addresses::employer_domain(
                    emails[i].domain@,
                    emails[i].domain_kind@,
                ) && forall|j: int|
                    0 <= j < i ==> !addresses::employer_domain(
                        (#[trigger] emails[j]).domain@,
                        emails[j].domain_kind@,
                    ),
            None => forall|j: int|
                0 <= j < emails.len() ==> !addresses::employer_domain(
                    (#[trigger] emails[j]).domain@,
                    emails[j].domain_kind@,
                ),
        },
    decreases emails.len(),
{
    if emails.len() > 0 {
        let rest = emails.drop_first();
        employers_come_first(rest);
        if addresses::employer_domain(emails[0].domain@, emails[0].domain_kind@) {
            assert(emails[0].domain@ == first_employer(emails)->0);
        } else {
            match first_employer(rest) {
                Some(d) => {
                    let i = choose|i: int|
                        0 <= i < rest.len() && (#[trigger] rest[i]).domain@ == d
                            && rest[i].domain_kind@ == "corporate"@ && addresses::employer_domain(
                            rest[i].domain@,
                            rest[i].domain_kind@,
                        ) && forall|j: int|
                            0 <= j < i ==> !addresses::employer_domain(
                                (#[trigger] rest[j]).domain@,
                                rest[j].domain_kind@,
                            );
                    assert(emails[i + 1] == rest[i]);
                    assert forall|j: int| 0 <= j < i + 1 implies !addresses::employer_domain(
                        (#[trigger] emails[j]).domain@,
                        emails[j].domain_kind@,
                    ) by {
                        if j > 0 {
                            assert(rest[j - 1] == emails[j]);
                        }
                    }
                },
                None => {
                    assert forall|j: int|
                        0 <= j < emails.len() implies !addresses::employer_domain(
                        (#[trigger] emails[j]).domain@,
                        emails[j].domain_kind@,
                    ) by {
                        if j > 0 {
                            assert(rest[j - 1] == emails[j]);
                        }
                    }
                },
            }
        }
    }
}

/// Coverage counts addresses: all of them, those that are known, and those that
/// can never be; and commits: all that were logged, and for each address that
/// is known those that were logged under it.
pub proof fn coverage_counts(
    c: Coverage,
    keys: Seq<Seq<char>>,
    known: Set<Seq<char>>,
    log: Seq<Seq<char>>,
)
    requires
        covers_authors(c, keys, known, log),
    ensures
        c.authors == keys.len(),
        c.resolved == keys.filter(|k: Seq<char>| known.contains(k)).len(),
        c.unresolvable == keys.filter(|k: Seq<char>| addresses::unresolvable(k)).len(),
        c.local_commits == log.len(),
        c.resolved_commits == keys.filter(|k: Seq<char>| known.contains(k)).fold_left(
            0int,
            |n: int, k: Seq<char>| n + addresses::times(log, k),
        ),
{
    lemma_counts(keys, known, log);
}

proof fn lemma_counts(keys: Seq<Seq<char>>, known: Set<Seq<char>>, log: Seq<Seq<char>>)
    ensures
        count_resolved(keys, known) == keys.filter(|k: Seq<char>| known.contains(k)).len(),
        count_unresolvable(keys) == keys.filter(
            |k: Seq<char>| addresses::unresolvable(k),
        ).len(),
        commits_resolved(keys, known, log) == keys.filter(
            |k: Seq<char>| known.contains(k),
        ).fold_left(
            0int,
            |n: int, k: Seq<char>| n + addresses::times(log, k),
        ),
    decreases keys.len(),
{
    reveal(Seq::filter);
    if keys.len() > 0 {
        let front = keys.drop_last();
        let k = keys.last();
        lemma_counts(front, known, log);
        let is_known = |k: Seq<char>| known.contains(k);
        let f = |n: int, k: Seq<char>| n + addresses::times(log, k);
        if known.contains(k) {
            let some = front.filter(is_known);
            assert(keys.filter(is_known) == some.push(k));
            assert(some.push(k).drop_last() =~= some);
            assert(some.push(k).fold_left(0int, f) == f(some.fold_left(0int, f), k));
        }
    }
}

/// The authors' addresses are taken in lower case, one by one.
pub proof fn author_keys_are_lowered(authors: Seq<String>, i: int)
    requires
        0 <= i < authors.len(),
    ensures
        author_keys(authors).len() == authors.len(),
        author_keys(authors)[i] == text::lower_text(authors[i]@),
{
}

/// Every address of a person leads to somebody who has it, no later person has
/// it, and an address that nobody has leads nowhere.
pub proof fn addresses_lead_to_people(
    m: Map<Seq<char>, usize>,
    persons: Seq<Person>,
    e: Seq<char>,
    j: int,
)
    requires
        indexes(m, persons),
    ensures
        m.contains_key(e) ==> m[e] < persons.len() && sorted_map::texts(
            persons[m[e] as int].emails@,
        ).contains(e),
        0 <= j < persons.len() && sorted_map::texts(persons[j].emails@).contains(e)
            ==> m.contains_key(e) && m[e] >= j,
{
    index_leads_to_holder(persons, e);
    assert(m.contains_key(e) || !m.contains_key(e));
}

/// The people are those of the crawl, one for one.
pub proof fn people_are_those_found(rs: Seq<Person>, ps: Seq<KrakenPerson>, i: int)
    requires
        are_persons(rs, ps),
        0 <= i < ps.len(),
    ensures
        rs.len() == ps.len(),
        is_person(rs[i], ps[i]),
{
}

} // verus!
