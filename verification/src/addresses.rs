//! What an address or a remote says about who is behind it.

use vstd::prelude::*;
use vstd::string::*;

use crate::order::same_text;
use crate::ranking;
use crate::sorted_map::SortedMap;
use crate::text;
use crate::text::{
    begins, chars_of, drop_trailing, ends, holds, part_of, split, string_of, to_lower, trim_chars,
};

verus! {

/// A free provider's domain, in any case of its letters. An address there says
/// nothing about who someone works for.
pub open spec fn personal(domain: Seq<char>) -> bool {
    let d = text::lower_text(domain);
    ||| d == text::lower_text("gmail.com"@)
    ||| d == text::lower_text("googlemail.com"@)
    ||| d == text::lower_text("outlook.com"@)
    ||| d == text::lower_text("hotmail.com"@)
    ||| d == text::lower_text("live.com"@)
    ||| d == text::lower_text("yahoo.com"@)
    ||| d == text::lower_text("protonmail.com"@)
    ||| d == text::lower_text("proton.me"@)
    ||| d == text::lower_text("icloud.com"@)
    ||| d == text::lower_text("me.com"@)
    ||| d == text::lower_text("qq.com"@)
    ||| d == text::lower_text("163.com"@)
    ||| d == text::lower_text("126.com"@)
    ||| d == text::lower_text("naver.com"@)
    ||| d == text::lower_text("yandex.ru"@)
    ||| d == text::lower_text("gmx.de"@)
    ||| d == text::lower_text("web.de"@)
    ||| d == text::lower_text("fastmail.com"@)
    ||| d == text::lower_text("hey.com"@)
    ||| d == text::lower_text("pm.me"@)
    ||| d == text::lower_text("duck.com"@)
    ||| d == text::lower_text("users.noreply.github.com"@)
}

/// The domain is an employer's.
pub open spec fn employer_domain(domain: Seq<char>, kind: Seq<char>) -> bool {
    kind == "corporate"@ && !personal(domain)
}

fn is_personal(domain: &str) -> (r: bool)
    ensures
        r == personal(domain@),
{
    let d = to_lower(domain);
    let d = d.as_str();
    same_text(d, to_lower("gmail.com").as_str())
        || same_text(d, to_lower("googlemail.com").as_str())
        || same_text(d, to_lower("outlook.com").as_str())
        || same_text(d, to_lower("hotmail.com").as_str())
        || same_text(d, to_lower("live.com").as_str())
        || same_text(d, to_lower("yahoo.com").as_str())
        || same_text(d, to_lower("protonmail.com").as_str())
        || same_text(d, to_lower("proton.me").as_str())
        || same_text(d, to_lower("icloud.com").as_str())
        || same_text(d, to_lower("me.com").as_str())
        || same_text(d, to_lower("qq.com").as_str())
        || same_text(d, to_lower("163.com").as_str())
        || same_text(d, to_lower("126.com").as_str())
        || same_text(d, to_lower("naver.com").as_str())
        || same_text(d, to_lower("yandex.ru").as_str())
        || same_text(d, to_lower("gmx.de").as_str())
        || same_text(d, to_lower("web.de").as_str())
        || same_text(d, to_lower("fastmail.com").as_str())
        || same_text(d, to_lower("hey.com").as_str())
        || same_text(d, to_lower("pm.me").as_str())
        || same_text(d, to_lower("duck.com").as_str())
        || same_text(d, to_lower("users.noreply.github.com").as_str())
}

/// Whether a domain is an employer's.
pub fn is_employer_domain(domain: &str, kind: &str) -> (r: bool)
    ensures
        r == employer_domain(domain@, kind@),
{
    same_text(kind, "corporate") && !is_personal(domain)
}

/// An address that can never be resolved to a person: a noreply relay, or an
/// automation identity.
pub open spec fn unresolvable(email: Seq<char>) -> bool {
    let e = text::lower_text(email);
    ||| text::occurs_in("noreply"@, e)
    ||| text::occurs_in("no-reply"@, e)
    ||| text::ends_with(e, "[bot]"@)
    ||| text::occurs_in("actions@github.com"@, e)
}

/// Whether an address can never be resolved to a person.
pub fn is_unresolvable(email: &str) -> (r: bool)
    ensures
        r == unresolvable(email@),
{
    let lowered = to_lower(email);
    let e = chars_of(lowered.as_str());
    holds(&e, "noreply") || holds(&e, "no-reply") || ends(&e, "[bot]") || holds(
        &e,
        "actions@github.com",
    )
}

/// What follows the host in a GitHub remote.
pub open spec fn after_host(u: Seq<char>) -> Option<Seq<char>> {
    if text::starts_with(u, "git@github.com:"@) {
        Some(u.skip("git@github.com:"@.len() as int))
    } else if text::starts_with(u, "ssh://git@github.com/"@) {
        Some(u.skip("ssh://git@github.com/"@.len() as int))
    } else if text::starts_with(u, "https://github.com/"@) {
        Some(u.skip("https://github.com/"@.len() as int))
    } else if text::starts_with(u, "http://github.com/"@) {
        Some(u.skip("http://github.com/"@.len() as int))
    } else {
        None
    }
}

/// Text without the suffix `.git`, if it has that.
pub open spec fn without_git(s: Seq<char>) -> Seq<char> {
    if text::ends_with(s, ".git"@) {
        s.take(s.len() - ".git"@.len())
    } else {
        s
    }
}

/// The `owner/name` of a GitHub remote.
pub open spec fn slug_of(url: Seq<char>) -> Option<Seq<char>> {
    match after_host(text::without_trailing(text::trim(url), '/')) {
        None => None,
        Some(rest) => {
            let parts = text::split_on(without_git(rest), '/');
            if parts.len() >= 2 && parts[0].len() > 0 && parts[1].len() > 0 {
                Some(parts[0] + "/"@ + parts[1])
            } else {
                None
            }
        },
    }
}

fn strip(u: &Vec<char>, p: &str) -> (r: Option<Vec<char>>)
    ensures
        match r {
            Some(rest) => text::starts_with(u@, p@) && rest@ == u@.skip(p@.len() as int),
            None => !text::starts_with(u@, p@),
        },
{
    if begins(u, p) {
        let n: usize = chars_of(p).len();
        let m: usize = u.len();
        let rest = part_of(u, n, m);
        assert(rest@ =~= u@.skip(n as int));
        Some(rest)
    } else {
        None
    }
}

fn strip_host(u: &Vec<char>) -> (r: Option<Vec<char>>)
    ensures
        match r {
            Some(rest) => after_host(u@) == Some(rest@),
            None => after_host(u@) is None,
        },
{
    if let Some(rest) = strip(u, "git@github.com:") {
        return Some(rest);
    }
    if let Some(rest) = strip(u, "ssh://git@github.com/") {
        return Some(rest);
    }
    if let Some(rest) = strip(u, "https://github.com/") {
        return Some(rest);
    }
    strip(u, "http://github.com/")
}

fn strip_git(s: Vec<char>) -> (r: Vec<char>)
    ensures
        r@ == without_git(s@),
{
    if ends(&s, ".git") {
        let n: usize = chars_of(".git").len();
        let r = part_of(&s, 0, s.len() - n);
        assert(r@ =~= s@.take(s@.len() - n));
        r
    } else {
        s
    }
}

/// Infer `owner/name` from the URL of a remote.
pub fn parse_slug(url: &str) -> (r: Option<String>)
    ensures
        match r {
            Some(s) => slug_of(url@) == Some(s@),
            None => slug_of(url@) is None,
        },
{
    let u = drop_trailing(&trim_chars(&chars_of(url)), '/');
    match strip_host(&u) {
        None => None,
        Some(rest) => {
            let rest = strip_git(rest);
            let parts = split(&rest, '/');
            let ghost ps = text::split_on(rest@, '/');
            assert(text::pieces(parts@) == ps);
            if parts.len() < 2 {
                return None;
            }
            assert(ps[0] == parts@[0]@ && ps[1] == parts@[1]@);
            if parts[0].len() == 0 || parts[1].len() == 0 {
                return None;
            }
            let mut s = string_of(&parts[0]);
            s.append("/");
            s.append(string_of(&parts[1]).as_str());
            Some(s)
        },
    }
}

/// The addresses in a log with one per line, in lower case; blank lines are
/// skipped.
pub open spec fn logged(lines: Seq<Seq<char>>) -> Seq<Seq<char>>
    decreases lines.len(),
{
    if lines.len() == 0 {
        Seq::empty()
    } else {
        let before = logged(lines.drop_last());
        let e = text::lower_text(text::trim(lines.last()));
        if e.len() > 0 {
            before.push(e)
        } else {
            before
        }
    }
}

/// The addresses of a log.
pub open spec fn log_addresses(log: Seq<char>) -> Seq<Seq<char>> {
    logged(text::split_on(log, '\n'))
}

/// How often an address occurs.
pub open spec fn times(addresses: Seq<Seq<char>>, e: Seq<char>) -> nat
    decreases addresses.len(),
{
    if addresses.len() == 0 {
        0
    } else {
        times(addresses.drop_last(), e) + if addresses.last() == e {
            1nat
        } else {
            0
        }
    }
}

/// No address occurs more often than there are addresses.
pub proof fn times_bounded(addresses: Seq<Seq<char>>, e: Seq<char>)
    ensures
        times(addresses, e) <= addresses.len(),
    decreases addresses.len(),
{
    if addresses.len() > 0 {
        times_bounded(addresses.drop_last(), e);
    }
}

/// Commits per author address.
pub struct CommitCounts {
    pub by_email: SortedMap<u64>,
    pub total: u64,
}

/// The counts say how often each address occurs.
pub open spec fn counts(m: Map<Seq<char>, u64>, addresses: Seq<Seq<char>>) -> bool {
    forall|e: Seq<char>|
        #![trigger m.contains_key(e)]
        #![trigger times(addresses, e)]
        if m.contains_key(e) {
            m[e] == times(addresses, e) && m[e] > 0
        } else {
            times(addresses, e) == 0
        }
}

/// Per-author commit counts of the local history, from a log with an author
/// address per line.
pub fn local_commit_counts(log: &str) -> (r: CommitCounts)
    ensures
        r.by_email.wf(),
        counts(r.by_email@, log_addresses(log@)),
        r.total == log_addresses(log@).len(),
{
    let lines = split(&chars_of(log), '\n');
    let ghost ls = text::pieces(lines@);
    let mut by_email: SortedMap<u64> = SortedMap::new();
    let mut total: u64 = 0;
    let mut i: usize = 0;
    assert(ls.take(0) =~= Seq::empty());
    while i < lines.len()
        invariant
            i <= lines@.len(),
            ls == text::pieces(lines@),
            by_email.wf(),
            counts(by_email@, logged(ls.take(i as int))),
            total == logged(ls.take(i as int)).len(),
            total <= i,
        decreases lines@.len() - i,
    {
        let t = string_of(trim_chars(&lines[i]).as_slice());
        let e = to_lower(t.as_str());
        let ghost before = logged(ls.take(i as int));
        proof {
            assert(ls[i as int] == lines@[i as int]@);
            assert(ls.take(i + 1).drop_last() =~= ls.take(i as int));
            assert(before.push(e@).drop_last() =~= before);
        }
        if !text::is_empty_text(e.as_str()) {
            let ghost m0 = by_email@;
            let p = by_email.place_or_put(e.as_str(), 0);
            let c = by_email.value_mut(p);
            proof {
                times_bounded(before, e@);
                assert(m0.contains_key(e@) ==> m0[e@] == times(before, e@));
            }
            *c = *c + 1;
            total = total + 1;
            proof {
                let after = before.push(e@);
                assert forall|q: Seq<char>|
                    #![trigger by_email@.contains_key(q)]
                    #![trigger times(after, q)]
                    if by_email@.contains_key(q) {
                        by_email@[q] == times(after, q) && by_email@[q] > 0
                    } else {
                        times(after, q) == 0
                    } by {
                    assert(m0.contains_key(q) || !m0.contains_key(q));
                    assert(times(after, q) == times(before, q) + if q == e@ {
                        1nat
                    } else {
                        0
                    });
                }
            }
        }
        i = i + 1;
    }
    assert(ls.take(i as int) =~= ls);
    CommitCounts { by_email, total }
}

// ---- what holds of addresses and remotes -----------------------------

/// The text holds no capital letter.
spec fn small(s: Seq<char>) -> bool {
    forall|i: int| 0 <= i < s.len() ==> !('A' <= #[trigger] s[i] && s[i] <= 'Z')
}

proof fn lemma_small(s: Seq<char>)
    requires
        small(s),
    ensures
        text::lower_text(s) == s,
{
    assert(text::lower_text(s) =~= s);
}

/// A domain is an employer's where its kind is corporate and it is none of
/// these, whatever the case of its letters.
pub proof fn free_providers_are_no_employers(domain: Seq<char>, kind: Seq<char>)
    ensures
        employer_domain(domain, kind) <==> kind == "corporate"@ && !seq![
            "gmail.com"@,
            "googlemail.com"@,
            "outlook.com"@,
            "hotmail.com"@,
            "live.com"@,
            "yahoo.com"@,
            "protonmail.com"@,
            "proton.me"@,
            "icloud.com"@,
            "me.com"@,
            "qq.com"@,
            "163.com"@,
            "126.com"@,
            "naver.com"@,
            "yandex.ru"@,
            "gmx.de"@,
            "web.de"@,
            "fastmail.com"@,
            "hey.com"@,
            "pm.me"@,
            "duck.com"@,
            "users.noreply.github.com"@,
        ].contains(text::lower_text(domain)),
{
    let l = seq![
        "gmail.com"@,
        "googlemail.com"@,
        "outlook.com"@,
        "hotmail.com"@,
        "live.com"@,
        "yahoo.com"@,
        "protonmail.com"@,
        "proton.me"@,
        "icloud.com"@,
        "me.com"@,
        "qq.com"@,
        "163.com"@,
        "126.com"@,
        "naver.com"@,
        "yandex.ru"@,
        "gmx.de"@,
        "web.de"@,
        "fastmail.com"@,
        "hey.com"@,
        "pm.me"@,
        "duck.com"@,
        "users.noreply.github.com"@,
    ];
    assert(l[0] == "gmail.com"@ && text::lower_text("gmail.com"@) == "gmail.com"@) by {
        reveal_strlit("gmail.com");
        lemma_small("gmail.com"@);
    }
    assert(l[1] == "googlemail.com"@ && text::lower_text("googlemail.com"@) == "googlemail.com"@) by {
        reveal_strlit("googlemail.com");
        lemma_small("googlemail.com"@);
    }
    assert(l[2] == "outlook.com"@ && text::lower_text("outlook.com"@) == "outlook.com"@) by {
        reveal_strlit("outlook.com");
        lemma_small("outlook.com"@);
    }
    assert(l[3] == "hotmail.com"@ && text::lower_text("hotmail.com"@) == "hotmail.com"@) by {
        reveal_strlit("hotmail.com");
        lemma_small("hotmail.com"@);
    }
    assert(l[4] == "live.com"@ && text::lower_text("live.com"@) == "live.com"@) by {
        reveal_strlit("live.com");
        lemma_small("live.com"@);
    }
    assert(l[5] == "yahoo.com"@ && text::lower_text("yahoo.com"@) == "yahoo.com"@) by {
        reveal_strlit("yahoo.com");
        lemma_small("yahoo.com"@);
    }
    assert(l[6] == "protonmail.com"@ && text::lower_text("protonmail.com"@) == "protonmail.com"@) by {
        reveal_strlit("protonmail.com");
        lemma_small("protonmail.com"@);
    }
    assert(l[7] == "proton.me"@ && text::lower_text("proton.me"@) == "proton.me"@) by {
        reveal_strlit("proton.me");
        lemma_small("proton.me"@);
    }
    assert(l[8] == "icloud.com"@ && text::lower_text("icloud.com"@) == "icloud.com"@) by {
        reveal_strlit("icloud.com");
        lemma_small("icloud.com"@);
    }
    assert(l[9] == "me.com"@ && text::lower_text("me.com"@) == "me.com"@) by {
        reveal_strlit("me.com");
        lemma_small("me.com"@);
    }
    assert(l[10] == "qq.com"@ && text::lower_text("qq.com"@) == "qq.com"@) by {
        reveal_strlit("qq.com");
        lemma_small("qq.com"@);
    }
    assert(l[11] == "163.com"@ && text::lower_text("163.com"@) == "163.com"@) by {
        reveal_strlit("163.com");
        lemma_small("163.com"@);
    }
    assert(l[12] == "126.com"@ && text::lower_text("126.com"@) == "126.com"@) by {
        reveal_strlit("126.com");
        lemma_small("126.com"@);
    }
    assert(l[13] == "naver.com"@ && text::lower_text("naver.com"@) == "naver.com"@) by {
        reveal_strlit("naver.com");
        lemma_small("naver.com"@);
    }
    assert(l[14] == "yandex.ru"@ && text::lower_text("yandex.ru"@) == "yandex.ru"@) by {
        reveal_strlit("yandex.ru");
        lemma_small("yandex.ru"@);
    }
    assert(l[15] == "gmx.de"@ && text::lower_text("gmx.de"@) == "gmx.de"@) by {
        reveal_strlit("gmx.de");
        lemma_small("gmx.de"@);
    }
    assert(l[16] == "web.de"@ && text::lower_text("web.de"@) == "web.de"@) by {
        reveal_strlit("web.de");
        lemma_small("web.de"@);
    }
    assert(l[17] == "fastmail.com"@ && text::lower_text("fastmail.com"@) == "fastmail.com"@) by {
        reveal_strlit("fastmail.com");
        lemma_small("fastmail.com"@);
    }
    assert(l[18] == "hey.com"@ && text::lower_text("hey.com"@) == "hey.com"@) by {
        reveal_strlit("hey.com");
        lemma_small("hey.com"@);
    }
    assert(l[19] == "pm.me"@ && text::lower_text("pm.me"@) == "pm.me"@) by {
        reveal_strlit("pm.me");
        lemma_small("pm.me"@);
    }
    assert(l[20] == "duck.com"@ && text::lower_text("duck.com"@) == "duck.com"@) by {
        reveal_strlit("duck.com");
        lemma_small("duck.com"@);
    }
    assert(l[21] == "users.noreply.github.com"@ && text::lower_text("users.noreply.github.com"@) == "users.noreply.github.com"@) by {
        reveal_strlit("users.noreply.github.com");
        lemma_small("users.noreply.github.com"@);
    }
    let d = text::lower_text(domain);
    if l.contains(d) {
        let i = l.index_of(d);
        assert(0 <= i < 22 && l[i] == d);
    }
}

/// An address that holds one of these words in any case of its letters, or that
/// ends with the mark of a bot, is no person's.
pub proof fn relays_and_bots_are_nobody(a: Seq<char>, w: Seq<char>, b: Seq<char>)
    ensures
        text::lower_text(w) == "noreply"@ ==> unresolvable(a + w + b),
        text::lower_text(w) == "no-reply"@ ==> unresolvable(a + w + b),
        text::lower_text(w) == "actions@github.com"@ ==> unresolvable(a + w + b),
        text::lower_text(w) == "[bot]"@ ==> unresolvable(a + w),
{
    let s = text::lower_text(a + w + b);
    let n = a.len() as int;
    assert(s.subrange(n, n + w.len()) =~= text::lower_text(w));
    let t = text::lower_text(a + w);
    assert(t.subrange(n, t.len() as int) =~= text::lower_text(w));
}

/// No other address is: where none of the words occurs and the mark does not
/// end it, somebody may be behind it.
pub proof fn others_may_be_somebody(email: Seq<char>)
    requires
        unresolvable(email),
    ensures
        exists|a: Seq<char>, w: Seq<char>, b: Seq<char>| #[trigger]
            (a + w + b) == email && (text::lower_text(w) == "noreply"@ || text::lower_text(w)
                == "no-reply"@ || text::lower_text(w) == "actions@github.com"@
                || text::lower_text(w) == "[bot]"@ && b.len() == 0),
{
    let e = text::lower_text(email);
    let (i, word) = if text::occurs_in("noreply"@, e) {
        (lemma_occurrence("noreply"@, e), "noreply"@)
    } else if text::occurs_in("no-reply"@, e) {
        (lemma_occurrence("no-reply"@, e), "no-reply"@)
    } else if text::ends_with(e, "[bot]"@) {
        (e.len() - "[bot]"@.len(), "[bot]"@)
    } else {
        (lemma_occurrence("actions@github.com"@, e), "actions@github.com"@)
    };
    let a = email.take(i);
    let w = email.subrange(i, i + word.len());
    let b = email.skip(i + word.len());
    assert(e.subrange(i, i + word.len()) =~= word);
    assert(text::lower_text(w) =~= e.subrange(i, i + word.len()));
    assert((a + w + b) =~= email);
}

proof fn lemma_occurrence(p: Seq<char>, s: Seq<char>) -> (i: int)
    requires
        text::occurs_in(p, s),
    ensures
        0 <= i && i + p.len() <= s.len(),
        s.subrange(i, i + p.len()) == p,
{
    choose|i: int|
        0 <= i && i + p.len() <= s.len() && #[trigger] s.subrange(i, i + p.len()) == p
}

/// The piece before the first occurrence stands first, and the others are those
/// of what follows.
proof fn lemma_first_piece(o: Seq<char>, t: Seq<char>, c: char)
    requires
        forall|i: int| 0 <= i < o.len() ==> #[trigger] o[i] != c,
    ensures
        text::split_on(o, c) == seq![o],
        text::split_on(o.push(c) + t, c) == seq![o] + text::split_on(t, c),
    decreases o.len() + t.len(),
{
    if o.len() > 0 {
        lemma_first_piece(o.drop_last(), Seq::empty(), c);
        assert(o.drop_last().push(o.last()) =~= o);
        assert(text::split_on(o, c) =~= seq![o]);
    } else {
        assert(o =~= Seq::empty());
        assert(text::split_on(o, c) =~= seq![o]);
    }
    let s = o.push(c) + t;
    if t.len() == 0 {
        assert(s.drop_last() =~= o);
        assert(s.last() == c);
        assert(text::split_on(t, c) =~= seq![Seq::<char>::empty()]);
        assert(text::split_on(s, c) =~= seq![o].push(Seq::<char>::empty()));
        assert(text::split_on(s, c) =~= seq![o] + text::split_on(t, c));
    } else {
        let f = t.drop_last();
        lemma_first_piece(o, f, c);
        assert(s.drop_last() =~= o.push(c) + f);
        assert(s.last() == t.last());
        text::split_on_nonempty(f, c);
        let b = text::split_on(f, c);
        let x = b.last().push(t.last());
        assert((seq![o] + b).last() == b.last());
        assert((seq![o] + b).push(Seq::empty()) =~= seq![o] + b.push(Seq::empty()));
        assert((seq![o] + b).update(b.len() as int, x) =~= seq![o] + b.update(b.len() - 1, x));
    }
}

/// Text that neither begins nor ends with white space is left alone.
proof fn lemma_trimmed(s: Seq<char>)
    requires
        s.len() > 0,
        !text::is_space(s[0]),
        !text::is_space(s.last()),
    ensures
        text::trim(s) == s,
{
}

proof fn lemma_host(host: Seq<char>, rest: Seq<char>)
    requires
        host == "git@github.com:"@ || host == "ssh://git@github.com/"@ || host
            == "https://github.com/"@ || host == "http://github.com/"@,
    ensures
        after_host(host + rest) == Some(rest),
        host.len() > 0,
        !text::is_space(host[0]),
{
    reveal_strlit("git@github.com:");
    reveal_strlit("ssh://git@github.com/");
    reveal_strlit("https://github.com/");
    reveal_strlit("http://github.com/");
    let u = host + rest;
    assert(u.subrange(0, host.len() as int) =~= host);
    assert(u.skip(host.len() as int) =~= rest);
    assert(text::starts_with(u, host));
    assert(u[0] == host[0] && u[4] == host[4]);
    assert("git@github.com:"@[0] == 'g');
    assert("ssh://git@github.com/"@[0] == 's');
    assert("https://github.com/"@[0] == 'h');
    assert("https://github.com/"@[4] == 's');
    assert("http://github.com/"@[0] == 'h');
    assert("http://github.com/"@[4] == ':');
    if text::starts_with(u, "git@github.com:"@) {
        assert(u.subrange(0, "git@github.com:"@.len() as int)[0] == 'g');
    }
    if text::starts_with(u, "ssh://git@github.com/"@) {
        assert(u.subrange(0, "ssh://git@github.com/"@.len() as int)[0] == 's');
    }
    if text::starts_with(u, "https://github.com/"@) {
        assert(u.subrange(0, "https://github.com/"@.len() as int)[4] == 's');
    }
}

/// A remote on GitHub in any of its four forms names its owner and its name,
/// with or without the suffix, and whatever stands deeper.
pub proof fn remotes_name_owner_and_name(
    host: Seq<char>,
    owner: Seq<char>,
    name: Seq<char>,
    more: Seq<char>,
)
    requires
        host == "git@github.com:"@ || host == "ssh://git@github.com/"@ || host
            == "https://github.com/"@ || host == "http://github.com/"@,
        owner.len() > 0,
        name.len() > 0,
        forall|i: int| 0 <= i < owner.len() ==> #[trigger] owner[i] != '/',
        forall|i: int| 0 <= i < name.len() ==> #[trigger] name[i] != '/',
        !text::is_space(name.last()),
        more.len() > 0 ==> !text::is_space(more.last()) && more.last() != '/',
        !text::ends_with(owner + "/"@ + name, ".git"@),
        !text::ends_with(owner + "/"@ + name + "/"@ + more, ".git"@),
    ensures
        slug_of(host + (owner + "/"@ + name)) == Some(owner + "/"@ + name),
        slug_of(host + (owner + "/"@ + name + ".git"@)) == Some(owner + "/"@ + name),
        more.len() > 0 ==> slug_of(host + (owner + "/"@ + name + "/"@ + more)) == Some(
            owner + "/"@ + name,
        ),
{
    reveal_strlit("/");
    reveal_strlit(".git");
    let slug = owner + "/"@ + name;
    assert(slug =~= owner.push('/') + name);
    lemma_first_piece(owner, name, '/');
    lemma_first_piece(name, more, '/');
    assert(slug.last() == name.last());
    lemma_slug(host, slug, owner, name);
    let dotted = slug + ".git"@;
    assert(dotted.last() == 't');
    assert(dotted.subrange(dotted.len() - 4, dotted.len() as int) =~= ".git"@);
    assert(without_git(dotted) =~= slug);
    lemma_slug(host, dotted, owner, name);
    if more.len() > 0 {
        let deep = slug + "/"@ + more;
        let tail = name.push('/') + more;
        lemma_first_piece(owner, tail, '/');
        assert(deep =~= owner.push('/') + tail);
        assert(deep.last() == more.last());
        assert(text::split_on(tail, '/')[0] == name);
        lemma_slug(host, deep, owner, name);
    }
}

proof fn lemma_slug(host: Seq<char>, rest: Seq<char>, owner: Seq<char>, name: Seq<char>)
    requires
        host == "git@github.com:"@ || host == "ssh://git@github.com/"@ || host
            == "https://github.com/"@ || host == "http://github.com/"@,
        rest.len() > 0,
        !text::is_space(rest.last()),
        rest.last() != '/',
        owner.len() > 0,
        name.len() > 0,
        text::split_on(without_git(rest), '/').len() >= 2,
        text::split_on(without_git(rest), '/')[0] == owner,
        text::split_on(without_git(rest), '/')[1] == name,
    ensures
        slug_of(host + rest) == Some(owner + "/"@ + name),
{
    lemma_host(host, rest);
    let u = host + rest;
    assert(u.last() == rest.last());
    assert(u[0] == host[0]);
    lemma_trimmed(u);
    assert(text::without_trailing(u, '/') == u);
}

/// A remote is the same with white space around it and with slashes behind it.
pub proof fn remotes_ignore_what_surrounds_them(url: Seq<char>, other: Seq<char>)
    requires
        text::without_trailing(text::trim(url), '/') == text::without_trailing(
            text::trim(other),
            '/',
        ),
    ensures
        slug_of(url) == slug_of(other),
        slug_of(text::trim(url)) == slug_of(url),
{
    text::text_is_trimmed(url);
}

/// What is inferred is an owner, a slash and a name, neither of them empty and
/// neither with a slash in it, and the remote is one of GitHub's four forms.
pub proof fn slugs_have_two_parts(url: Seq<char>)
    requires
        slug_of(url) is Some,
    ensures
        exists|o: Seq<char>, n: Seq<char>| #[trigger]
            (o + "/"@ + n) == slug_of(url)->0 && o.len() > 0 && n.len() > 0 && (forall|i: int|
                0 <= i < o.len() ==> #[trigger] o[i] != '/') && (forall|i: int|
                0 <= i < n.len() ==> #[trigger] n[i] != '/'),
        ({
            let u = text::without_trailing(text::trim(url), '/');
            ||| text::starts_with(u, "git@github.com:"@)
            ||| text::starts_with(u, "ssh://git@github.com/"@)
            ||| text::starts_with(u, "https://github.com/"@)
            ||| text::starts_with(u, "http://github.com/"@)
        }),
{
    let u = text::without_trailing(text::trim(url), '/');
    let rest = without_git(after_host(u)->0);
    let parts = text::split_on(rest, '/');
    text::pieces_are_put_together(rest, '/');
    let o = parts[0];
    let n = parts[1];
    assert forall|i: int| 0 <= i < o.len() implies #[trigger] o[i] != '/' by {
        assert(parts[0][i] != '/');
    }
    assert forall|i: int| 0 <= i < n.len() implies #[trigger] n[i] != '/' by {
        assert(parts[1][i] != '/');
    }
    assert((o + "/"@ + n) == slug_of(url)->0);
}

/// The addresses of a log are its lines without what is blank around them and
/// in lower case, in their order; a blank line is none.
pub proof fn addresses_are_lines(log: Seq<char>)
    ensures
        log_addresses(log) == ranking::places(
            text::split_on(log, '\n').len(),
            |k: int| text::trim(text::split_on(log, '\n')[k]).len() > 0,
        ).map_values(|k: int| text::lower_text(text::trim(text::split_on(log, '\n')[k]))),
{
    lemma_logged(text::split_on(log, '\n'));
}

proof fn lemma_logged(lines: Seq<Seq<char>>)
    ensures
        logged(lines) == ranking::places(
            lines.len(),
            |k: int| text::trim(lines[k]).len() > 0,
        ).map_values(|k: int| text::lower_text(text::trim(lines[k]))),
    decreases lines.len(),
{
    let now = |k: int| text::trim(lines[k]).len() > 0;
    let f = |k: int| text::lower_text(text::trim(lines[k]));
    if lines.len() > 0 {
        let front = lines.drop_last();
        let n = front.len();
        lemma_logged(front);
        let then = |k: int| text::trim(front[k]).len() > 0;
        let g = |k: int| text::lower_text(text::trim(front[k]));
        ranking::places_agree(n, then, now);
        ranking::places_are_exact(n, then);
        let a = ranking::places(n, then);
        assert forall|i: int| 0 <= i < a.len() implies g(#[trigger] a[i]) == f(a[i]) by {
            assert(a.contains(a[i]));
        }
        assert(a.map_values(g) =~= a.map_values(f));
        assert(now(n as int) <==> text::trim(lines.last()).len() > 0);
        assert(ranking::places(lines.len(), now).map_values(f) =~= logged(lines));
    } else {
        assert(logged(lines) =~= ranking::places(0, now).map_values(f));
    }
}

/// An address occurs as often as it stands in the list.
pub proof fn occurrences_are_counted(list: Seq<Seq<char>>, e: Seq<char>)
    ensures
        times(list, e) == list.filter(|x: Seq<char>| x == e).len(),
        times(list, e) > 0 <==> list.contains(e),
    decreases list.len(),
{
    reveal(Seq::filter);
    if list.len() > 0 {
        let front = list.drop_last();
        occurrences_are_counted(front, e);
        if front.contains(e) {
            assert(list[front.index_of(e)] == e);
        }
        if list.last() == e {
            assert(list[list.len() - 1] == e);
        }
        if list.contains(e) {
            let i = list.index_of(e);
            if i < front.len() {
                assert(front[i] == e);
            }
        }
    }
}

} // verus!
