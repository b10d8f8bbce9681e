//! The public interface of blobs.
//!
//! What a change does to a file's public interface is read off the two blobs
//! on its sides. A blob is parsed once per language, and what was parsed is
//! kept from one run to the next.

use vstd::prelude::*;
use vstd::string::*;

use crate::order;
use crate::order::{comes_before, same_text};
use crate::ranking;
use crate::ranking::{sort_stable, Ranked};
use crate::sorted_map;
use crate::sorted_map::SortedMap;
use crate::text;

verus! {

// ---- languages -------------------------------------------------------

/// A language whose public items can be read.
#[derive(Clone, Copy, PartialEq, Eq, Structural, Debug)]
pub enum Language {
    Rust,
    Go,
    Python,
    TypeScript,
    Java,
    JavaScript,
    Ruby,
    Cpp,
}

/// The language of a path, by its extension.
pub open spec fn language_of(path: Seq<char>) -> Option<Language> {
    if text::ends_with(path, ".rs"@) {
        Some(Language::Rust)
    } else if text::ends_with(path, ".go"@) {
        Some(Language::Go)
    } else if text::ends_with(path, ".py"@) {
        Some(Language::Python)
    } else if text::ends_with(path, ".ts"@) || text::ends_with(path, ".tsx"@) {
        Some(Language::TypeScript)
    } else if text::ends_with(path, ".java"@) {
        Some(Language::Java)
    } else if text::ends_with(path, ".js"@) || text::ends_with(path, ".jsx"@) || text::ends_with(
        path,
        ".mjs"@,
    ) || text::ends_with(path, ".cjs"@) {
        Some(Language::JavaScript)
    } else if text::ends_with(path, ".rb"@) {
        Some(Language::Ruby)
    } else if text::ends_with(path, ".cpp"@) || text::ends_with(path, ".cc"@) || text::ends_with(
        path,
        ".cxx"@,
    ) || text::ends_with(path, ".hpp"@) || text::ends_with(path, ".hh"@) || text::ends_with(
        path,
        ".hxx"@,
    ) || text::ends_with(path, ".h"@) {
        Some(Language::Cpp)
    } else {
        None
    }
}

/// `entropyx_ast::language_from_path` tells the language by the extension, as
/// `language_of` says.
#[verifier::external_body]
fn language_from_path(path: &str) -> (r: Option<Language>)
    ensures
        r == language_of(path@),
{
    entropyx_ast::language_from_path(path).map(|l| match l {
        entropyx_ast::Language::Rust => Language::Rust,
        entropyx_ast::Language::Go => Language::Go,
        entropyx_ast::Language::Python => Language::Python,
        entropyx_ast::Language::TypeScript => Language::TypeScript,
        entropyx_ast::Language::Java => Language::Java,
        entropyx_ast::Language::JavaScript => Language::JavaScript,
        entropyx_ast::Language::Ruby => Language::Ruby,
        entropyx_ast::Language::Cpp => Language::Cpp,
    })
}

/// The short name of a language.
pub open spec fn lang_key(lang: Language) -> Seq<char> {
    match lang {
        Language::Rust => "rust"@,
        Language::Go => "go"@,
        Language::Python => "python"@,
        Language::TypeScript => "typescript"@,
        Language::Java => "java"@,
        Language::JavaScript => "javascript"@,
        Language::Ruby => "ruby"@,
        Language::Cpp => "cpp"@,
    }
}

/// A blob under a language, as one name.
pub open spec fn blob_key(sha: Seq<char>, lang: Language) -> Seq<char> {
    lang_key(lang) + "/"@ + sha
}

proof fn lemma_lang_keys()
    ensures
        forall|l: Language, i: int|
            0 <= i < lang_key(l).len() ==> #[trigger] lang_key(l)[i] != '/',
        forall|l: Language, m: Language|
            #![trigger lang_key(l), lang_key(m)]
            lang_key(l) == lang_key(m) ==> l == m,
{
    reveal_strlit("rust");
    reveal_strlit("go");
    reveal_strlit("python");
    reveal_strlit("typescript");
    reveal_strlit("java");
    reveal_strlit("javascript");
    reveal_strlit("ruby");
    reveal_strlit("cpp");
    assert forall|l: Language, m: Language|
        #![trigger lang_key(l), lang_key(m)]
        lang_key(l) == lang_key(m) implies l == m by {
        let a = lang_key(l);
        let b = lang_key(m);
        assert(a.len() == b.len() && a[0] == b[0] && a[2] == b[2]);
    }
}

/// The same blob under two languages is two entries, and different blobs are
/// never one.
pub proof fn blob_key_injective(sha: Seq<char>, lang: Language, sha2: Seq<char>, lang2: Language)
    requires
        blob_key(sha, lang) == blob_key(sha2, lang2),
    ensures
        sha == sha2,
        lang == lang2,
{
    reveal_strlit("/");
    lemma_lang_keys();
    let s = blob_key(sha, lang);
    let a = lang_key(lang);
    let b = lang_key(lang2);
    assert(s[a.len() as int] == '/');
    assert(s[b.len() as int] == '/');
    if a.len() < b.len() {
        assert(s[a.len() as int] == b[a.len() as int]);
    }
    if b.len() < a.len() {
        assert(s[b.len() as int] == a[b.len() as int]);
    }
    assert(a =~= s.take(a.len() as int));
    assert(b =~= s.take(a.len() as int));
    assert(sha =~= s.skip(a.len() as int + 1));
    assert(sha2 =~= s.skip(a.len() as int + 1));
}

fn blob_key_text(sha: &str, lang: Language) -> (r: String)
    ensures
        r@ == blob_key(sha@, lang),
{
    let mut k = match lang {
        Language::Rust => "rust".to_owned(),
        Language::Go => "go".to_owned(),
        Language::Python => "python".to_owned(),
        Language::TypeScript => "typescript".to_owned(),
        Language::Java => "java".to_owned(),
        Language::JavaScript => "javascript".to_owned(),
        Language::Ruby => "ruby".to_owned(),
        Language::Cpp => "cpp".to_owned(),
    };
    k.append("/");
    k.append(sha);
    k
}

// ---- changes ---------------------------------------------------------

/// What a commit did to a path.
pub enum ChangeKind {
    Added,
    Deleted,
    Modified,
    Renamed { from: String },
    Copied { from: String },
}

/// A change of one path; for a deletion, the path that was.
pub struct FileChange {
    pub path: String,
    pub kind: ChangeKind,
}

/// What a commit contributes, once it was read.
pub struct PreparedCommit {
    pub changes: Vec<FileChange>,
    /// One for each change; none where the path has no language.
    pub api: Vec<Option<ApiSides>>,
}

/// The blobs on the two sides of a change; a side is none where there is
/// nothing to read.
pub struct ApiSides {
    pub old_blob: Option<String>,
    pub new_blob: Option<String>,
    pub lang: Language,
}

/// Where the blobs on the two sides of a change are to be looked up: a commit
/// and a path each.
pub struct ApiRequest {
    pub lang: Language,
    pub old_side: Option<(String, String)>,
    pub new_side: Option<(String, String)>,
}

impl PreparedCommit {
    /// Every change has its sides.
    pub open spec fn wf(&self) -> bool {
        self.api@.len() == self.changes@.len()
    }
}

/// The path on the old side: where a file was renamed or copied from, or where
/// it is.
pub open spec fn old_path(ch: FileChange) -> Seq<char> {
    match ch.kind {
        ChangeKind::Renamed { from } => from@,
        ChangeKind::Copied { from } => from@,
        _ => ch.path@,
    }
}

/// The place is this commit and path.
pub open spec fn is_place(
    place: Option<(String, String)>,
    commit: Seq<char>,
    path: Seq<char>,
) -> bool {
    match place {
        Some((c, p)) => c@ == commit && p@ == path,
        None => false,
    }
}

/// `r` says where the sides of the change are: the old one in the first parent,
/// if there is one, and the new one in the commit, unless the file was deleted.
pub open spec fn is_request(
    r: ApiRequest,
    ch: FileChange,
    sha: Seq<char>,
    parent: Option<Seq<char>>,
) -> bool {
    &&& language_of(ch.path@) == Some(r.lang)
    &&& match parent {
        Some(p) => is_place(r.old_side, p, old_path(ch)),
        None => r.old_side is None,
    }
    &&& if ch.kind is Deleted {
        r.new_side is None
    } else {
        is_place(r.new_side, sha, ch.path@)
    }
}

/// Where to look for the sides of a change; nowhere if the path has no
/// language.
pub fn api_request(ch: &FileChange, sha: &str, parents: &Vec<String>) -> (r: Option<ApiRequest>)
    ensures
        match r {
            Some(q) => is_request(
                q,
                *ch,
                sha@,
                if parents@.len() > 0 {
                    Some(parents@[0]@)
                } else {
                    None
                },
            ),
            None => language_of(ch.path@) is None,
        },
{
    match language_from_path(ch.path.as_str()) {
        None => None,
        Some(lang) => {
            let from = match &ch.kind {
                ChangeKind::Renamed { from } => from.clone(),
                ChangeKind::Copied { from } => from.clone(),
                _ => ch.path.clone(),
            };
            let old_side = if parents.len() > 0 {
                Some((parents[0].clone(), from))
            } else {
                None
            };
            let deleted = match &ch.kind {
                ChangeKind::Deleted => true,
                _ => false,
            };
            let new_side = if deleted {
                None
            } else {
                Some((sha.to_owned(), ch.path.clone()))
            };
            Some(ApiRequest { lang, old_side, new_side })
        },
    }
}

// ---- items -----------------------------------------------------------

/// What `entropyx_ast::parse_public_items` reads off a source text in a
/// language, which is given by its short name.
pub uninterp spec fn public_items(source: Seq<char>, lang: Seq<char>) -> Option<Seq<Seq<char>>>;

/// `entropyx_ast::parse_public_items` gives the public items of a source text,
/// ascending and each once, or none if the text cannot be parsed.
#[verifier::external_body]
fn parse_items(source: &str, lang: Language) -> (r: Option<Vec<String>>)
    ensures
        match r {
            Some(v) => public_items(source@, lang_key(lang)) == Some(sorted_map::texts(v@))
                && sorted_map::ascending(sorted_map::texts(v@)),
            None => public_items(source@, lang_key(lang)) is None,
        },
{
    entropyx_ast::parse_public_items(source, match lang {
        Language::Rust => entropyx_ast::Language::Rust,
        Language::Go => entropyx_ast::Language::Go,
        Language::Python => entropyx_ast::Language::Python,
        Language::TypeScript => entropyx_ast::Language::TypeScript,
        Language::Java => entropyx_ast::Language::Java,
        Language::JavaScript => entropyx_ast::Language::JavaScript,
        Language::Ruby => entropyx_ast::Language::Ruby,
        Language::Cpp => entropyx_ast::Language::Cpp,
    })
}

/// The items of a source text; none if it cannot be parsed.
pub open spec fn items_or_none(parsed: Option<Seq<Seq<char>>>) -> Seq<Seq<char>> {
    match parsed {
        Some(v) => v,
        None => Seq::empty(),
    }
}

/// The public items of a blob; a blob that cannot be read has no text.
pub fn blob_items(content: Option<String>, lang: Language) -> (r: Vec<String>)
    ensures
        match content {
            Some(c) => sorted_map::texts(r@) == items_or_none(public_items(c@, lang_key(lang))),
            None => sorted_map::texts(r@) == items_or_none(
                public_items(Seq::empty(), lang_key(lang)),
            ),
        },
        sorted_map::ascending(sorted_map::texts(r@)),
{
    let source = match content {
        Some(c) => c,
        None => String::new(),
    };
    assert(content is None ==> source@ =~= Seq::<char>::empty());
    items_of(parse_items(source.as_str(), lang))
}

/// What was parsed, and nothing where that failed.
pub fn items_of(parsed: Option<Vec<String>>) -> (r: Vec<String>)
    ensures
        match parsed {
            Some(v) => r == v,
            None => r@.len() == 0,
        },
{
    match parsed {
        Some(v) => v,
        None => Vec::new(),
    }
}

/// How many items two lists do not share, where they are gone through side by
/// side: equal items are passed together, and of two others the lesser one is
/// passed alone and counted.
pub open spec fn api_difference(a: Seq<Seq<char>>, b: Seq<Seq<char>>) -> nat
    decreases a.len() + b.len(),
{
    if a.len() == 0 {
        b.len()
    } else if b.len() == 0 {
        a.len()
    } else if a[0] == b[0] {
        api_difference(a.drop_first(), b.drop_first())
    } else if order::text_less(a[0], b[0]) {
        1 + api_difference(a.drop_first(), b)
    } else {
        1 + api_difference(a, b.drop_first())
    }
}

/// `entropyx_ast::public_api_delta_from_items` counts how many items two lists
/// do not share, as `api_difference` says. The count is kept in 32 bits.
#[verifier::external_body]
fn api_delta(a: &Vec<String>, b: &Vec<String>) -> (r: u32)
    requires
        a@.len() + b@.len() <= u32::MAX,
    ensures
        r == api_difference(sorted_map::texts(a@), sorted_map::texts(b@)),
{
    entropyx_ast::public_api_delta_from_items(a, b)
}

/// The items that are in one of two lists only.
pub open spec fn unshared(a: Seq<Seq<char>>, b: Seq<Seq<char>>) -> Set<Seq<char>> {
    a.to_set().difference(b.to_set()).union(b.to_set().difference(a.to_set()))
}

proof fn lemma_first_apart(s: Seq<Seq<char>>)
    requires
        s.len() > 0,
        sorted_map::ascending(s),
    ensures
        sorted_map::ascending(s.drop_first()),
        !s.drop_first().contains(s[0]),
        forall|x: Seq<char>| #[trigger]
            s.contains(x) <==> s.drop_first().contains(x) || x == s[0],
        forall|x: Seq<char>| #[trigger] s.contains(x) ==> order::text_leq(s[0], x),
{
    let t = s.drop_first();
    assert forall|i: int, j: int| 0 <= i < j < t.len() implies order::text_less(
        #[trigger] t[i],
        #[trigger] t[j],
    ) by {
        assert(t[i] == s[i + 1] && t[j] == s[j + 1]);
    }
    assert forall|x: Seq<char>| #[trigger] s.contains(x) <==> t.contains(x) || x == s[0] by {
        if s.contains(x) && x != s[0] {
            let i = choose|i: int| 0 <= i < s.len() && s[i] == x;
            assert(t[i - 1] == x);
        }
        if t.contains(x) {
            let i = choose|i: int| 0 <= i < t.len() && t[i] == x;
            assert(s[i + 1] == x);
        }
    }
    assert forall|x: Seq<char>| t.contains(x) implies order::text_less(s[0], x) by {
        let i = choose|i: int| 0 <= i < t.len() && t[i] == x;
        assert(s[i + 1] == x);
    }
    order::text_less_irreflexive(s[0]);
}

proof fn lemma_counted_alone(a: Seq<Seq<char>>, b: Seq<Seq<char>>)
    requires
        a.len() > 0,
        sorted_map::ascending(a),
        !b.contains(a[0]),
    ensures
        unshared(a, b).len() == unshared(a.drop_first(), b).len() + 1,
{
    broadcast use vstd::seq_lib::seq_to_set_is_finite;

    lemma_first_apart(a);
    let t = a.drop_first();
    assert forall|x: Seq<char>| #[trigger] unshared(a, b).contains(x) <==> unshared(
        t,
        b,
    ).contains(x) || x == a[0] by {
        assert(a.contains(x) <==> t.contains(x) || x == a[0]);
    }
    assert(unshared(a, b) =~= unshared(t, b).insert(a[0]));
    assert(!unshared(t, b).contains(a[0]));
}

proof fn lemma_unshared_swaps(a: Seq<Seq<char>>, b: Seq<Seq<char>>)
    ensures
        unshared(a, b) == unshared(b, a),
{
    assert(unshared(a, b) =~= unshared(b, a));
}

/// Of ascending lists the difference is the number of items that are in one of
/// them only.
pub proof fn difference_counts_unshared(a: Seq<Seq<char>>, b: Seq<Seq<char>>)
    requires
        sorted_map::ascending(a),
        sorted_map::ascending(b),
    ensures
        api_difference(a, b) == unshared(a, b).len(),
    decreases a.len() + b.len(),
{
    broadcast use vstd::seq_lib::seq_to_set_is_finite;

    if a.len() == 0 {
        if b.len() == 0 {
            assert(unshared(a, b) =~= Set::empty());
        } else {
            lemma_counted_alone(b, a);
            lemma_first_apart(b);
            difference_counts_unshared(a, b.drop_first());
            lemma_unshared_swaps(a, b);
            lemma_unshared_swaps(a, b.drop_first());
        }
    } else if b.len() == 0 {
        lemma_counted_alone(a, b);
        lemma_first_apart(a);
        difference_counts_unshared(a.drop_first(), b);
    } else {
        lemma_first_apart(a);
        lemma_first_apart(b);
        let s = a.drop_first();
        let t = b.drop_first();
        if a[0] == b[0] {
            difference_counts_unshared(s, t);
            assert forall|x: Seq<char>| #[trigger] unshared(a, b).contains(x) <==> unshared(
                s,
                t,
            ).contains(x) by {
                assert(a.contains(x) <==> s.contains(x) || x == a[0]);
                assert(b.contains(x) <==> t.contains(x) || x == b[0]);
            }
            assert(unshared(a, b) =~= unshared(s, t));
        } else if order::text_less(a[0], b[0]) {
            lemma_not_in_later(a[0], b);
            lemma_counted_alone(a, b);
            difference_counts_unshared(s, b);
        } else {
            order::text_less_total(a[0], b[0]);
            lemma_not_in_later(b[0], a);
            lemma_counted_alone(b, a);
            difference_counts_unshared(a, t);
            lemma_unshared_swaps(a, b);
            lemma_unshared_swaps(a, t);
        }
    }
}

proof fn lemma_not_in_later(x: Seq<char>, s: Seq<Seq<char>>)
    requires
        s.len() > 0,
        sorted_map::ascending(s),
        order::text_less(x, s[0]),
    ensures
        !s.contains(x),
{
    lemma_first_apart(s);
    order::text_less_irreflexive(x);
    if s.contains(x) && x != s[0] {
        order::text_less_transitive(x, s[0], x);
    }
}

/// `entropyx_cli::cache::DiskItemsCache`: items of blobs, kept on disk.
#[verifier::external_type_specification]
#[verifier::external_body]
pub struct ExDiskItemsCache(entropyx_cli::cache::DiskItemsCache);

/// The items that a cache holds, under the name of blob and language.
pub uninterp spec fn cached(
    c: entropyx_cli::cache::DiskItemsCache,
) -> Map<Seq<char>, Seq<Seq<char>>>;

/// `entropyx_cli::cache::DiskItemsCache::get` gives the items under the name,
/// if there are any.
#[verifier::external_body]
fn cache_get(
    c: &entropyx_cli::cache::DiskItemsCache,
    sha: &str,
    lang: Language,
) -> (r: Option<Vec<String>>)
    ensures
        match r {
            Some(v) => cached(*c).contains_key(blob_key(sha@, lang)) && cached(
                *c,
            )[blob_key(sha@, lang)] == sorted_map::texts(v@),
            None => !cached(*c).contains_key(blob_key(sha@, lang)),
        },
{
    c.get(sha, match lang {
        Language::Rust => entropyx_ast::Language::Rust,
        Language::Go => entropyx_ast::Language::Go,
        Language::Python => entropyx_ast::Language::Python,
        Language::TypeScript => entropyx_ast::Language::TypeScript,
        Language::Java => entropyx_ast::Language::Java,
        Language::JavaScript => entropyx_ast::Language::JavaScript,
        Language::Ruby => entropyx_ast::Language::Ruby,
        Language::Cpp => entropyx_ast::Language::Cpp,
    })
}

/// `entropyx_cli::cache::DiskItemsCache::insert` puts the items under the name,
/// in place of any that were there.
#[verifier::external_body]
fn cache_insert(
    c: &mut entropyx_cli::cache::DiskItemsCache,
    sha: String,
    lang: Language,
    items: Vec<String>,
)
    ensures
        cached(*final(c)) == cached(*old(c)).insert(
            blob_key(sha@, lang),
            sorted_map::texts(items@),
        ),
{
    c.insert(sha, match lang {
        Language::Rust => entropyx_ast::Language::Rust,
        Language::Go => entropyx_ast::Language::Go,
        Language::Python => entropyx_ast::Language::Python,
        Language::TypeScript => entropyx_ast::Language::TypeScript,
        Language::Java => entropyx_ast::Language::Java,
        Language::JavaScript => entropyx_ast::Language::JavaScript,
        Language::Ruby => entropyx_ast::Language::Ruby,
        Language::Cpp => entropyx_ast::Language::Cpp,
    }, items)
}

// ---- what has to be parsed ------------------------------------------

/// A blob under a language.
pub struct BlobKey {
    pub sha: String,
    pub lang: Language,
}

/// The items of blobs, under the names of blob and language.
pub type ItemIndex = SortedMap<Vec<String>>;

/// The items of an index.
pub open spec fn index_items(m: Map<Seq<char>, Vec<String>>) -> Map<Seq<char>, Seq<Seq<char>>> {
    m.map_values(|v: Vec<String>| sorted_map::texts(v@))
}

pub open spec fn blob_is(b: Option<String>, sha: Seq<char>) -> bool {
    b is Some && b->0@ == sha
}

/// A change asks for the blob.
pub open spec fn side_wants(s: Option<ApiSides>, sha: Seq<char>, lang: Language) -> bool {
    s is Some && s->0.lang == lang && (blob_is(s->0.old_blob, sha) || blob_is(s->0.new_blob, sha))
}

/// One of the first `n` changes of a commit asks for the blob.
pub open spec fn commit_wants(p: PreparedCommit, n: int, sha: Seq<char>, lang: Language) -> bool {
    exists|i: int| 0 <= i < n && side_wants(#[trigger] p.api@[i], sha, lang)
}

/// One of the commits asks for the blob.
pub open spec fn wants(ps: Seq<PreparedCommit>, sha: Seq<char>, lang: Language) -> bool {
    exists|c: int|
        0 <= c < ps.len() && commit_wants(#[trigger] ps[c], ps[c].api@.len() as int, sha, lang)
}

/// `m` holds exactly the blobs of which `p` is true.
spec fn collected(
    m: Map<Seq<char>, BlobKey>,
    p: spec_fn(Seq<char>, Language) -> bool,
) -> bool {
    &&& forall|k: Seq<char>| #[trigger]
        m.contains_key(k) ==> k == blob_key(m[k].sha@, m[k].lang) && p(m[k].sha@, m[k].lang)
    &&& forall|sha: Seq<char>, lang: Language| #[trigger]
        p(sha, lang) ==> m.contains_key(blob_key(sha, lang))
}

fn collect_blob(
    m: &mut SortedMap<BlobKey>,
    blob: &Option<String>,
    lang: Language,
    Ghost(p): Ghost<spec_fn(Seq<char>, Language) -> bool>,
    Ghost(q): Ghost<spec_fn(Seq<char>, Language) -> bool>,
)
    requires
        old(m).wf(),
        collected(old(m)@, p),
        forall|s: Seq<char>, l: Language| #[trigger]
            q(s, l) <==> p(s, l) || (l == lang && blob_is(*blob, s)),
    ensures
        final(m).wf(),
        collected(final(m)@, q),
{
    let ghost m0 = m@;
    if let Some(sha) = blob {
        let k = blob_key_text(sha.as_str(), lang);
        m.put(k.as_str(), BlobKey { sha: sha.clone(), lang });
        proof {
            assert(q(sha@, lang));
            assert forall|s: Seq<char>, l: Language| #[trigger] q(s, l) implies m@.contains_key(
                blob_key(s, l),
            ) by {
                if p(s, l) {
                    assert(m0.contains_key(blob_key(s, l)));
                }
            }
            assert forall|k2: Seq<char>| #[trigger] m@.contains_key(k2) implies k2 == blob_key(
                m@[k2].sha@,
                m@[k2].lang,
            ) && q(m@[k2].sha@, m@[k2].lang) by {
                if k2 != k@ {
                    assert(m0.contains_key(k2));
                }
            }
        }
    } else {
        proof {
            assert forall|s: Seq<char>, l: Language| #[trigger] q(s, l) implies m@.contains_key(
                blob_key(s, l),
            ) by {
                assert(p(s, l));
            }
            assert forall|k2: Seq<char>| #[trigger] m@.contains_key(k2) implies q(
                m@[k2].sha@,
                m@[k2].lang,
            ) by {
                assert(p(m@[k2].sha@, m@[k2].lang));
            }
        }
    }
}

spec fn upto_side(ps: Seq<PreparedCommit>, c: int, i: int) -> spec_fn(Seq<char>, Language) -> bool {
    |s: Seq<char>, l: Language| wants(ps.take(c), s, l) || commit_wants(ps[c], i, s, l)
}

fn collect_commit(
    m: &mut SortedMap<BlobKey>,
    ps: &[PreparedCommit],
    c: usize,
)
    requires
        old(m).wf(),
        c < ps@.len(),
        collected(old(m)@, upto_side(ps@, c as int, 0)),
    ensures
        final(m).wf(),
        collected(final(m)@, upto_side(ps@, c as int, ps@[c as int].api@.len() as int)),
{
    let p = &ps[c];
    let mut i: usize = 0;
    while i < p.api.len()
        invariant
            c < ps@.len(),
            *p == ps@[c as int],
            i <= p.api@.len(),
            m.wf(),
            collected(m@, upto_side(ps@, c as int, i as int)),
        decreases p.api@.len() - i,
    {
        let ghost now = upto_side(ps@, c as int, i as int);
        let ghost next = upto_side(ps@, c as int, i + 1);
        assert forall|s: Seq<char>, l: Language| #[trigger] commit_wants(*p, i + 1, s, l)
            <==> commit_wants(*p, i as int, s, l) || side_wants(p.api@[i as int], s, l) by {
            if commit_wants(*p, i as int, s, l) {
                let j = choose|j: int| 0 <= j < i && side_wants(#[trigger] p.api@[j], s, l);
                assert(side_wants(p.api@[j], s, l));
            }
        }
        match &p.api[i] {
            Some(sides) => {
                let ghost mid = |s: Seq<char>, l: Language|
                    now(s, l) || (l == sides.lang && blob_is(sides.old_blob, s));
                collect_blob(m, &sides.old_blob, sides.lang, Ghost(now), Ghost(mid));
                assert forall|s: Seq<char>, l: Language| #[trigger] next(s, l) <==> mid(s, l) || (l
                    == sides.lang && blob_is(sides.new_blob, s)) by {
                    assert(commit_wants(*p, i + 1, s, l) <==> commit_wants(*p, i as int, s, l)
                        || side_wants(p.api@[i as int], s, l));
                }
                collect_blob(m, &sides.new_blob, sides.lang, Ghost(mid), Ghost(next));
            },
            None => {
                proof {
                    assert forall|s: Seq<char>, l: Language| #[trigger] next(s, l) <==> now(
                        s,
                        l,
                    ) by {
                        assert(commit_wants(*p, i + 1, s, l) <==> commit_wants(*p, i as int, s, l));
                    }
                    assert forall|k: Seq<char>| #[trigger] m@.contains_key(k) implies next(
                        m@[k].sha@,
                        m@[k].lang,
                    ) by {
                        assert(now(m@[k].sha@, m@[k].lang));
                    }
                    assert forall|s: Seq<char>, l: Language| #[trigger] next(
                        s,
                        l,
                    ) implies m@.contains_key(blob_key(s, l)) by {
                        assert(now(s, l));
                    }
                }
            },
        }
        i = i + 1;
    }
}

spec fn upto_commit(ps: Seq<PreparedCommit>, c: int) -> spec_fn(Seq<char>, Language) -> bool {
    |s: Seq<char>, l: Language| wants(ps.take(c), s, l)
}

proof fn lemma_same_collected(
    m: Map<Seq<char>, BlobKey>,
    p: spec_fn(Seq<char>, Language) -> bool,
    q: spec_fn(Seq<char>, Language) -> bool,
)
    requires
        collected(m, p),
        forall|s: Seq<char>, l: Language| #![trigger p(s, l)] #![trigger q(s, l)] p(s, l) <==> q(s, l),
    ensures
        collected(m, q),
{
}

/// Every blob that the commits ask for.
fn collect_wanted(ps: &[PreparedCommit]) -> (m: SortedMap<BlobKey>)
    ensures
        m.wf(),
        collected(m@, |s: Seq<char>, l: Language| wants(ps@, s, l)),
{
    let mut m: SortedMap<BlobKey> = SortedMap::new();
    let mut c: usize = 0;
    while c < ps.len()
        invariant
            c <= ps@.len(),
            m.wf(),
            collected(m@, upto_commit(ps@, c as int)),
        decreases ps@.len() - c,
    {
        proof {
            lemma_same_collected(m@, upto_commit(ps@, c as int), upto_side(ps@, c as int, 0));
        }
        collect_commit(&mut m, ps, c);
        proof {
            let p = upto_side(ps@, c as int, ps@[c as int].api@.len() as int);
            let q = upto_commit(ps@, c + 1);
            assert forall|s: Seq<char>, l: Language|
                #![trigger p(s, l)]
                #![trigger q(s, l)]
                p(s, l) <==> q(s, l) by {
                let before = ps@.take(c as int);
                let after = ps@.take(c + 1);
                if wants(before, s, l) {
                    let j = choose|j: int|
                        0 <= j < before.len() && commit_wants(
                            #[trigger] before[j],
                            before[j].api@.len() as int,
                            s,
                            l,
                        );
                    assert(after[j] == before[j]);
                }
                if commit_wants(ps@[c as int], ps@[c as int].api@.len() as int, s, l) {
                    assert(after[c as int] == ps@[c as int]);
                }
                if wants(after, s, l) {
                    let j = choose|j: int|
                        0 <= j < after.len() && commit_wants(
                            #[trigger] after[j],
                            after[j].api@.len() as int,
                            s,
                            l,
                        );
                    if j < c {
                        assert(before[j] == after[j]);
                    }
                }
            }
            lemma_same_collected(m@, p, q);
        }
        c = c + 1;
    }
    proof {
        assert(ps@.take(c as int) =~= ps@);
        lemma_same_collected(
            m@,
            upto_commit(ps@, c as int),
            |s: Seq<char>, l: Language| wants(ps@, s, l),
        );
    }
    m
}

/// The place of a language among the languages.
pub open spec fn lang_rank(l: Language) -> int {
    match l {
        Language::Rust => 0,
        Language::Go => 1,
        Language::Python => 2,
        Language::TypeScript => 3,
        Language::Java => 4,
        Language::JavaScript => 5,
        Language::Ruby => 6,
        Language::Cpp => 7,
    }
}

fn lang_place(l: Language) -> (r: u8)
    ensures
        r == lang_rank(l),
{
    match l {
        Language::Rust => 0,
        Language::Go => 1,
        Language::Python => 2,
        Language::TypeScript => 3,
        Language::Java => 4,
        Language::JavaScript => 5,
        Language::Ruby => 6,
        Language::Cpp => 7,
    }
}

/// Blobs are worked through by their sha, then by their language.
pub open spec fn blob_before(a: BlobKey, b: BlobKey) -> bool {
    ||| order::text_less(a.sha@, b.sha@)
    ||| a.sha@ == b.sha@ && lang_rank(a.lang) < lang_rank(b.lang)
}

impl Ranked for BlobKey {
    open spec fn leq(self, other: BlobKey) -> bool {
        ||| order::text_less(self.sha@, other.sha@)
        ||| self.sha@ == other.sha@ && lang_rank(self.lang) <= lang_rank(other.lang)
    }

    proof fn leq_total_preorder() {
        assert forall|x: BlobKey, y: BlobKey| #[trigger] x.leq(y) || y.leq(x) by {
            order::text_less_total(x.sha@, y.sha@);
        }
        assert forall|x: BlobKey, y: BlobKey, z: BlobKey| #[trigger] x.leq(y) && #[trigger] y.leq(
            z,
        ) implies x.leq(z) by {
            if order::text_less(x.sha@, y.sha@) && order::text_less(y.sha@, z.sha@) {
                order::text_less_transitive(x.sha@, y.sha@, z.sha@);
            }
        }
    }

    fn at_most(&self, other: &BlobKey) -> (r: bool) {
        comes_before(self.sha.as_str(), other.sha.as_str()) || (same_text(
            self.sha.as_str(),
            other.sha.as_str(),
        ) && lang_place(self.lang) <= lang_place(other.lang))
    }
}

/// What is known of the blobs that the commits ask for, and what has to be
/// parsed.
pub struct BlobPlan {
    pub items: ItemIndex,
    pub to_parse: Vec<BlobKey>,
}

/// The blob is on the list.
pub open spec fn listed(l: Seq<BlobKey>, sha: Seq<char>, lang: Language) -> bool {
    exists|i: int| 0 <= i < l.len() && (#[trigger] l[i]).sha@ == sha && l[i].lang == lang
}

/// Of the blobs that are asked for, those in the cache have their items from
/// there, and the others are listed once each, in order.
pub open spec fn is_plan(
    plan: BlobPlan,
    ps: Seq<PreparedCommit>,
    kept: Map<Seq<char>, Seq<Seq<char>>>,
) -> bool {
    &&& plan.items.wf()
    &&& forall|k: Seq<char>| #[trigger]
        index_items(plan.items@).contains_key(k) ==> kept.contains_key(k) && index_items(
            plan.items@,
        )[k] == kept[k]
    &&& forall|sha: Seq<char>, lang: Language|
        #![trigger wants(ps, sha, lang)]
        #![trigger plan.items@.contains_key(blob_key(sha, lang))]
        plan.items@.contains_key(blob_key(sha, lang)) <==> wants(ps, sha, lang)
            && kept.contains_key(blob_key(sha, lang))
    &&& forall|sha: Seq<char>, lang: Language|
        #![trigger wants(ps, sha, lang)]
        #![trigger listed(plan.to_parse@, sha, lang)]
        listed(plan.to_parse@, sha, lang) <==> wants(ps, sha, lang) && !kept.contains_key(
            blob_key(sha, lang),
        )
    &&& forall|i: int, j: int|
        #![trigger plan.to_parse@[i], plan.to_parse@[j]]
        0 <= i < j < plan.to_parse@.len() ==> blob_before(plan.to_parse@[i], plan.to_parse@[j])
}

/// The first blobs are sorted out: those that are kept have their items, and
/// the others are on the list, once each.
#[verifier::opaque]
spec fn sorted_out(
    kept: Map<Seq<char>, Seq<Seq<char>>>,
    wm: Map<Seq<char>, BlobKey>,
    first: Seq<Seq<char>>,
    items: Map<Seq<char>, Vec<String>>,
    todo: Seq<BlobKey>,
) -> bool {
    &&& forall|k: Seq<char>| #[trigger]
        items.contains_key(k) <==> first.contains(k) && kept.contains_key(k)
    &&& forall|k: Seq<char>| #[trigger]
        items.contains_key(k) ==> sorted_map::texts(items[k]@) == kept[k]
    &&& forall|j: int|
        0 <= j < todo.len() ==> first.contains(
            blob_key((#[trigger] todo[j]).sha@, todo[j].lang),
        ) && !kept.contains_key(blob_key(todo[j].sha@, todo[j].lang))
    &&& forall|k: Seq<char>| #[trigger]
        first.contains(k) && !kept.contains_key(k) ==> listed(todo, wm[k].sha@, wm[k].lang)
    &&& forall|x: int, y: int|
        #![trigger todo[x], todo[y]]
        0 <= x < y < todo.len() ==> blob_key(todo[x].sha@, todo[x].lang) != blob_key(
            todo[y].sha@,
            todo[y].lang,
        )
}

proof fn lemma_one_more(s: Seq<Seq<char>>, k: Seq<char>)
    ensures
        forall|q: Seq<char>| #[trigger] s.push(k).contains(q) <==> s.contains(q) || q == k,
{
    let t = s.push(k);
    assert forall|q: Seq<char>| #[trigger] t.contains(q) <==> s.contains(q) || q == k by {
        assert(t[s.len() as int] == k);
        if s.contains(q) {
            let j = choose|j: int| 0 <= j < s.len() && s[j] == q;
            assert(t[j] == q);
        }
        if t.contains(q) && q != k {
            let j = choose|j: int| 0 <= j < t.len() && t[j] == q;
            assert(s[j] == q);
        }
    }
}

proof fn lemma_none_sorted_out(
    kept: Map<Seq<char>, Seq<Seq<char>>>,
    wm: Map<Seq<char>, BlobKey>,
    items: Map<Seq<char>, Vec<String>>,
    todo: Seq<BlobKey>,
)
    requires
        items.dom() =~= Set::empty(),
        todo.len() == 0,
    ensures
        sorted_out(kept, wm, Seq::empty(), items, todo),
{
    reveal(sorted_out);
}

proof fn lemma_known_sorted_out(
    kept: Map<Seq<char>, Seq<Seq<char>>>,
    wm: Map<Seq<char>, BlobKey>,
    first: Seq<Seq<char>>,
    items: Map<Seq<char>, Vec<String>>,
    todo: Seq<BlobKey>,
    k: Seq<char>,
    v: Vec<String>,
)
    requires
        sorted_out(kept, wm, first, items, todo),
        kept.contains_key(k),
        kept[k] == sorted_map::texts(v@),
    ensures
        sorted_out(kept, wm, first.push(k), items.insert(k, v), todo),
{
    reveal(sorted_out);
    lemma_one_more(first, k);
}

proof fn lemma_new_sorted_out(
    kept: Map<Seq<char>, Seq<Seq<char>>>,
    wm: Map<Seq<char>, BlobKey>,
    first: Seq<Seq<char>>,
    items: Map<Seq<char>, Vec<String>>,
    todo: Seq<BlobKey>,
    b: BlobKey,
)
    requires
        sorted_out(kept, wm, first, items, todo),
        !first.contains(blob_key(b.sha@, b.lang)),
        !kept.contains_key(blob_key(b.sha@, b.lang)),
        wm[blob_key(b.sha@, b.lang)].sha@ == b.sha@,
        wm[blob_key(b.sha@, b.lang)].lang == b.lang,
    ensures
        sorted_out(kept, wm, first.push(blob_key(b.sha@, b.lang)), items, todo.push(b)),
{
    reveal(sorted_out);
    let k = blob_key(b.sha@, b.lang);
    let more = todo.push(b);
    lemma_one_more(first, k);
    assert forall|q: Seq<char>| #[trigger]
        first.push(k).contains(q) && !kept.contains_key(q) implies listed(
        more,
        wm[q].sha@,
        wm[q].lang,
    ) by {
        if q == k {
            assert(more[todo.len() as int] == b);
        } else {
            assert(listed(todo, wm[q].sha@, wm[q].lang));
            let j = choose|j: int|
                0 <= j < todo.len() && (#[trigger] todo[j]).sha@ == wm[q].sha@ && todo[j].lang
                    == wm[q].lang;
            assert(more[j] == todo[j]);
        }
    }
    assert forall|j: int| 0 <= j < more.len() implies first.push(k).contains(
        blob_key((#[trigger] more[j]).sha@, more[j].lang),
    ) && !kept.contains_key(blob_key(more[j].sha@, more[j].lang)) by {
        if j < todo.len() {
            assert(more[j] == todo[j]);
        }
    }
    assert forall|x: int, y: int| 0 <= x < y < more.len() implies blob_key(
        (#[trigger] more[x]).sha@,
        more[x].lang,
    ) != blob_key((#[trigger] more[y]).sha@, more[y].lang) by {
        assert(more[x] == todo[x]);
        if y < todo.len() {
            assert(more[y] == todo[y]);
        }
    }
}

/// The list, put in order, is ordered strictly.
proof fn lemma_todo_ordered(
    kept: Map<Seq<char>, Seq<Seq<char>>>,
    wm: Map<Seq<char>, BlobKey>,
    first: Seq<Seq<char>>,
    items: Map<Seq<char>, Vec<String>>,
    todo: Seq<BlobKey>,
    x: int,
    y: int,
)
    requires
        sorted_out(kept, wm, first, items, todo),
        0 <= x < y < ranking::ranked(todo, ranking::by_rank::<BlobKey>()).len(),
    ensures
        blob_before(
            ranking::ranked(todo, ranking::by_rank::<BlobKey>())[x],
            ranking::ranked(todo, ranking::by_rank::<BlobKey>())[y],
        ),
{
    let leq = ranking::by_rank::<BlobKey>();
    let name = |b: BlobKey| blob_key(b.sha@, b.lang);
    let names = todo.map_values(name);
    assert forall|i: int, j: int| 0 <= i < names.len() && 0 <= j < names.len() && i != j implies
    names[i] != names[j] by {
        reveal(sorted_out);
        if i < j {
            assert(name(todo[i]) != name(todo[j]));
        } else {
            assert(name(todo[j]) != name(todo[i]));
        }
    }
    ranking::by_rank_is_total_preorder::<BlobKey>();
    ranking::ranked_is_ordered(todo, leq);
    ranking::ranked_keeps_distinct(todo, leq, name);
    let sorted = ranking::ranked(todo, leq);
    assert(leq(sorted[x], sorted[y]));
    assert(sorted.map_values(name)[x] != sorted.map_values(name)[y]);
}

/// Once all blobs are sorted out, the plan is made.
proof fn lemma_is_plan(
    ps: Seq<PreparedCommit>,
    kept: Map<Seq<char>, Seq<Seq<char>>>,
    wm: Map<Seq<char>, BlobKey>,
    keys: Seq<Seq<char>>,
    todo: Seq<BlobKey>,
    plan: BlobPlan,
)
    requires
        collected(wm, |s: Seq<char>, l: Language| wants(ps, s, l)),
        forall|k: Seq<char>| #[trigger] wm.contains_key(k) <==> keys.contains(k),
        sorted_out(kept, wm, keys, plan.items@, todo),
        plan.items.wf(),
        plan.to_parse@ == ranking::ranked(todo, ranking::by_rank::<BlobKey>()),
    ensures
        is_plan(plan, ps, kept),
{
    let sorted = plan.to_parse@;
    assert forall|x: int, y: int| 0 <= x < y < sorted.len() implies blob_before(
        #[trigger] sorted[x],
        #[trigger] sorted[y],
    ) by {
        lemma_todo_ordered(kept, wm, keys, plan.items@, todo, x, y);
    }
    assert forall|sha: Seq<char>, lang: Language|
        #![trigger wants(ps, sha, lang)]
        #![trigger listed(sorted, sha, lang)]
        listed(sorted, sha, lang) <==> wants(ps, sha, lang) && !kept.contains_key(
            blob_key(sha, lang),
        ) by {
        reveal(sorted_out);
        lemma_listing(ps, kept, wm, keys, todo, sorted, sha, lang);
    }
    assert forall|sha: Seq<char>, lang: Language|
        #![trigger wants(ps, sha, lang)]
        #![trigger plan.items@.contains_key(blob_key(sha, lang))]
        plan.items@.contains_key(blob_key(sha, lang)) <==> wants(ps, sha, lang)
            && kept.contains_key(blob_key(sha, lang)) by {
        reveal(sorted_out);
        lemma_wanted(ps, wm, sha, lang);
        assert(wm.contains_key(blob_key(sha, lang)) <==> keys.contains(blob_key(sha, lang)));
    }
    assert forall|k: Seq<char>| #[trigger]
        index_items(plan.items@).contains_key(k) implies kept.contains_key(k) && index_items(
        plan.items@,
    )[k] == kept[k] by {
        reveal(sorted_out);
        assert(plan.items@.contains_key(k));
    }
}

/// Work out what has to be parsed: every blob that is asked for, once, and not
/// if it was parsed before.
pub fn plan_blobs(
    ps: &[PreparedCommit],
    cache: &entropyx_cli::cache::DiskItemsCache,
) -> (r: BlobPlan)
    ensures
        is_plan(r, ps@, cached(*cache)),
{
    let wanted = collect_wanted(ps);
    let ghost kept = cached(*cache);
    let ghost keys = wanted.key_seq();
    let ghost wm = wanted@;
    let mut items: ItemIndex = SortedMap::new();
    let mut to_parse: Vec<BlobKey> = Vec::new();
    let n: usize = wanted.len();
    let mut i: usize = 0;
    proof {
        wanted.wf_keys();
        assert(keys.take(0) =~= Seq::empty());
        lemma_none_sorted_out(kept, wm, items@, to_parse@);
    }
    while i < n
        invariant
            wanted.wf(),
            wm == wanted@,
            keys == wanted.key_seq(),
            keys.no_duplicates(),
            n == keys.len(),
            i <= n,
            kept == cached(*cache),
            collected(wm, |s: Seq<char>, l: Language| wants(ps@, s, l)),
            items.wf(),
            sorted_out(kept, wm, keys.take(i as int), items@, to_parse@),
        decreases n - i,
    {
        let ghost k = keys[i as int];
        let key = wanted.value_at(i);
        proof {
            assert(wm.contains_key(k));
            assert(k == blob_key(key.sha@, key.lang));
            assert(!keys.take(i as int).contains(k));
            assert(keys.take(i + 1) =~= keys.take(i as int).push(k));
        }
        match cache_get(cache, key.sha.as_str(), key.lang) {
            Some(v) => {
                let name = blob_key_text(key.sha.as_str(), key.lang);
                proof {
                    lemma_known_sorted_out(
                        kept,
                        wm,
                        keys.take(i as int),
                        items@,
                        to_parse@,
                        k,
                        v,
                    );
                }
                items.put(name.as_str(), v);
            },
            None => {
                let b = BlobKey { sha: key.sha.clone(), lang: key.lang };
                proof {
                    lemma_new_sorted_out(kept, wm, keys.take(i as int), items@, to_parse@, b);
                }
                to_parse.push(b);
            },
        }
        i = i + 1;
    }
    let ghost todo = to_parse@;
    assert(keys.take(n as int) =~= keys);
    let plan = BlobPlan { items, to_parse: sort_stable(to_parse) };
    proof {
        lemma_is_plan(ps@, kept, wm, keys, todo, plan);
    }
    plan
}

proof fn lemma_wanted(
    ps: Seq<PreparedCommit>,
    wm: Map<Seq<char>, BlobKey>,
    sha: Seq<char>,
    lang: Language,
)
    requires
        collected(wm, |s: Seq<char>, l: Language| wants(ps, s, l)),
    ensures
        wm.contains_key(blob_key(sha, lang)) <==> wants(ps, sha, lang),
        wants(ps, sha, lang) ==> wm[blob_key(sha, lang)].sha@ == sha && wm[blob_key(
            sha,
            lang,
        )].lang == lang,
{
    let p = |s: Seq<char>, l: Language| wants(ps, s, l);
    let k = blob_key(sha, lang);
    if wants(ps, sha, lang) {
        assert(p(sha, lang));
    }
    if wm.contains_key(k) {
        blob_key_injective(sha, lang, wm[k].sha@, wm[k].lang);
        assert(p(wm[k].sha@, wm[k].lang));
    }
}

proof fn lemma_listing(
    ps: Seq<PreparedCommit>,
    kept: Map<Seq<char>, Seq<Seq<char>>>,
    wm: Map<Seq<char>, BlobKey>,
    keys: Seq<Seq<char>>,
    given: Seq<BlobKey>,
    sorted: Seq<BlobKey>,
    sha: Seq<char>,
    lang: Language,
)
    requires
        collected(wm, |s: Seq<char>, l: Language| wants(ps, s, l)),
        forall|k: Seq<char>| #[trigger] wm.contains_key(k) <==> keys.contains(k),
        sorted == ranking::ranked(given, ranking::by_rank::<BlobKey>()),
        forall|j: int|
            0 <= j < given.len() ==> keys.contains(
                blob_key((#[trigger] given[j]).sha@, given[j].lang),
            ) && !kept.contains_key(blob_key(given[j].sha@, given[j].lang)),
        forall|k: Seq<char>| #[trigger]
            keys.contains(k) && !kept.contains_key(k) ==> listed(given, wm[k].sha@, wm[k].lang),
    ensures
        listed(sorted, sha, lang) <==> wants(ps, sha, lang) && !kept.contains_key(
            blob_key(sha, lang),
        ),
{
    let leq = ranking::by_rank::<BlobKey>();
    let k = blob_key(sha, lang);
    lemma_wanted(ps, wm, sha, lang);
    if listed(sorted, sha, lang) {
        let i = choose|i: int|
            0 <= i < sorted.len() && (#[trigger] sorted[i]).sha@ == sha && sorted[i].lang == lang;
        ranking::ranked_same_members(given, leq, sorted[i]);
        assert(sorted.contains(sorted[i]));
        let j = choose|j: int| 0 <= j < given.len() && given[j] == sorted[i];
        assert(keys.contains(blob_key(given[j].sha@, given[j].lang)));
        assert(wm.contains_key(k));
    }
    if wants(ps, sha, lang) && !kept.contains_key(k) {
        assert(wm.contains_key(k));
        assert(keys.contains(k));
        assert(listed(given, wm[k].sha@, wm[k].lang));
        let j = choose|j: int|
            0 <= j < given.len() && (#[trigger] given[j]).sha@ == sha && given[j].lang == lang;
        ranking::ranked_same_members(given, leq, given[j]);
        assert(given.contains(given[j]));
        let i = choose|i: int| 0 <= i < sorted.len() && sorted[i] == given[j];
        assert(sorted[i].sha@ == sha && sorted[i].lang == lang);
    }
}

/// The items with those that were parsed.
pub open spec fn with_parsed(
    m: Map<Seq<char>, Seq<Seq<char>>>,
    parsed: Seq<(BlobKey, Vec<String>)>,
) -> Map<Seq<char>, Seq<Seq<char>>>
    decreases parsed.len(),
{
    if parsed.len() == 0 {
        m
    } else {
        with_parsed(m, parsed.drop_last()).insert(
            blob_key(parsed.last().0.sha@, parsed.last().0.lang),
            sorted_map::texts(parsed.last().1@),
        )
    }
}

/// Once everything on the list was parsed, every blob that is asked for is
/// known.
pub proof fn every_wanted_blob_is_known(
    plan: BlobPlan,
    ps: Seq<PreparedCommit>,
    kept: Map<Seq<char>, Seq<Seq<char>>>,
    parsed: Seq<(BlobKey, Vec<String>)>,
    sha: Seq<char>,
    lang: Language,
)
    requires
        is_plan(plan, ps, kept),
        parsed.len() == plan.to_parse@.len(),
        forall|i: int|
            0 <= i < parsed.len() ==> (#[trigger] parsed[i]).0.sha@ == plan.to_parse@[i].sha@
                && parsed[i].0.lang == plan.to_parse@[i].lang,
        wants(ps, sha, lang),
    ensures
        with_parsed(index_items(plan.items@), parsed).contains_key(blob_key(sha, lang)),
{
    let m = index_items(plan.items@);
    if kept.contains_key(blob_key(sha, lang)) {
        assert(plan.items@.contains_key(blob_key(sha, lang)));
        assert(m.contains_key(blob_key(sha, lang)));
        lemma_parsed_keeps(m, parsed, blob_key(sha, lang));
    } else {
        assert(listed(plan.to_parse@, sha, lang));
        let i = choose|i: int|
            0 <= i < plan.to_parse@.len() && (#[trigger] plan.to_parse@[i]).sha@ == sha
                && plan.to_parse@[i].lang == lang;
        assert(parsed[i].0.sha@ == sha);
        lemma_parsed_adds(m, parsed, i);
    }
}

proof fn lemma_parsed_keeps(
    m: Map<Seq<char>, Seq<Seq<char>>>,
    parsed: Seq<(BlobKey, Vec<String>)>,
    k: Seq<char>,
)
    requires
        m.contains_key(k),
    ensures
        with_parsed(m, parsed).contains_key(k),
    decreases parsed.len(),
{
    if parsed.len() > 0 {
        lemma_parsed_keeps(m, parsed.drop_last(), k);
    }
}

proof fn lemma_parsed_adds(
    m: Map<Seq<char>, Seq<Seq<char>>>,
    parsed: Seq<(BlobKey, Vec<String>)>,
    i: int,
)
    requires
        0 <= i < parsed.len(),
    ensures
        with_parsed(m, parsed).contains_key(blob_key(parsed[i].0.sha@, parsed[i].0.lang)),
    decreases parsed.len(),
{
    if i < parsed.len() - 1 {
        lemma_parsed_adds(m, parsed.drop_last(), i);
    }
}

fn copy_items(v: &Vec<String>) -> (r: Vec<String>)
    ensures
        sorted_map::texts(r@) == sorted_map::texts(v@),
{
    let mut r: Vec<String> = Vec::new();
    let mut i: usize = 0;
    while i < v.len()
        invariant
            i <= v@.len(),
            r@.len() == i,
            forall|j: int| 0 <= j < i ==> (#[trigger] r@[j])@ == v@[j]@,
        decreases v@.len() - i,
    {
        r.push(v[i].clone());
        i = i + 1;
    }
    assert(sorted_map::texts(r@) =~= sorted_map::texts(v@));
    r
}

/// Take what was parsed into the index, and into the cache for the next run.
pub fn take_parsed(
    items: &mut ItemIndex,
    cache: &mut entropyx_cli::cache::DiskItemsCache,
    parsed: Vec<(BlobKey, Vec<String>)>,
)
    requires
        old(items).wf(),
    ensures
        final(items).wf(),
        index_items(final(items)@) == with_parsed(index_items(old(items)@), parsed@),
        cached(*final(cache)) == with_parsed(cached(*old(cache)), parsed@),
{
    let mut i: usize = 0;
    assert(parsed@.take(0) =~= Seq::empty());
    while i < parsed.len()
        invariant
            i <= parsed@.len(),
            items.wf(),
            index_items(items@) == with_parsed(index_items(old(items)@), parsed@.take(i as int)),
            cached(*cache) == with_parsed(cached(*old(cache)), parsed@.take(i as int)),
        decreases parsed@.len() - i,
    {
        let entry = &parsed[i];
        let ghost before = items@;
        let name = blob_key_text(entry.0.sha.as_str(), entry.0.lang);
        cache_insert(cache, entry.0.sha.clone(), entry.0.lang, copy_items(&entry.1));
        let kept = copy_items(&entry.1);
        items.put(name.as_str(), kept);
        proof {
            assert(parsed@.take(i + 1).drop_last() =~= parsed@.take(i as int));
            assert(index_items(items@) =~= index_items(before).insert(
                name@,
                sorted_map::texts(kept@),
            ));
        }
        i = i + 1;
    }
    assert(parsed@.take(i as int) =~= parsed@);
}

// ---- what a change does ---------------------------------------------

/// The items of a side; none where there is no blob, or nothing is known of it.
pub open spec fn side_items(
    items: Map<Seq<char>, Vec<String>>,
    blob: Option<String>,
    lang: Language,
) -> Seq<Seq<char>> {
    match blob {
        Some(sha) => if items.contains_key(blob_key(sha@, lang)) {
            sorted_map::texts(items[blob_key(sha@, lang)]@)
        } else {
            Seq::empty()
        },
        None => Seq::empty(),
    }
}

/// How much of the public interface a change touched.
pub open spec fn change_drift(items: Map<Seq<char>, Vec<String>>, sides: ApiSides) -> nat {
    api_difference(
        side_items(items, sides.old_blob, sides.lang),
        side_items(items, sides.new_blob, sides.lang),
    )
}

/// Two lists of the index together are counted in 32 bits.
pub open spec fn items_fit(items: Map<Seq<char>, Vec<String>>) -> bool {
    forall|k: Seq<char>| #[trigger] items.contains_key(k) ==> items[k]@.len() <= 0x7fff_ffff
}

/// Whether the lists of the index can be counted.
pub fn fits(items: &ItemIndex) -> (r: bool)
    requires
        items.wf(),
    ensures
        r == items_fit(items@),
{
    let n: usize = items.len();
    let mut i: usize = 0;
    proof {
        items.wf_keys();
    }
    while i < n
        invariant
            items.wf(),
            n == items.key_seq().len(),
            i <= n,
            forall|j: int|
                0 <= j < i ==> items@[#[trigger] items.key_seq()[j]]@.len() <= 0x7fff_ffff,
        decreases n - i,
    {
        if items.value_at(i).len() > 0x7fff_ffff {
            return false;
        }
        i = i + 1;
    }
    proof {
        assert forall|k: Seq<char>| #[trigger] items@.contains_key(k) implies items@[k]@.len()
            <= 0x7fff_ffff by {
            assert(items.key_seq().contains(k));
            let j = items.key_seq().index_of(k);
            assert(items.key_seq()[j] == k);
        }
    }
    true
}

fn side_list(items: &ItemIndex, blob: &Option<String>, lang: Language) -> (r: Vec<String>)
    requires
        items.wf(),
        items_fit(items@),
    ensures
        sorted_map::texts(r@) == side_items(items@, *blob, lang),
        r@.len() <= 0x7fff_ffff,
{
    match blob {
        Some(sha) => {
            let name = blob_key_text(sha.as_str(), lang);
            match items.get(name.as_str()) {
                Some(v) => {
                    assert(sorted_map::texts(v@).len() == v@.len());
                    let r = copy_items(v);
                    assert(sorted_map::texts(r@).len() == r@.len());
                    r
                },
                None => {
                    let r: Vec<String> = Vec::new();
                    assert(sorted_map::texts(r@) =~= Seq::empty());
                    r
                },
            }
        },
        None => {
            let r: Vec<String> = Vec::new();
            assert(sorted_map::texts(r@) =~= Seq::empty());
            r
        },
    }
}

/// How much of the public interface a change touched.
pub fn drift_of(items: &ItemIndex, sides: &ApiSides) -> (r: u32)
    requires
        items.wf(),
        items_fit(items@),
    ensures
        r == change_drift(items@, *sides),
        ({
            let before = side_items(items@, sides.old_blob, sides.lang);
            let after = side_items(items@, sides.new_blob, sides.lang);
            sorted_map::ascending(before) && sorted_map::ascending(after) ==> r == unshared(
                before,
                after,
            ).len()
        }),
{
    let old_items = side_list(items, &sides.old_blob, sides.lang);
    let new_items = side_list(items, &sides.new_blob, sides.lang);
    proof {
        let before = sorted_map::texts(old_items@);
        let after = sorted_map::texts(new_items@);
        if sorted_map::ascending(before) && sorted_map::ascending(after) {
            difference_counts_unshared(before, after);
        }
    }
    api_delta(&old_items, &new_items)
}

// ---- what holds of blobs and changes ---------------------------------

/// The old side of a change is looked up in the first parent: under the path
/// that a file was renamed or copied from, and under its own path otherwise; a
/// first commit has none. The new side is looked up in the commit itself under
/// the file's path; a deleted file has none.
pub proof fn sides_are_looked_up(
    r: ApiRequest,
    ch: FileChange,
    sha: Seq<char>,
    parent: Option<Seq<char>>,
)
    requires
        is_request(r, ch, sha, parent),
    ensures
        parent is None <==> r.old_side is None,
        parent matches Some(p) ==> (r.old_side->0).0@ == p,
        parent is Some ==> (match ch.kind {
            ChangeKind::Renamed { from } => (r.old_side->0).1@ == from@,
            ChangeKind::Copied { from } => (r.old_side->0).1@ == from@,
            ChangeKind::Added => (r.old_side->0).1@ == ch.path@,
            ChangeKind::Deleted => (r.old_side->0).1@ == ch.path@,
            ChangeKind::Modified => (r.old_side->0).1@ == ch.path@,
        }),
        ch.kind is Deleted <==> r.new_side is None,
        !(ch.kind is Deleted) ==> (r.new_side->0).0@ == sha && (r.new_side->0).1@ == ch.path@,
        language_of(ch.path@) == Some(r.lang),
{
}

/// The blobs on either side of a change of any commit are asked for, under the
/// change's language, and no others are.
pub proof fn both_sides_are_wanted(ps: Seq<PreparedCommit>, sha: Seq<char>, lang: Language)
    ensures
        forall|c: int, i: int|
            0 <= c < ps.len() && 0 <= i < ps[c].api@.len() ==> (#[trigger] ps[c].api@[i]
                matches Some(s) ==> {
                &&& s.old_blob matches Some(b) ==> wants(ps, b@, s.lang)
                &&& s.new_blob matches Some(b) ==> wants(ps, b@, s.lang)
            }),
        wants(ps, sha, lang) ==> exists|c: int, i: int|
            0 <= c < ps.len() && 0 <= i < ps[c].api@.len() && (#[trigger] ps[c].api@[i]
                matches Some(s) && s.lang == lang && (s.old_blob is Some && (s.old_blob->0)@ == sha
                || s.new_blob is Some && (s.new_blob->0)@ == sha)),
{
    assert forall|c: int, i: int|
        0 <= c < ps.len() && 0 <= i < ps[c].api@.len() implies (#[trigger] ps[c].api@[i]
        matches Some(s) ==> {
        &&& s.old_blob matches Some(b) ==> wants(ps, b@, s.lang)
        &&& s.new_blob matches Some(b) ==> wants(ps, b@, s.lang)
    }) by {
        if let Some(s) = ps[c].api@[i] {
            if let Some(b) = s.old_blob {
                assert(side_wants(ps[c].api@[i], b@, s.lang));
                assert(commit_wants(ps[c], ps[c].api@.len() as int, b@, s.lang));
            }
            if let Some(b) = s.new_blob {
                assert(side_wants(ps[c].api@[i], b@, s.lang));
                assert(commit_wants(ps[c], ps[c].api@.len() as int, b@, s.lang));
            }
        }
    }
    if wants(ps, sha, lang) {
        let c = choose|c: int|
            0 <= c < ps.len() && commit_wants(#[trigger] ps[c], ps[c].api@.len() as int, sha, lang);
        let i = choose|i: int|
            0 <= i < ps[c].api@.len() && side_wants(#[trigger] ps[c].api@[i], sha, lang);
        assert(ps[c].api@[i] is Some);
    }
}

/// A blob on a side of a change is either known from the cache, with the
/// cache's items, or on the list, and never both. What is on the list is asked
/// for, and stands by its sha and then by its language.
pub proof fn plans_leave_nothing_out(
    plan: BlobPlan,
    ps: Seq<PreparedCommit>,
    kept: Map<Seq<char>, Seq<Seq<char>>>,
    sha: Seq<char>,
    lang: Language,
)
    requires
        is_plan(plan, ps, kept),
    ensures
        wants(ps, sha, lang) && kept.contains_key(blob_key(sha, lang)) ==> plan.items@.contains_key(
            blob_key(sha, lang),
        ) && sorted_map::texts(plan.items@[blob_key(sha, lang)]@) == kept[blob_key(sha, lang)]
            && !listed(plan.to_parse@, sha, lang),
        wants(ps, sha, lang) && !kept.contains_key(blob_key(sha, lang)) ==> listed(
            plan.to_parse@,
            sha,
            lang,
        ) && !plan.items@.contains_key(blob_key(sha, lang)),
        !wants(ps, sha, lang) ==> !listed(plan.to_parse@, sha, lang) && !plan.items@.contains_key(
            blob_key(sha, lang),
        ),
        forall|i: int, j: int|
            #![trigger plan.to_parse@[i], plan.to_parse@[j]]
            0 <= i < j < plan.to_parse@.len() ==> order::text_less(
                plan.to_parse@[i].sha@,
                plan.to_parse@[j].sha@,
            ) || plan.to_parse@[i].sha@ == plan.to_parse@[j].sha@ && plan.to_parse@[i].lang
                != plan.to_parse@[j].lang,
{
    let k = blob_key(sha, lang);
    if plan.items@.contains_key(k) {
        assert(index_items(plan.items@).contains_key(k));
        assert(index_items(plan.items@)[k] == sorted_map::texts(plan.items@[k]@));
    }
    assert forall|i: int, j: int|
        #![trigger plan.to_parse@[i], plan.to_parse@[j]]
        0 <= i < j < plan.to_parse@.len() implies order::text_less(
        plan.to_parse@[i].sha@,
        plan.to_parse@[j].sha@,
    ) || plan.to_parse@[i].sha@ == plan.to_parse@[j].sha@ && plan.to_parse@[i].lang
        != plan.to_parse@[j].lang by {
        assert(blob_before(plan.to_parse@[i], plan.to_parse@[j]));
    }
}

/// What was parsed of a blob is in the index, unless something else was parsed
/// of it later, and everything else is as before.
pub proof fn parsed_items_are_taken(
    m: Map<Seq<char>, Seq<Seq<char>>>,
    parsed: Seq<(BlobKey, Vec<String>)>,
    i: int,
    k: Seq<char>,
)
    ensures
        0 <= i < parsed.len() && (forall|j: int|
            i < j < parsed.len() ==> blob_key((#[trigger] parsed[j]).0.sha@, parsed[j].0.lang)
                != blob_key(parsed[i].0.sha@, parsed[i].0.lang)) ==> with_parsed(
            m,
            parsed,
        ).contains_key(blob_key(parsed[i].0.sha@, parsed[i].0.lang)) && with_parsed(
            m,
            parsed,
        )[blob_key(parsed[i].0.sha@, parsed[i].0.lang)] == sorted_map::texts(parsed[i].1@),
        (forall|j: int|
            0 <= j < parsed.len() ==> blob_key((#[trigger] parsed[j]).0.sha@, parsed[j].0.lang)
                != k) ==> (with_parsed(m, parsed).contains_key(k) <==> m.contains_key(k)) && (
        m.contains_key(k) ==> with_parsed(m, parsed)[k] == m[k]),
    decreases parsed.len(),
{
    if parsed.len() > 0 {
        let front = parsed.drop_last();
        parsed_items_are_taken(m, front, i, k);
        assert(parsed[parsed.len() - 1] == parsed.last());
        assert forall|j: int| 0 <= j < front.len() implies parsed[j] == #[trigger] front[j] by {}
        if 0 <= i < front.len() && forall|j: int|
            i < j < parsed.len() ==> blob_key((#[trigger] parsed[j]).0.sha@, parsed[j].0.lang)
                != blob_key(parsed[i].0.sha@, parsed[i].0.lang) {
            assert forall|j: int| i < j < front.len() implies blob_key(
                (#[trigger] front[j]).0.sha@,
                front[j].0.lang,
            ) != blob_key(front[i].0.sha@, front[i].0.lang) by {
                assert(parsed[j] == front[j]);
            }
        }
        if forall|j: int|
            0 <= j < parsed.len() ==> blob_key((#[trigger] parsed[j]).0.sha@, parsed[j].0.lang)
                != k {
            assert forall|j: int| 0 <= j < front.len() implies blob_key(
                (#[trigger] front[j]).0.sha@,
                front[j].0.lang,
            ) != k by {
                assert(parsed[j] == front[j]);
            }
        }
    }
}

/// The drift of a change between two known blobs is the number of items that
/// only one of them has. A file that came or went drifts by all its items, and
/// one whose items stayed by none.
pub proof fn drift_counts_what_changed(
    items: Map<Seq<char>, Vec<String>>,
    old_sha: String,
    new_sha: String,
    lang: Language,
)
    requires
        items.contains_key(blob_key(old_sha@, lang)),
        items.contains_key(blob_key(new_sha@, lang)),
        sorted_map::ascending(sorted_map::texts(items[blob_key(old_sha@, lang)]@)),
        sorted_map::ascending(sorted_map::texts(items[blob_key(new_sha@, lang)]@)),
    ensures
        ({
            let old_items = sorted_map::texts(items[blob_key(old_sha@, lang)]@);
            let new_items = sorted_map::texts(items[blob_key(new_sha@, lang)]@);
            let both = ApiSides { old_blob: Some(old_sha), new_blob: Some(new_sha), lang };
            let came = ApiSides { old_blob: None, new_blob: Some(new_sha), lang };
            let went = ApiSides { old_blob: Some(old_sha), new_blob: None, lang };
            let neither = ApiSides { old_blob: None, new_blob: None, lang };
            &&& change_drift(items, both) == Set::new(
                |x: Seq<char>| old_items.contains(x) != new_items.contains(x),
            ).len()
            &&& old_items == new_items ==> change_drift(items, both) == 0
            &&& change_drift(items, came) == new_items.len()
            &&& change_drift(items, went) == old_items.len()
            &&& change_drift(items, neither) == 0
        }),
{
    let a = sorted_map::texts(items[blob_key(old_sha@, lang)]@);
    let b = sorted_map::texts(items[blob_key(new_sha@, lang)]@);
    difference_counts_unshared(a, b);
    let apart = Set::new(|x: Seq<char>| a.contains(x) != b.contains(x));
    assert(unshared(a, b) =~= apart);
    if a == b {
        assert(unshared(a, b) =~= Set::empty());
    }
}

/// A blob of which nothing is known has no items, so a change between two such
/// blobs drifts by nothing.
pub proof fn unknown_blobs_have_no_items(
    items: Map<Seq<char>, Vec<String>>,
    sides: ApiSides,
)
    requires
        sides.old_blob matches Some(b) ==> !items.contains_key(blob_key(b@, sides.lang)),
        sides.new_blob matches Some(b) ==> !items.contains_key(blob_key(b@, sides.lang)),
    ensures
        change_drift(items, sides) == 0,
{
}

/// Languages are worked through in this order.
pub proof fn languages_have_an_order(a: Language, b: Language)
    ensures
        lang_rank(Language::Rust) < lang_rank(Language::Go) < lang_rank(Language::Python)
            < lang_rank(Language::TypeScript) < lang_rank(Language::Java) < lang_rank(
            Language::JavaScript,
        ) < lang_rank(Language::Ruby) < lang_rank(Language::Cpp),
        lang_rank(a) == lang_rank(b) ==> a == b,
{
}

/// The items of a blob are those that were parsed, and none where that failed.
pub proof fn unparsed_blobs_have_no_items(v: Seq<Seq<char>>)
    ensures
        items_or_none(Some(v)) == v,
        items_or_none(None).len() == 0,
{
}

} // verus!
