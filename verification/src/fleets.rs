//! Fleets: sets of files that are peers of one another.
//!
//! Files are peers when they share a basename across directories, or a
//! configuration-like extension within one directory. Two unrelated sources
//! differ in almost everything, so source code never forms a fleet by name.

use vstd::prelude::*;
use vstd::string::*;

use crate::order;
use crate::order::same_text;
use crate::ranking;
use crate::ranking::{sort_stable, Ranked};
use crate::sorted_map;
use crate::sorted_map::SortedMap;
use crate::text;
use crate::text::{chars_of, decimal_string, find_last, is_empty_text, part_of, string_of, to_lower};

verus! {

/// Most members that a fleet keeps; what is dropped is counted.
pub const MAX_MEMBERS: usize = 60;

/// Most fleets that are kept.
pub const MAX_FLEETS: usize = 24;

/// Fewest files that make a fleet by their name.
pub const MIN_BASENAME_MEMBERS: usize = 2;

/// Fewest files of a directory that make a fleet by their extension.
pub const MIN_EXT_MEMBERS: usize = 3;

/// A set of peers.
#[derive(Clone, Debug)]
pub struct Fleet {
    pub id: String,
    pub label: String,
    /// `basename` or `extension`: the rule that matched.
    pub rule: &'static str,
    pub members: Vec<String>,
    /// Members beyond the most that a fleet keeps.
    pub truncated: usize,
}

/// A fleet as a value.
pub struct FleetModel {
    pub id: Seq<char>,
    pub label: Seq<char>,
    pub rule: Seq<char>,
    pub members: Seq<Seq<char>>,
    pub truncated: nat,
}

impl View for Fleet {
    type V = FleetModel;

    open spec fn view(&self) -> FleetModel {
        FleetModel {
            id: self.id@,
            label: self.label@,
            rule: self.rule@,
            members: sorted_map::texts(self.members@),
            truncated: self.truncated as nat,
        }
    }
}

// ---- what a path says ------------------------------------------------

/// What follows the last slash.
pub open spec fn base_of(p: Seq<char>) -> Seq<char> {
    p.skip(text::last_place(p, '/') + 1)
}

/// What precedes the last slash; empty without one.
pub open spec fn dir_of(p: Seq<char>) -> Seq<char> {
    if text::last_place(p, '/') < 0 {
        Seq::empty()
    } else {
        p.take(text::last_place(p, '/'))
    }
}

/// What follows the last dot of a basename; empty without one.
pub open spec fn ext_of(base: Seq<char>) -> Seq<char> {
    if text::last_place(base, '.') < 0 {
        Seq::empty()
    } else {
        base.skip(text::last_place(base, '.') + 1)
    }
}

/// Extensions whose files are compared within one directory.
pub open spec fn fleetable(ext: Seq<char>) -> bool {
    ||| ext == "yml"@
    ||| ext == "yaml"@
    ||| ext == "json"@
    ||| ext == "jsonc"@
    ||| ext == "toml"@
    ||| ext == "ini"@
    ||| ext == "cfg"@
    ||| ext == "conf"@
    ||| ext == "env"@
    ||| ext == "xml"@
    ||| ext == "properties"@
    ||| ext == "tf"@
    ||| ext == "tfvars"@
    ||| ext == "sql"@
    ||| ext == "http"@
    ||| ext == "plist"@
    ||| ext == "gradle"@
    ||| ext == "props"@
}

/// Extensions of source code and prose: files that share their name by
/// convention only.
pub open spec fn source(ext: Seq<char>) -> bool {
    ||| ext == "rs"@
    ||| ext == "ts"@
    ||| ext == "tsx"@
    ||| ext == "js"@
    ||| ext == "jsx"@
    ||| ext == "mjs"@
    ||| ext == "cjs"@
    ||| ext == "py"@
    ||| ext == "go"@
    ||| ext == "java"@
    ||| ext == "rb"@
    ||| ext == "cpp"@
    ||| ext == "cc"@
    ||| ext == "c"@
    ||| ext == "h"@
    ||| ext == "hpp"@
    ||| ext == "cs"@
    ||| ext == "swift"@
    ||| ext == "kt"@
    ||| ext == "php"@
    ||| ext == "scala"@
    ||| ext == "ex"@
    ||| ext == "exs"@
    ||| ext == "zig"@
    ||| ext == "lua"@
    ||| ext == "pl"@
    ||| ext == "sh"@
    ||| ext == "bash"@
    ||| ext == "md"@
    ||| ext == "txt"@
    ||| ext == "html"@
    ||| ext == "css"@
    ||| ext == "scss"@
}

/// Files without extension that are compared by their name, in any case of
/// its letters.
pub open spec fn named_fleet(base: Seq<char>) -> bool {
    let b = text::lower_text(base);
    ||| b == text::lower_text("Dockerfile"@)
    ||| b == text::lower_text("Makefile"@)
    ||| b == text::lower_text("Justfile"@)
    ||| b == text::lower_text("Jenkinsfile"@)
    ||| b == text::lower_text("Procfile"@)
    ||| b == text::lower_text("Vagrantfile"@)
    ||| b == text::lower_text("CODEOWNERS"@)
}

/// A file of this basename can have peers by name.
pub open spec fn comparable_by_name(base: Seq<char>) -> bool {
    ||| named_fleet(base)
    ||| ext_of(base).len() > 0 && !source(ext_of(base))
}

// ---- groups ----------------------------------------------------------

/// The paths with a basename that is compared by name, as they came.
pub open spec fn sharing_base(paths: Seq<Seq<char>>, b: Seq<char>) -> Seq<Seq<char>> {
    paths.filter(|p: Seq<char>| comparable_by_name(base_of(p)) && base_of(p) == b)
}

/// The paths of a directory with a fleetable extension, as they came.
pub open spec fn sharing_ext(paths: Seq<Seq<char>>, d: Seq<char>, e: Seq<char>) -> Seq<Seq<char>> {
    paths.filter(
        |p: Seq<char>| fleetable(ext_of(base_of(p))) && dir_of(p) == d && ext_of(base_of(p)) == e,
    )
}

/// The order of text as a function.
pub open spec fn by_text() -> spec_fn(Seq<char>, Seq<char>) -> bool {
    |a: Seq<char>, b: Seq<char>| order::text_leq(a, b)
}

/// Paths in ascending order.
pub open spec fn in_order(paths: Seq<Seq<char>>) -> Seq<Seq<char>> {
    ranking::ranked(paths, by_text())
}

/// As many members as a fleet keeps.
pub open spec fn kept(members: Seq<Seq<char>>) -> Seq<Seq<char>> {
    if members.len() > MAX_MEMBERS {
        members.take(MAX_MEMBERS as int)
    } else {
        members
    }
}

/// A fleet of the given files.
pub open spec fn fleet_of(
    id: Seq<char>,
    name: Seq<char>,
    rule: Seq<char>,
    group: Seq<Seq<char>>,
) -> FleetModel {
    FleetModel {
        id,
        label: name + " × "@ + text::decimal(group.len()),
        rule,
        members: kept(in_order(group)),
        truncated: (group.len() - kept(in_order(group)).len()) as nat,
    }
}

/// Enough files share this basename.
pub open spec fn has_base_fleet(paths: Seq<Seq<char>>, b: Seq<char>) -> bool {
    sharing_base(paths, b).len() >= MIN_BASENAME_MEMBERS
}

/// The fleet of the files with this basename.
pub open spec fn base_fleet(paths: Seq<Seq<char>>, b: Seq<char>) -> FleetModel {
    fleet_of("basename:"@ + b, b, "basename"@, sharing_base(paths, b))
}

/// The members are this set of files.
pub open spec fn covers(members: Seq<Seq<char>>, group: Seq<Seq<char>>) -> bool {
    &&& members.len() == group.len()
    &&& forall|i: int| 0 <= i < members.len() ==> group.contains(#[trigger] members[i])
}

/// A fleet by name covers these files.
pub open spec fn covered_by_name(paths: Seq<Seq<char>>, group: Seq<Seq<char>>) -> bool {
    exists|b: Seq<char>|
        has_base_fleet(paths, b) && covers(#[trigger] base_fleet(paths, b).members, group)
}

/// Enough files of the directory share this extension, and no fleet by name
/// says the same.
pub open spec fn has_ext_fleet(paths: Seq<Seq<char>>, d: Seq<char>, e: Seq<char>) -> bool {
    &&& fleetable(e)
    &&& sharing_ext(paths, d, e).len() >= MIN_EXT_MEMBERS
    &&& !covered_by_name(paths, sharing_ext(paths, d, e))
}

/// The name of a directory in a label.
pub open spec fn place_name(d: Seq<char>) -> Seq<char> {
    if d.len() == 0 {
        "repository root"@
    } else {
        d
    }
}

/// A directory and an extension as one name.
pub open spec fn dir_ext(d: Seq<char>, e: Seq<char>) -> Seq<char> {
    d + ":"@ + e
}

/// The fleet of a directory's files with this extension.
pub open spec fn ext_fleet(paths: Seq<Seq<char>>, d: Seq<char>, e: Seq<char>) -> FleetModel {
    fleet_of(
        "ext:"@ + dir_ext(d, e),
        place_name(d) + "/*."@ + e,
        "extension"@,
        sharing_ext(paths, d, e),
    )
}

/// `f` is a fleet among the paths.
pub open spec fn is_fleet(paths: Seq<Seq<char>>, f: FleetModel) -> bool {
    ||| exists|b: Seq<char>|
        has_base_fleet(paths, b) && f == #[trigger] base_fleet(paths, b)
    ||| exists|d: Seq<char>, e: Seq<char>|
        has_ext_fleet(paths, d, e) && f == #[trigger] ext_fleet(paths, d, e)
}

/// Fleets that keep more members come first, then those with the lesser id.
/// Members that a fleet does not keep do not count here.
pub open spec fn fleet_before(a: FleetModel, b: FleetModel) -> bool {
    ||| a.members.len() > b.members.len()
    ||| a.members.len() == b.members.len() && order::text_less(a.id, b.id)
}

/// Every fleet among the paths, in order.
pub open spec fn lists_fleets(paths: Seq<Seq<char>>, all: Seq<FleetModel>) -> bool {
    &&& forall|i: int, j: int|
        #![trigger all[i], all[j]]
        0 <= i < j < all.len() ==> fleet_before(all[i], all[j])
    &&& forall|f: FleetModel| #[trigger] all.contains(f) <==> is_fleet(paths, f)
}

/// The first of them, as many as are kept.
pub open spec fn foremost(all: Seq<FleetModel>) -> Seq<FleetModel> {
    if all.len() > MAX_FLEETS {
        all.take(MAX_FLEETS as int)
    } else {
        all
    }
}

/// Fleets as values.
pub open spec fn models(fs: Seq<Fleet>) -> Seq<FleetModel> {
    fs.map_values(|f: Fleet| f@)
}

/// The text of each string referred to.
pub open spec fn ref_texts(s: Seq<&String>) -> Seq<Seq<char>> {
    s.map_values(|p: &String| p@)
}

/// The order of fleets never runs in a circle.
pub proof fn fleet_before_irreflexive(a: FleetModel)
    ensures
        !fleet_before(a, a),
{
    order::text_less_irreflexive(a.id);
}

/// There is one list of all fleets only.
pub proof fn fleets_listed_once(paths: Seq<Seq<char>>, a: Seq<FleetModel>, b: Seq<FleetModel>)
    requires
        lists_fleets(paths, a),
        lists_fleets(paths, b),
    ensures
        a == b,
{
    assert forall|f: FleetModel| #[trigger] a.contains(f) <==> b.contains(f) by {
        assert(a.contains(f) <==> is_fleet(paths, f));
        assert(b.contains(f) <==> is_fleet(paths, f));
    }
    let less = |x: FleetModel, y: FleetModel| fleet_before(x, y);
    assert(ranking::strict_order(less)) by {
        assert forall|x: FleetModel| !#[trigger] less(x, x) by {
            fleet_before_irreflexive(x);
        }
        assert forall|x: FleetModel, y: FleetModel, z: FleetModel| #[trigger]
            less(x, y) && #[trigger] less(y, z) implies less(x, z) by {
            lemma_before_transitive(x, y, z);
        }
    }
    assert(ranking::strictly_ordered(a, less));
    assert(ranking::strictly_ordered(b, less));
    ranking::strict_listing_unique(a, b, less);
}

proof fn lemma_before_transitive(a: FleetModel, b: FleetModel, c: FleetModel)
    requires
        fleet_before(a, b),
        fleet_before(b, c),
    ensures
        fleet_before(a, c),
{
    if a.members.len() == b.members.len() && b.members.len() == c.members.len() {
        order::text_less_transitive(a.id, b.id, c.id);
    }
}

// ---- the same, computed ---------------------------------------------

fn is_fleetable(e: &str) -> (r: bool)
    ensures
        r == fleetable(e@),
{
    same_text(e, "yml")
        || same_text(e, "yaml")
        || same_text(e, "json")
        || same_text(e, "jsonc")
        || same_text(e, "toml")
        || same_text(e, "ini")
        || same_text(e, "cfg")
        || same_text(e, "conf")
        || same_text(e, "env")
        || same_text(e, "xml")
        || same_text(e, "properties")
        || same_text(e, "tf")
        || same_text(e, "tfvars")
        || same_text(e, "sql")
        || same_text(e, "http")
        || same_text(e, "plist")
        || same_text(e, "gradle")
        || same_text(e, "props")
}

fn is_source(e: &str) -> (r: bool)
    ensures
        r == source(e@),
{
    same_text(e, "rs")
        || same_text(e, "ts")
        || same_text(e, "tsx")
        || same_text(e, "js")
        || same_text(e, "jsx")
        || same_text(e, "mjs")
        || same_text(e, "cjs")
        || same_text(e, "py")
        || same_text(e, "go")
        || same_text(e, "java")
        || same_text(e, "rb")
        || same_text(e, "cpp")
        || same_text(e, "cc")
        || same_text(e, "c")
        || same_text(e, "h")
        || same_text(e, "hpp")
        || same_text(e, "cs")
        || same_text(e, "swift")
        || same_text(e, "kt")
        || same_text(e, "php")
        || same_text(e, "scala")
        || same_text(e, "ex")
        || same_text(e, "exs")
        || same_text(e, "zig")
        || same_text(e, "lua")
        || same_text(e, "pl")
        || same_text(e, "sh")
        || same_text(e, "bash")
        || same_text(e, "md")
        || same_text(e, "txt")
        || same_text(e, "html")
        || same_text(e, "css")
        || same_text(e, "scss")
}

fn is_named_fleet(base: &str) -> (r: bool)
    ensures
        r == named_fleet(base@),
{
    let b = to_lower(base);
    let b = b.as_str();
    same_text(b, to_lower("Dockerfile").as_str())
        || same_text(b, to_lower("Makefile").as_str())
        || same_text(b, to_lower("Justfile").as_str())
        || same_text(b, to_lower("Jenkinsfile").as_str())
        || same_text(b, to_lower("Procfile").as_str())
        || same_text(b, to_lower("Vagrantfile").as_str())
        || same_text(b, to_lower("CODEOWNERS").as_str())
}

/// What a path says: its basename, directory and extension.
struct Parts {
    base: String,
    dir: String,
    ext: String,
}

fn parts_of(p: &str) -> (r: Parts)
    ensures
        r.base@ == base_of(p@),
        r.dir@ == dir_of(p@),
        r.ext@ == ext_of(base_of(p@)),
{
    let cs = chars_of(p);
    let n: usize = cs.len();
    proof {
        text::last_place_is_last(p@, '/');
    }
    let (base, dir) = match find_last(&cs, '/') {
        Some(i) => {
            assert(cs@.subrange(i + 1, n as int) =~= base_of(p@));
            assert(cs@.subrange(0, i as int) =~= dir_of(p@));
            (part_of(&cs, i + 1, n), part_of(&cs, 0, i))
        },
        None => {
            assert(cs@ =~= base_of(p@));
            (cs, Vec::new())
        },
    };
    let ghost b = base@;
    assert(b == base_of(p@));
    proof {
        text::last_place_is_last(b, '.');
    }
    let m: usize = base.len();
    let ext = match find_last(&base, '.') {
        Some(i) => {
            assert(b.subrange(i + 1, m as int) =~= ext_of(b));
            part_of(&base, i + 1, m)
        },
        None => Vec::new(),
    };
    assert(ext@ =~= ext_of(b));
    assert(dir@ =~= dir_of(p@));
    Parts { base: string_of(&base), dir: string_of(&dir), ext: string_of(&ext) }
}

/// Keep as many members as a fleet may have, and count the others.
pub fn cap(members: Vec<&String>) -> (r: (Vec<String>, usize))
    ensures
        sorted_map::texts(r.0@) == kept(ref_texts(members@)),
        r.1 == members@.len() - r.0@.len(),
{
    let total: usize = members.len();
    let most: usize = if total < MAX_MEMBERS {
        total
    } else {
        MAX_MEMBERS
    };
    let mut kept_members: Vec<String> = Vec::new();
    let mut i: usize = 0;
    while i < most
        invariant
            i <= most <= members@.len(),
            sorted_map::texts(kept_members@) == ref_texts(members@).take(i as int),
            kept_members@.len() == i,
        decreases most - i,
    {
        let ghost before = kept_members@;
        let m = members[i].clone();
        kept_members.push(m);
        assert(sorted_map::texts(kept_members@) =~= sorted_map::texts(before).push(m@));
        assert(ref_texts(members@).take(i + 1) =~= ref_texts(members@).take(i as int).push(m@));
        i = i + 1;
    }
    assert(ref_texts(members@).take(most as int) =~= kept(ref_texts(members@)));
    (kept_members, total - most)
}

proof fn lemma_sorted_texts(group: Seq<&String>)
    ensures
        ref_texts(ranking::ranked(group, ranking::by_rank::<&String>())) == in_order(
            ref_texts(group),
        ),
{
    ranking::ranked_map(
        group,
        ranking::by_rank::<&String>(),
        |p: &String| p@,
        by_text(),
    );
}

/// A fleet of the given files.
fn make_fleet(id: String, name: String, rule: &'static str, group: Vec<&String>) -> (r: Fleet)
    ensures
        r@ == fleet_of(id@, name@, rule@, ref_texts(group@)),
{
    proof {
        lemma_sorted_texts(group@);
        ranking::ranked_keeps_items(ref_texts(group@), by_text());
    }
    let sorted = sort_stable(group);
    let total: usize = sorted.len();
    let (members, truncated) = cap(sorted);
    let mut label = name;
    label.append(" × ");
    label.append(decimal_string(total).as_str());
    Fleet { id, label, rule, members, truncated }
}

// ---- grouping --------------------------------------------------------

/// Every group by name so far, under its basename.
spec fn base_groups(m: Map<Seq<char>, Vec<&String>>, paths: Seq<Seq<char>>) -> bool {
    &&& forall|b: Seq<char>| #[trigger]
        m.contains_key(b) ==> ref_texts(m[b]@) == sharing_base(paths, b)
    &&& forall|b: Seq<char>|
        (#[trigger] sharing_base(paths, b)).len() > 0 ==> m.contains_key(b)
}

/// The files of a directory with one extension.
struct ExtGroup<'a> {
    dir: String,
    ext: String,
    members: Vec<&'a String>,
}

/// Every group by extension so far, under its directory and extension.
spec fn ext_groups(m: Map<Seq<char>, ExtGroup>, paths: Seq<Seq<char>>) -> bool {
    &&& forall|k: Seq<char>| #[trigger]
        m.contains_key(k) ==> {
            &&& k == dir_ext(m[k].dir@, m[k].ext@)
            &&& fleetable(m[k].ext@)
            &&& ref_texts(m[k].members@) == sharing_ext(paths, m[k].dir@, m[k].ext@)
        }
    &&& forall|d: Seq<char>, e: Seq<char>|
        (#[trigger] sharing_ext(paths, d, e)).len() > 0 ==> m.contains_key(dir_ext(d, e))
}

proof fn lemma_sharing_base_push(paths: Seq<Seq<char>>, p: Seq<char>, b: Seq<char>)
    ensures
        sharing_base(paths.push(p), b) == if comparable_by_name(base_of(p)) && base_of(p) == b {
            sharing_base(paths, b).push(p)
        } else {
            sharing_base(paths, b)
        },
{
    reveal(Seq::filter);
    assert(paths.push(p).drop_last() =~= paths);
}

proof fn lemma_sharing_ext_push(
    paths: Seq<Seq<char>>,
    p: Seq<char>,
    d: Seq<char>,
    e: Seq<char>,
)
    ensures
        sharing_ext(paths.push(p), d, e) == if fleetable(ext_of(base_of(p))) && dir_of(p) == d
            && ext_of(base_of(p)) == e {
            sharing_ext(paths, d, e).push(p)
        } else {
            sharing_ext(paths, d, e)
        },
{
    reveal(Seq::filter);
    assert(paths.push(p).drop_last() =~= paths);
}

/// A fleetable extension holds no colon.
proof fn lemma_fleetable_plain(e: Seq<char>)
    requires
        fleetable(e),
    ensures
        forall|i: int| 0 <= i < e.len() ==> #[trigger] e[i] != ':',
{
    reveal_strlit("yml");
    reveal_strlit("yaml");
    reveal_strlit("json");
    reveal_strlit("jsonc");
    reveal_strlit("toml");
    reveal_strlit("ini");
    reveal_strlit("cfg");
    reveal_strlit("conf");
    reveal_strlit("env");
    reveal_strlit("xml");
    reveal_strlit("properties");
    reveal_strlit("tf");
    reveal_strlit("tfvars");
    reveal_strlit("sql");
    reveal_strlit("http");
    reveal_strlit("plist");
    reveal_strlit("gradle");
    reveal_strlit("props");
}

/// A directory and a fleetable extension are told apart in their joint name.
pub proof fn dir_ext_injective(d: Seq<char>, e: Seq<char>, d2: Seq<char>, e2: Seq<char>)
    requires
        fleetable(e),
        fleetable(e2),
        dir_ext(d, e) == dir_ext(d2, e2),
    ensures
        d == d2,
        e == e2,
{
    reveal_strlit(":");
    let s = dir_ext(d, e);
    lemma_fleetable_plain(e);
    lemma_fleetable_plain(e2);
    assert(s[d.len() as int] == ':');
    assert forall|i: int| d.len() < i < s.len() implies #[trigger] s[i] != ':' by {
        assert(s[i] == e[i - d.len() - 1]);
    }
    text::last_place_unique(s, ':', d.len() as int);
    assert(s[d2.len() as int] == ':');
    assert forall|i: int| d2.len() < i < s.len() implies #[trigger] s[i] != ':' by {
        assert(s[i] == e2[i - d2.len() - 1]);
    }
    text::last_place_unique(s, ':', d2.len() as int);
    assert(d =~= s.take(d.len() as int));
    assert(d2 =~= s.take(d.len() as int));
    assert(e =~= s.skip(d.len() as int + 1));
    assert(e2 =~= s.skip(d.len() as int + 1));
}

fn joint_name(d: &str, e: &str) -> (r: String)
    ensures
        r@ == dir_ext(d@, e@),
{
    let mut k = d.to_owned();
    k.append(":");
    k.append(e);
    k
}

/// Note a path under its basename.
fn note_base<'a>(
    m: &mut SortedMap<Vec<&'a String>>,
    p: &'a String,
    parts: &Parts,
    Ghost(before): Ghost<Seq<Seq<char>>>,
)
    requires
        old(m).wf(),
        base_groups(old(m)@, before),
        parts.base@ == base_of(p@),
        parts.ext@ == ext_of(base_of(p@)),
    ensures
        final(m).wf(),
        base_groups(final(m)@, before.push(p@)),
{
    let ghost m0 = m@;
    let ghost after = before.push(p@);
    proof {
        assert forall|b: Seq<char>| #[trigger] sharing_base(after, b) == if comparable_by_name(
            base_of(p@),
        ) && base_of(p@) == b {
            sharing_base(before, b).push(p@)
        } else {
            sharing_base(before, b)
        } by {
            lemma_sharing_base_push(before, p@, b);
        }
    }
    if is_named_fleet(parts.base.as_str()) || (!is_empty_text(parts.ext.as_str()) && !is_source(
        parts.ext.as_str(),
    )) {
        let i = m.place_or_put(parts.base.as_str(), Vec::new());
        let ghost k = parts.base@;
        let group = m.value_mut(i);
        let ghost g0 = group@;
        group.push(p);
        proof {
            assert(ref_texts(g0) == sharing_base(before, k)) by {
                if !m0.contains_key(k) {
                    assert(g0 =~= Seq::<&String>::empty());
                    assert(sharing_base(before, k).len() == 0);
                    assert(ref_texts(g0) =~= sharing_base(before, k));
                }
            }
            assert(ref_texts(g0.push(p)) =~= ref_texts(g0).push(p@));
            assert forall|b: Seq<char>| #[trigger] m@.contains_key(b) implies ref_texts(m@[b]@)
                == sharing_base(after, b) by {
                assert(sharing_base(after, b) == sharing_base(after, b));
            }
            assert forall|b: Seq<char>|
                (#[trigger] sharing_base(after, b)).len() > 0 implies m@.contains_key(b) by {
                assert(sharing_base(before, b).len() >= 0);
            }
        }
    } else {
        proof {
            assert forall|b: Seq<char>|
                (#[trigger] sharing_base(after, b)).len() > 0 implies m@.contains_key(b) by {
                assert(sharing_base(before, b).len() > 0);
            }
            assert forall|b: Seq<char>| #[trigger] m@.contains_key(b) implies ref_texts(m@[b]@)
                == sharing_base(after, b) by {
                assert(sharing_base(after, b) == sharing_base(before, b));
            }
        }
    }
}

/// Note a path under its directory and extension.
fn note_ext<'a>(
    m: &mut SortedMap<ExtGroup<'a>>,
    p: &'a String,
    parts: Parts,
    Ghost(before): Ghost<Seq<Seq<char>>>,
)
    requires
        old(m).wf(),
        ext_groups(old(m)@, before),
        parts.dir@ == dir_of(p@),
        parts.ext@ == ext_of(base_of(p@)),
    ensures
        final(m).wf(),
        ext_groups(final(m)@, before.push(p@)),
{
    let ghost m0 = m@;
    let ghost after = before.push(p@);
    let ghost d0 = dir_of(p@);
    let ghost e0 = ext_of(base_of(p@));
    proof {
        assert forall|d: Seq<char>, e: Seq<char>| #[trigger] sharing_ext(after, d, e)
            == if fleetable(e0) && d0 == d && e0 == e {
            sharing_ext(before, d, e).push(p@)
        } else {
            sharing_ext(before, d, e)
        } by {
            lemma_sharing_ext_push(before, p@, d, e);
        }
    }
    if is_fleetable(parts.ext.as_str()) {
        let name = joint_name(parts.dir.as_str(), parts.ext.as_str());
        let ghost k = name@;
        let i = m.place_or_put(
            name.as_str(),
            ExtGroup { dir: parts.dir, ext: parts.ext, members: Vec::new() },
        );
        let ghost m1 = m@;
        proof {
            if m0.contains_key(k) {
                dir_ext_injective(m0[k].dir@, m0[k].ext@, d0, e0);
            } else {
                assert(sharing_ext(before, d0, e0).len() == 0);
                assert(ref_texts(m1[k].members@) =~= sharing_ext(before, d0, e0));
            }
            assert(m1[k].dir@ == d0 && m1[k].ext@ == e0);
            assert(ref_texts(m1[k].members@) == sharing_ext(before, d0, e0));
        }
        let group = m.value_mut(i);
        let ghost g0 = group.members@;
        group.members.push(p);
        proof {
            assert(ref_texts(g0.push(p)) =~= ref_texts(g0).push(p@));
            assert forall|q: Seq<char>| #[trigger] m@.contains_key(q) implies {
                &&& q == dir_ext(m@[q].dir@, m@[q].ext@)
                &&& fleetable(m@[q].ext@)
                &&& ref_texts(m@[q].members@) == sharing_ext(after, m@[q].dir@, m@[q].ext@)
            } by {
                if q != k {
                    assert(m0.contains_key(q) && m@[q] == m0[q]);
                    assert(sharing_ext(after, m0[q].dir@, m0[q].ext@) == sharing_ext(
                        before,
                        m0[q].dir@,
                        m0[q].ext@,
                    ));
                } else {
                    assert(sharing_ext(after, d0, e0) == sharing_ext(before, d0, e0).push(p@));
                }
            }
            assert forall|d: Seq<char>, e: Seq<char>|
                (#[trigger] sharing_ext(after, d, e)).len() > 0 implies m@.contains_key(
                dir_ext(d, e),
            ) by {
                if !(d0 == d && e0 == e) {
                    assert(sharing_ext(before, d, e).len() > 0);
                }
            }
        }
    } else {
        proof {
            assert forall|q: Seq<char>| #[trigger] m@.contains_key(q) implies ref_texts(
                m@[q].members@,
            ) == sharing_ext(after, m@[q].dir@, m@[q].ext@) by {
                assert(sharing_ext(after, m@[q].dir@, m@[q].ext@) == sharing_ext(
                    before,
                    m@[q].dir@,
                    m@[q].ext@,
                ));
            }
            assert forall|d: Seq<char>, e: Seq<char>|
                (#[trigger] sharing_ext(after, d, e)).len() > 0 implies m@.contains_key(
                dir_ext(d, e),
            ) by {
                assert(sharing_ext(before, d, e).len() > 0);
            }
        }
    }
}

// ---- detection -------------------------------------------------------

impl Ranked for Fleet {
    open spec fn leq(self, other: Fleet) -> bool {
        ||| self.members@.len() > other.members@.len()
        ||| self.members@.len() == other.members@.len() && order::text_leq(self.id@, other.id@)
    }

    proof fn leq_total_preorder() {
        assert forall|x: Fleet, y: Fleet| #[trigger] x.leq(y) || y.leq(x) by {
            order::text_less_total(x.id@, y.id@);
        }
        assert forall|x: Fleet, y: Fleet, z: Fleet| #[trigger] x.leq(y) && #[trigger] y.leq(
            z,
        ) implies x.leq(z) by {
            if order::text_less(x.id@, y.id@) && order::text_less(y.id@, z.id@) {
                order::text_less_transitive(x.id@, y.id@, z.id@);
            }
        }
    }

    fn at_most(&self, other: &Fleet) -> (r: bool) {
        self.members.len() > other.members.len() || (self.members.len() == other.members.len() && (
        same_text(self.id.as_str(), other.id.as_str()) || order::comes_before(
            self.id.as_str(),
            other.id.as_str(),
        )))
    }
}

fn copy_refs<'a>(v: &Vec<&'a String>) -> (r: Vec<&'a String>)
    ensures
        r@ == v@,
{
    let mut r: Vec<&'a String> = Vec::new();
    let mut i: usize = 0;
    while i < v.len()
        invariant
            i <= v@.len(),
            r@ == v@.take(i as int),
        decreases v@.len() - i,
    {
        r.push(v[i]);
        assert(v@.take(i + 1) =~= v@.take(i as int).push(v@[i as int]));
        i = i + 1;
    }
    assert(v@.take(i as int) =~= v@);
    r
}

/// Whether some of the strings is `p`.
fn lists_path(group: &Vec<&String>, p: &str) -> (r: bool)
    ensures
        r == ref_texts(group@).contains(p@),
{
    let mut i: usize = 0;
    while i < group.len()
        invariant
            i <= group@.len(),
            forall|k: int| 0 <= k < i ==> #[trigger] ref_texts(group@)[k] != p@,
        decreases group@.len() - i,
    {
        if same_text(group[i].as_str(), p) {
            assert(ref_texts(group@)[i as int] == p@);
            return true;
        }
        i = i + 1;
    }
    false
}

/// Whether the fleet's members are this set of files.
fn fleet_covers(f: &Fleet, group: &Vec<&String>) -> (r: bool)
    ensures
        r == covers(f@.members, ref_texts(group@)),
{
    if f.members.len() != group.len() {
        return false;
    }
    let mut i: usize = 0;
    while i < f.members.len()
        invariant
            i <= f.members@.len(),
            f.members@.len() == group@.len(),
            forall|k: int|
                0 <= k < i ==> ref_texts(group@).contains(#[trigger] f@.members[k]),
        decreases f.members@.len() - i,
    {
        assert(f@.members[i as int] == f.members@[i as int]@);
        if !lists_path(group, f.members[i].as_str()) {
            return false;
        }
        i = i + 1;
    }
    true
}

/// Whether one of the first `n` fleets covers the group.
fn any_covers(fleets: &Vec<Fleet>, n: usize, group: &Vec<&String>) -> (r: bool)
    requires
        n <= fleets@.len(),
    ensures
        r == exists|j: int|
            0 <= j < n && covers(#[trigger] models(fleets@)[j].members, ref_texts(group@)),
{
    let mut i: usize = 0;
    while i < n
        invariant
            i <= n <= fleets@.len(),
            forall|j: int|
                0 <= j < i ==> !covers(
                    #[trigger] models(fleets@)[j].members,
                    ref_texts(group@),
                ),
        decreases n - i,
    {
        assert(models(fleets@)[i as int] == fleets@[i as int]@);
        if fleet_covers(&fleets[i], group) {
            return true;
        }
        i = i + 1;
    }
    false
}

/// The fleets by name of the given basenames.
spec fn base_fleets(paths: Seq<Seq<char>>, bases: Seq<Seq<char>>) -> Seq<FleetModel> {
    bases.map_values(|b: Seq<char>| base_fleet(paths, b))
}

/// The fleets by extension of the given directories and extensions.
spec fn ext_fleets(
    paths: Seq<Seq<char>>,
    exts: Seq<(Seq<char>, Seq<char>)>,
) -> Seq<FleetModel> {
    exts.map_values(|de: (Seq<char>, Seq<char>)| ext_fleet(paths, de.0, de.1))
}

fn fleets_by_name(
    m: &SortedMap<Vec<&String>>,
    Ghost(paths): Ghost<Seq<Seq<char>>>,
) -> (r: (Vec<Fleet>, Ghost<Seq<Seq<char>>>))
    requires
        m.wf(),
        base_groups(m@, paths),
    ensures
        models(r.0@) == base_fleets(paths, r.1@),
        r.1@.no_duplicates(),
        forall|b: Seq<char>| #[trigger] r.1@.contains(b) <==> has_base_fleet(paths, b),
{
    let mut fleets: Vec<Fleet> = Vec::new();
    let ghost mut bases: Seq<Seq<char>> = Seq::empty();
    let ghost keys = m.key_seq();
    let n: usize = m.len();
    let mut i: usize = 0;
    proof {
        m.wf_keys();
        assert(models(fleets@) =~= base_fleets(paths, bases));
    }
    while i < n
        invariant
            m.wf(),
            base_groups(m@, paths),
            keys == m.key_seq(),
            keys.no_duplicates(),
            n == keys.len(),
            i <= n,
            models(fleets@) == base_fleets(paths, bases),
            bases.no_duplicates(),
            forall|b: Seq<char>| #[trigger]
                bases.contains(b) <==> has_base_fleet(paths, b) && keys.take(i as int).contains(b),
        decreases n - i,
    {
        let ghost k = keys[i as int];
        proof {
            assert(!keys.take(i as int).contains(k));
            assert forall|b: Seq<char>| #[trigger] keys.take(i + 1).contains(b) <==> keys.take(
                i as int,
            ).contains(b) || b == k by {
                assert(keys.take(i + 1) =~= keys.take(i as int).push(k));
                if keys.take(i as int).contains(b) {
                    let j = choose|j: int| 0 <= j < i && keys.take(i as int)[j] == b;
                    assert(keys.take(i + 1)[j] == b);
                }
                assert(keys.take(i + 1)[i as int] == k);
            }
        }
        let group = m.value_at(i);
        if group.len() >= MIN_BASENAME_MEMBERS {
            let base = m.key_at(i);
            let mut id = "basename:".to_owned();
            id.append(base.as_str());
            let f = make_fleet(id, base.clone(), "basename", copy_refs(group));
            let ghost fs0 = fleets@;
            let ghost bases0 = bases;
            proof {
                assert(f@ == base_fleet(paths, k));
                bases = bases.push(k);
                assert(!bases0.contains(k));
            }
            fleets.push(f);
            proof {
                assert(models(fleets@) =~= models(fs0).push(f@));
                assert(base_fleets(paths, bases) =~= base_fleets(paths, bases0).push(
                    base_fleet(paths, k),
                ));
                assert forall|b: Seq<char>| #[trigger] bases.contains(b) <==> has_base_fleet(
                    paths,
                    b,
                ) && keys.take(i + 1).contains(b) by {
                    if bases0.contains(b) {
                        let j = choose|j: int| 0 <= j < bases0.len() && bases0[j] == b;
                        assert(bases[j] == b);
                    }
                    assert(bases[bases0.len() as int] == k);
                }
            }
        }
        i = i + 1;
    }
    proof {
        assert(keys.take(n as int) =~= keys);
        assert forall|b: Seq<char>| #[trigger] bases.contains(b) <==> has_base_fleet(paths, b) by {
            if has_base_fleet(paths, b) {
                assert(sharing_base(paths, b).len() > 0);
                assert(m@.contains_key(b));
            }
        }
    }
    (fleets, Ghost(bases))
}

proof fn lemma_covered(
    fleets: Seq<Fleet>,
    paths: Seq<Seq<char>>,
    bases: Seq<Seq<char>>,
    n: nat,
    group: Seq<Seq<char>>,
)
    requires
        n == bases.len(),
        n <= fleets.len(),
        models(fleets).take(n as int) == base_fleets(paths, bases),
        forall|b: Seq<char>| #[trigger] bases.contains(b) <==> has_base_fleet(paths, b),
    ensures
        (exists|j: int| 0 <= j < n && covers(#[trigger] models(fleets)[j].members, group))
            <==> covered_by_name(paths, group),
{
    let ms = models(fleets);
    assert forall|j: int| 0 <= j < n implies #[trigger] ms[j] == base_fleet(paths, bases[j]) by {
        assert(ms.take(n as int)[j] == ms[j]);
        assert(base_fleets(paths, bases)[j] == base_fleet(paths, bases[j]));
    }
    if exists|j: int| 0 <= j < n && covers(#[trigger] ms[j].members, group) {
        let j = choose|j: int| 0 <= j < n && covers(#[trigger] ms[j].members, group);
        assert(bases.contains(bases[j]));
        assert(has_base_fleet(paths, bases[j]) && covers(
            base_fleet(paths, bases[j]).members,
            group,
        ));
    }
    if covered_by_name(paths, group) {
        let b = choose|b: Seq<char>|
            has_base_fleet(paths, b) && covers(#[trigger] base_fleet(paths, b).members, group);
        assert(bases.contains(b));
        let j = choose|j: int| 0 <= j < bases.len() && bases[j] == b;
        assert(covers(ms[j].members, group));
    }
}

/// Add the fleets by extension to those by name.
fn fleets_by_ext(
    fleets: &mut Vec<Fleet>,
    m: &SortedMap<ExtGroup>,
    Ghost(paths): Ghost<Seq<Seq<char>>>,
    Ghost(bases): Ghost<Seq<Seq<char>>>,
) -> (exts: Ghost<Seq<(Seq<char>, Seq<char>)>>)
    requires
        m.wf(),
        ext_groups(m@, paths),
        models(old(fleets)@) == base_fleets(paths, bases),
        forall|b: Seq<char>| #[trigger] bases.contains(b) <==> has_base_fleet(paths, b),
    ensures
        models(final(fleets)@) == base_fleets(paths, bases) + ext_fleets(paths, exts@),
        exts@.no_duplicates(),
        forall|d: Seq<char>, e: Seq<char>| #[trigger]
            exts@.contains((d, e)) <==> has_ext_fleet(paths, d, e),
{
    let named: usize = fleets.len();
    let ghost mut exts: Seq<(Seq<char>, Seq<char>)> = Seq::empty();
    let ghost keys = m.key_seq();
    let n: usize = m.len();
    let mut i: usize = 0;
    proof {
        m.wf_keys();
        assert(models(fleets@) =~= base_fleets(paths, bases) + ext_fleets(paths, exts));
        assert(models(fleets@).len() == fleets@.len());
    }
    while i < n
        invariant
            m.wf(),
            ext_groups(m@, paths),
            keys == m.key_seq(),
            keys.no_duplicates(),
            n == keys.len(),
            i <= n,
            named == bases.len(),
            named <= fleets@.len(),
            forall|b: Seq<char>| #[trigger] bases.contains(b) <==> has_base_fleet(paths, b),
            models(fleets@) == base_fleets(paths, bases) + ext_fleets(paths, exts),
            exts.no_duplicates(),
            forall|d: Seq<char>, e: Seq<char>| #[trigger]
                exts.contains((d, e)) <==> has_ext_fleet(paths, d, e) && keys.take(
                    i as int,
                ).contains(dir_ext(d, e)),
        decreases n - i,
    {
        let ghost k = keys[i as int];
        let group = m.value_at(i);
        let ghost d0 = group.dir@;
        let ghost e0 = group.ext@;
        proof {
            assert(m@.contains_key(k));
            assert(k == dir_ext(d0, e0));
            assert(!keys.take(i as int).contains(k));
            assert(keys.take(i + 1) =~= keys.take(i as int).push(k));
            assert forall|q: Seq<char>| #[trigger] keys.take(i + 1).contains(q) <==> keys.take(
                i as int,
            ).contains(q) || q == k by {
                if keys.take(i as int).contains(q) {
                    let j = choose|j: int| 0 <= j < i && keys.take(i as int)[j] == q;
                    assert(keys.take(i + 1)[j] == q);
                }
                assert(keys.take(i + 1)[i as int] == k);
            }
            assert(models(fleets@).take(named as int) =~= base_fleets(paths, bases));
            lemma_covered(fleets@, paths, bases, named as nat, ref_texts(group.members@));
        }
        let ghost exts0 = exts;
        if group.members.len() >= MIN_EXT_MEMBERS && !any_covers(fleets, named, &group.members) {
            let name = joint_name(group.dir.as_str(), group.ext.as_str());
            let mut id = "ext:".to_owned();
            id.append(name.as_str());
            let mut label = if is_empty_text(group.dir.as_str()) {
                "repository root".to_owned()
            } else {
                group.dir.clone()
            };
            label.append("/*.");
            label.append(group.ext.as_str());
            let f = make_fleet(id, label, "extension", copy_refs(&group.members));
            let ghost fs0 = fleets@;
            proof {
                assert(f@ == ext_fleet(paths, d0, e0));
                assert(has_ext_fleet(paths, d0, e0));
                assert(!exts0.contains((d0, e0)));
                exts = exts.push((d0, e0));
            }
            fleets.push(f);
            proof {
                assert(models(fleets@) =~= models(fs0).push(f@));
                assert(ext_fleets(paths, exts) =~= ext_fleets(paths, exts0).push(
                    ext_fleet(paths, d0, e0),
                ));
                assert(models(fleets@) =~= base_fleets(paths, bases) + ext_fleets(paths, exts));
            }
        }
        proof {
            assert forall|d: Seq<char>, e: Seq<char>| #[trigger] exts.contains((d, e)) <==> (
            has_ext_fleet(paths, d, e) && keys.take(i + 1).contains(dir_ext(d, e))) by {
                assert(exts0.contains((d, e)) <==> has_ext_fleet(paths, d, e) && keys.take(
                    i as int,
                ).contains(dir_ext(d, e)));
                if exts.len() > exts0.len() {
                    assert(exts[exts0.len() as int] == (d0, e0));
                    if exts0.contains((d, e)) {
                        let j = choose|j: int| 0 <= j < exts0.len() && exts0[j] == (d, e);
                        assert(exts[j] == (d, e));
                    }
                }
                if has_ext_fleet(paths, d, e) && dir_ext(d, e) == k {
                    dir_ext_injective(d, e, d0, e0);
                }
            }
        }
        i = i + 1;
    }
    proof {
        assert(keys.take(n as int) =~= keys);
        assert forall|d: Seq<char>, e: Seq<char>| #[trigger] exts.contains((d, e))
            <==> has_ext_fleet(paths, d, e) by {
            if has_ext_fleet(paths, d, e) {
                assert(sharing_ext(paths, d, e).len() > 0);
                assert(m@.contains_key(dir_ext(d, e)));
            }
        }
    }
    Ghost(exts)
}

/// All fleets have ids of their own.
proof fn lemma_ids_distinct(
    paths: Seq<Seq<char>>,
    bases: Seq<Seq<char>>,
    exts: Seq<(Seq<char>, Seq<char>)>,
    ms: Seq<FleetModel>,
)
    requires
        ms == base_fleets(paths, bases) + ext_fleets(paths, exts),
        bases.no_duplicates(),
        exts.no_duplicates(),
        forall|d: Seq<char>, e: Seq<char>| #[trigger]
            exts.contains((d, e)) ==> has_ext_fleet(paths, d, e),
    ensures
        ms.map_values(|f: FleetModel| f.id).no_duplicates(),
{
    reveal_strlit("basename:");
    reveal_strlit("ext:");
    let n = bases.len() as int;
    let ids = ms.map_values(|f: FleetModel| f.id);
    assert forall|i: int, j: int|
        0 <= i < ids.len() && 0 <= j < ids.len() && i < j implies ids[i] != ids[j] by {
        if j < n {
            let a = bases[i];
            let b = bases[j];
            assert(ids[i] == "basename:"@ + a);
            assert(ids[j] == "basename:"@ + b);
            if ids[i] == ids[j] {
                assert(a =~= ids[i].skip("basename:"@.len() as int));
                assert(b =~= ids[j].skip("basename:"@.len() as int));
            }
        } else if i < n {
            assert(ids[i][0] == 'b');
            assert(ids[j][0] == 'e');
        } else {
            let a = exts[i - n];
            let b = exts[j - n];
            assert(exts.contains((a.0, a.1)));
            assert(exts.contains((b.0, b.1)));
            assert(ids[i] == "ext:"@ + dir_ext(a.0, a.1));
            assert(ids[j] == "ext:"@ + dir_ext(b.0, b.1));
            if ids[i] == ids[j] {
                assert(dir_ext(a.0, a.1) =~= ids[i].skip("ext:"@.len() as int));
                assert(dir_ext(b.0, b.1) =~= ids[j].skip("ext:"@.len() as int));
                dir_ext_injective(a.0, a.1, b.0, b.1);
            }
        }
    }
}

proof fn lemma_members(
    paths: Seq<Seq<char>>,
    bases: Seq<Seq<char>>,
    exts: Seq<(Seq<char>, Seq<char>)>,
    ms: Seq<FleetModel>,
    f: FleetModel,
)
    requires
        ms == base_fleets(paths, bases) + ext_fleets(paths, exts),
        forall|b: Seq<char>| #[trigger] bases.contains(b) <==> has_base_fleet(paths, b),
        forall|d: Seq<char>, e: Seq<char>| #[trigger]
            exts.contains((d, e)) <==> has_ext_fleet(paths, d, e),
    ensures
        ms.contains(f) <==> is_fleet(paths, f),
{
    let n = bases.len() as int;
    if ms.contains(f) {
        let i = choose|i: int| 0 <= i < ms.len() && ms[i] == f;
        if i < n {
            assert(bases.contains(bases[i]));
            assert(f == base_fleet(paths, bases[i]));
        } else {
            let de = exts[i - n];
            assert(exts.contains((de.0, de.1)));
            assert(f == ext_fleet(paths, de.0, de.1));
        }
    }
    if is_fleet(paths, f) {
        if exists|b: Seq<char>| has_base_fleet(paths, b) && f == #[trigger] base_fleet(paths, b) {
            let b = choose|b: Seq<char>|
                has_base_fleet(paths, b) && f == #[trigger] base_fleet(paths, b);
            assert(bases.contains(b));
            let i = choose|i: int| 0 <= i < bases.len() && bases[i] == b;
            assert(ms[i] == f);
        } else {
            let (d, e) = choose|d: Seq<char>, e: Seq<char>|
                has_ext_fleet(paths, d, e) && f == #[trigger] ext_fleet(paths, d, e);
            assert(exts.contains((d, e)));
            let i = choose|i: int| 0 <= i < exts.len() && exts[i] == (d, e);
            assert(ms[n + i] == f);
        }
    }
}

/// Sorting the fleets lists them.
proof fn lemma_sorted_lists(
    paths: Seq<Seq<char>>,
    bases: Seq<Seq<char>>,
    exts: Seq<(Seq<char>, Seq<char>)>,
    fleets: Seq<Fleet>,
)
    requires
        models(fleets) == base_fleets(paths, bases) + ext_fleets(paths, exts),
        bases.no_duplicates(),
        exts.no_duplicates(),
        forall|b: Seq<char>| #[trigger] bases.contains(b) <==> has_base_fleet(paths, b),
        forall|d: Seq<char>, e: Seq<char>| #[trigger]
            exts.contains((d, e)) <==> has_ext_fleet(paths, d, e),
    ensures
        lists_fleets(paths, models(ranking::ranked(fleets, ranking::by_rank::<Fleet>()))),
{
    let leq = ranking::by_rank::<Fleet>();
    let sorted = ranking::ranked(fleets, leq);
    let all = models(sorted);
    let id = |f: Fleet| f.id@;
    lemma_ids_distinct(paths, bases, exts, models(fleets));
    assert(fleets.map_values(id) =~= models(fleets).map_values(|f: FleetModel| f.id));
    ranking::ranked_keeps_distinct(fleets, leq, id);
    ranking::by_rank_is_total_preorder::<Fleet>();
    ranking::ranked_is_ordered(fleets, leq);
    assert forall|i: int, j: int| 0 <= i < j < all.len() implies fleet_before(
        #[trigger] all[i],
        #[trigger] all[j],
    ) by {
        assert(leq(sorted[i], sorted[j]));
        assert(sorted.map_values(id)[i] != sorted.map_values(id)[j]);
    }
    assert forall|f: FleetModel| #[trigger] all.contains(f) <==> is_fleet(paths, f) by {
        lemma_members(paths, bases, exts, models(fleets), f);
        if all.contains(f) {
            let i = choose|i: int| 0 <= i < all.len() && all[i] == f;
            ranking::ranked_same_members(fleets, leq, sorted[i]);
            assert(sorted.contains(sorted[i]));
            let j = choose|j: int| 0 <= j < fleets.len() && fleets[j] == sorted[i];
            assert(models(fleets)[j] == f);
        }
        if models(fleets).contains(f) {
            let j = choose|j: int| 0 <= j < models(fleets).len() && models(fleets)[j] == f;
            ranking::ranked_same_members(fleets, leq, fleets[j]);
            assert(fleets.contains(fleets[j]));
            let i = choose|i: int| 0 <= i < sorted.len() && sorted[i] == fleets[j];
            assert(all[i] == f);
        }
    }
}

/// Group repository-relative paths into peer sets: those that keep the most
/// members first, and no more sets than are kept.
pub fn detect(paths: &[String]) -> (r: Vec<Fleet>)
    ensures
        exists|all: Seq<FleetModel>| #[trigger]
            lists_fleets(sorted_map::texts(paths@), all) && models(r@) == foremost(all),
{
    let ghost given = sorted_map::texts(paths@);
    let mut by_basename: SortedMap<Vec<&String>> = SortedMap::new();
    let mut by_dir_ext: SortedMap<ExtGroup> = SortedMap::new();
    let mut i: usize = 0;
    proof {
        reveal(Seq::filter);
        assert(given.take(0) =~= Seq::empty());
    }
    while i < paths.len()
        invariant
            i <= paths@.len(),
            given == sorted_map::texts(paths@),
            by_basename.wf(),
            by_dir_ext.wf(),
            base_groups(by_basename@, given.take(i as int)),
            ext_groups(by_dir_ext@, given.take(i as int)),
        decreases paths@.len() - i,
    {
        let p = &paths[i];
        let parts = parts_of(p.as_str());
        note_base(&mut by_basename, p, &parts, Ghost(given.take(i as int)));
        note_ext(&mut by_dir_ext, p, parts, Ghost(given.take(i as int)));
        assert(given.take(i + 1) =~= given.take(i as int).push(p@));
        i = i + 1;
    }
    assert(given.take(i as int) =~= given);
    let (mut fleets, Ghost(bases)) = fleets_by_name(&by_basename, Ghost(given));
    let Ghost(exts) = fleets_by_ext(&mut fleets, &by_dir_ext, Ghost(given), Ghost(bases));
    proof {
        lemma_sorted_lists(given, bases, exts, fleets@);
    }
    let mut sorted = sort_stable(fleets);
    let ghost all = models(sorted@);
    if sorted.len() > MAX_FLEETS {
        sorted.truncate(MAX_FLEETS);
    }
    assert(models(sorted@) =~= foremost(all));
    sorted
}

// ---- what holds of fleets -------------------------------------------

/// Files of a fleet are some of the files that were given.
pub proof fn members_are_given(paths: Seq<Seq<char>>, f: FleetModel, p: Seq<char>)
    requires
        is_fleet(paths, f),
        f.members.contains(p),
    ensures
        paths.contains(p),
{
    let group = fleet_group(paths, f);
    lemma_members_in_group(group, p);
    lemma_group_in_paths(paths, f, p);
}

/// The files that a fleet was made of.
pub open spec fn fleet_group(paths: Seq<Seq<char>>, f: FleetModel) -> Seq<Seq<char>> {
    if exists|b: Seq<char>| has_base_fleet(paths, b) && f == #[trigger] base_fleet(paths, b) {
        let b = choose|b: Seq<char>|
            has_base_fleet(paths, b) && f == #[trigger] base_fleet(paths, b);
        sharing_base(paths, b)
    } else {
        let (d, e) = choose|d: Seq<char>, e: Seq<char>|
            has_ext_fleet(paths, d, e) && f == #[trigger] ext_fleet(paths, d, e);
        sharing_ext(paths, d, e)
    }
}

proof fn lemma_members_in_group(group: Seq<Seq<char>>, p: Seq<char>)
    requires
        kept(in_order(group)).contains(p),
    ensures
        group.contains(p),
{
    let i = choose|i: int| 0 <= i < kept(in_order(group)).len() && kept(in_order(group))[i] == p;
    assert(in_order(group)[i] == p);
    assert(in_order(group).contains(p));
    ranking::ranked_same_members(group, by_text(), p);
}

proof fn lemma_filtered(paths: Seq<Seq<char>>, keep: spec_fn(Seq<char>) -> bool, p: Seq<char>)
    requires
        paths.filter(keep).contains(p),
    ensures
        paths.contains(p),
        keep(p),
{
    broadcast use vstd::seq_lib::group_filter_ensures;

    let i = choose|i: int| 0 <= i < paths.filter(keep).len() && paths.filter(keep)[i] == p;
    assert(keep(paths.filter(keep)[i]));
    paths.lemma_filter_contains_rev(keep, p);
}

proof fn lemma_group_in_paths(paths: Seq<Seq<char>>, f: FleetModel, p: Seq<char>)
    requires
        is_fleet(paths, f),
        fleet_group(paths, f).contains(p),
    ensures
        paths.contains(p),
        comparable_by_name(base_of(p)) || fleetable(ext_of(base_of(p))),
{
    if exists|b: Seq<char>| has_base_fleet(paths, b) && f == #[trigger] base_fleet(paths, b) {
        let b = choose|b: Seq<char>|
            has_base_fleet(paths, b) && f == #[trigger] base_fleet(paths, b);
        lemma_filtered(
            paths,
            |q: Seq<char>| comparable_by_name(base_of(q)) && base_of(q) == b,
            p,
        );
    } else {
        let (d, e) = choose|d: Seq<char>, e: Seq<char>|
            has_ext_fleet(paths, d, e) && f == #[trigger] ext_fleet(paths, d, e);
        lemma_filtered(
            paths,
            |q: Seq<char>| fleetable(ext_of(base_of(q))) && dir_of(q) == d && ext_of(base_of(q))
                == e,
            p,
        );
    }
}

/// No member is left out in silence: those that a fleet keeps and those that it
/// counts as dropped are all the files that match.
pub proof fn members_are_accounted_for(paths: Seq<Seq<char>>, f: FleetModel)
    requires
        is_fleet(paths, f),
    ensures
        f.members.len() + f.truncated == fleet_group(paths, f).len(),
        f.members.len() <= MAX_MEMBERS,
        f.truncated > 0 ==> f.members.len() == MAX_MEMBERS,
{
    ranking::ranked_keeps_items(fleet_group(paths, f), by_text());
}

/// An extension of source code is never one that makes fleets.
proof fn lemma_fleetable_is_no_source(e: Seq<char>)
    requires
        fleetable(e),
    ensures
        !source(e),
{
    reveal_strlit("yml");
    reveal_strlit("yaml");
    reveal_strlit("json");
    reveal_strlit("jsonc");
    reveal_strlit("toml");
    reveal_strlit("ini");
    reveal_strlit("cfg");
    reveal_strlit("conf");
    reveal_strlit("env");
    reveal_strlit("xml");
    reveal_strlit("properties");
    reveal_strlit("tf");
    reveal_strlit("tfvars");
    reveal_strlit("sql");
    reveal_strlit("http");
    reveal_strlit("plist");
    reveal_strlit("gradle");
    reveal_strlit("props");
    reveal_strlit("rs");
    reveal_strlit("ts");
    reveal_strlit("tsx");
    reveal_strlit("js");
    reveal_strlit("jsx");
    reveal_strlit("mjs");
    reveal_strlit("cjs");
    reveal_strlit("py");
    reveal_strlit("go");
    reveal_strlit("java");
    reveal_strlit("rb");
    reveal_strlit("cpp");
    reveal_strlit("cc");
    reveal_strlit("c");
    reveal_strlit("h");
    reveal_strlit("hpp");
    reveal_strlit("cs");
    reveal_strlit("swift");
    reveal_strlit("kt");
    reveal_strlit("php");
    reveal_strlit("scala");
    reveal_strlit("ex");
    reveal_strlit("exs");
    reveal_strlit("zig");
    reveal_strlit("lua");
    reveal_strlit("pl");
    reveal_strlit("sh");
    reveal_strlit("bash");
    reveal_strlit("md");
    reveal_strlit("txt");
    reveal_strlit("html");
    reveal_strlit("css");
    reveal_strlit("scss");
    if source(e) {
        let a = e[0];
        let b = e[1];
        let z = e[e.len() - 1];
        assert(a == a && b == b && z == z);
    }
}

/// Source files are never peers, whatever they are called, but for the names
/// that stand for a fleet themselves.
pub proof fn source_files_are_never_peers(paths: Seq<Seq<char>>, f: FleetModel, p: Seq<char>)
    requires
        is_fleet(paths, f),
        f.members.contains(p),
        source(ext_of(base_of(p))),
    ensures
        named_fleet(base_of(p)),
{
    let group = fleet_group(paths, f);
    lemma_members_in_group(group, p);
    lemma_group_in_paths(paths, f, p);
    if fleetable(ext_of(base_of(p))) {
        lemma_fleetable_is_no_source(ext_of(base_of(p)));
    }
}

/// Groups by extension have no file in common, so none of them covers another.
pub proof fn ext_groups_are_disjoint(
    paths: Seq<Seq<char>>,
    d: Seq<char>,
    e: Seq<char>,
    d2: Seq<char>,
    e2: Seq<char>,
    p: Seq<char>,
)
    requires
        sharing_ext(paths, d, e).contains(p),
        sharing_ext(paths, d2, e2).contains(p),
    ensures
        d == d2,
        e == e2,
{
    lemma_filtered(
        paths,
        |q: Seq<char>| fleetable(ext_of(base_of(q))) && dir_of(q) == d && ext_of(base_of(q)) == e,
        p,
    );
    lemma_filtered(
        paths,
        |q: Seq<char>| fleetable(ext_of(base_of(q))) && dir_of(q) == d2 && ext_of(base_of(q)) == e2,
        p,
    );
}

/// The order of text compares all text and tells all text apart.
proof fn lemma_by_text_total()
    ensures
        vstd::relations::total_ordering(by_text()),
{
    let leq = by_text();
    assert(vstd::relations::antisymmetric(leq)) by {
        assert forall|x: Seq<char>, y: Seq<char>| #[trigger] leq(x, y) && #[trigger] leq(
            y,
            x,
        ) implies x == y by {
            if x != y {
                order::text_less_transitive(x, y, x);
                order::text_less_irreflexive(x);
            }
        }
    }
    assert(vstd::relations::transitive(leq)) by {
        assert forall|x: Seq<char>, y: Seq<char>, z: Seq<char>| #[trigger]
            leq(x, y) && #[trigger] leq(y, z) implies leq(x, z) by {
            if x != y && y != z {
                order::text_less_transitive(x, y, z);
            }
        }
    }
    assert(vstd::relations::strongly_connected(leq)) by {
        assert forall|x: Seq<char>, y: Seq<char>| #[trigger] leq(x, y) || #[trigger] leq(y, x) by {
            order::text_less_total(x, y);
        }
    }
}

proof fn lemma_filter_count(s: Seq<Seq<char>>, keep: spec_fn(Seq<char>) -> bool, x: Seq<char>)
    ensures
        s.filter(keep).to_multiset().count(x) == if keep(x) {
            s.to_multiset().count(x)
        } else {
            0
        },
    decreases s.len(),
{
    broadcast use vstd::seq_lib::group_to_multiset_ensures;

    reveal(Seq::filter);
    if s.len() > 0 {
        let f = s.drop_last();
        lemma_filter_count(f, keep, x);
        assert(s =~= f.push(s.last()));
        assert(s.to_multiset() == f.to_multiset().insert(s.last()));
        if keep(s.last()) {
            assert(s.filter(keep) == f.filter(keep).push(s.last()));
        }
    }
}

proof fn lemma_same_group(
    a: Seq<Seq<char>>,
    b: Seq<Seq<char>>,
    keep: spec_fn(Seq<char>) -> bool,
)
    requires
        a.to_multiset() == b.to_multiset(),
    ensures
        a.filter(keep).to_multiset() == b.filter(keep).to_multiset(),
        a.filter(keep).len() == b.filter(keep).len(),
        in_order(a.filter(keep)) == in_order(b.filter(keep)),
{
    broadcast use vstd::seq_lib::group_to_multiset_ensures;

    let x = a.filter(keep);
    let y = b.filter(keep);
    assert(x.to_multiset() =~= y.to_multiset()) by {
        assert forall|p: Seq<char>| #[trigger] x.to_multiset().count(p) == y.to_multiset().count(
            p,
        ) by {
            lemma_filter_count(a, keep, p);
            lemma_filter_count(b, keep, p);
        }
    }
    assert(x.to_multiset().len() == y.to_multiset().len());
    lemma_by_text_total();
    assert(ranking::total_preorder(by_text()));
    ranking::ranked_is_ordered(x, by_text());
    ranking::ranked_is_ordered(y, by_text());
    ranking::ranked_keeps_items(x, by_text());
    ranking::ranked_keeps_items(y, by_text());
    vstd::seq_lib::lemma_sorted_unique(in_order(x), in_order(y), by_text());
}

proof fn lemma_same_base(paths: Seq<Seq<char>>, other: Seq<Seq<char>>, b: Seq<char>)
    requires
        paths.to_multiset() == other.to_multiset(),
    ensures
        has_base_fleet(paths, b) == has_base_fleet(other, b),
        base_fleet(paths, b) == base_fleet(other, b),
{
    lemma_same_group(
        paths,
        other,
        |p: Seq<char>| comparable_by_name(base_of(p)) && base_of(p) == b,
    );
}

proof fn lemma_same_ext(
    paths: Seq<Seq<char>>,
    other: Seq<Seq<char>>,
    d: Seq<char>,
    e: Seq<char>,
)
    requires
        paths.to_multiset() == other.to_multiset(),
    ensures
        sharing_ext(paths, d, e).to_multiset() == sharing_ext(other, d, e).to_multiset(),
        sharing_ext(paths, d, e).len() == sharing_ext(other, d, e).len(),
        ext_fleet(paths, d, e) == ext_fleet(other, d, e),
{
    lemma_same_group(
        paths,
        other,
        |p: Seq<char>| fleetable(ext_of(base_of(p))) && dir_of(p) == d && ext_of(base_of(p)) == e,
    );
}

proof fn lemma_same_cover(
    paths: Seq<Seq<char>>,
    other: Seq<Seq<char>>,
    d: Seq<char>,
    e: Seq<char>,
)
    requires
        paths.to_multiset() == other.to_multiset(),
        has_ext_fleet(paths, d, e),
    ensures
        has_ext_fleet(other, d, e),
{
    broadcast use vstd::seq_lib::group_to_multiset_ensures;

    lemma_same_ext(paths, other, d, e);
    let x = sharing_ext(paths, d, e);
    let y = sharing_ext(other, d, e);
    if covered_by_name(other, y) {
        let b = choose|b: Seq<char>|
            has_base_fleet(other, b) && covers(#[trigger] base_fleet(other, b).members, y);
        lemma_same_base(paths, other, b);
        let members = base_fleet(paths, b).members;
        assert forall|i: int| 0 <= i < members.len() implies x.contains(#[trigger] members[i]) by {
            assert(y.contains(members[i]));
            assert(y.to_multiset().count(members[i]) > 0);
        }
        assert(covers(base_fleet(paths, b).members, x));
    }
}

/// The fleets do not depend on the order in which the files are given.
pub proof fn fleets_ignore_path_order(
    paths: Seq<Seq<char>>,
    other: Seq<Seq<char>>,
    f: FleetModel,
)
    requires
        paths.to_multiset() == other.to_multiset(),
        is_fleet(paths, f),
    ensures
        is_fleet(other, f),
{
    if exists|b: Seq<char>| has_base_fleet(paths, b) && f == #[trigger] base_fleet(paths, b) {
        let b = choose|b: Seq<char>|
            has_base_fleet(paths, b) && f == #[trigger] base_fleet(paths, b);
        lemma_same_base(paths, other, b);
        assert(f == base_fleet(other, b));
    } else {
        let (d, e) = choose|d: Seq<char>, e: Seq<char>|
            has_ext_fleet(paths, d, e) && f == #[trigger] ext_fleet(paths, d, e);
        lemma_same_cover(paths, other, d, e);
        lemma_same_ext(paths, other, d, e);
        assert(f == ext_fleet(other, d, e));
    }
}

// ---- fleets, by what their paths look like ---------------------------

/// The text holds no such character.
pub open spec fn lacks(s: Seq<char>, c: char) -> bool {
    forall|i: int| 0 <= i < s.len() ==> #[trigger] s[i] != c
}

/// A path is its directory, a slash and its basename; one without a slash is
/// its basename.
pub proof fn paths_come_apart(d: Seq<char>, b: Seq<char>)
    requires
        lacks(b, '/'),
    ensures
        base_of(d + "/"@ + b) == b,
        dir_of(d + "/"@ + b) == d,
        base_of(b) == b,
        dir_of(b) == Seq::<char>::empty(),
{
    reveal_strlit("/");
    let p = d + "/"@ + b;
    let k = d.len() as int;
    assert(p[k] == '/');
    assert forall|i: int| k < i < p.len() implies #[trigger] p[i] != '/' by {
        assert(p[i] == b[i - k - 1]);
    }
    text::last_place_unique(p, '/', k);
    assert(p.skip(k + 1) =~= b);
    assert(p.take(k) =~= d);
    text::last_place_unique(b, '/', -1);
    assert(b.skip(0) =~= b);
}

/// A basename is a stem, a dot and its extension; one without a dot has none.
pub proof fn basenames_come_apart(s: Seq<char>, e: Seq<char>)
    requires
        lacks(e, '.'),
    ensures
        ext_of(s + "."@ + e) == e,
        ext_of(e) == Seq::<char>::empty(),
{
    reveal_strlit(".");
    let b = s + "."@ + e;
    let k = s.len() as int;
    assert(b[k] == '.');
    assert forall|i: int| k < i < b.len() implies #[trigger] b[i] != '.' by {
        assert(b[i] == e[i - k - 1]);
    }
    text::last_place_unique(b, '.', k);
    assert(b.skip(k + 1) =~= e);
    text::last_place_unique(e, '.', -1);
}

/// Every path is its basename behind its directory, and a basename holds no
/// slash.
pub proof fn paths_are_put_together(p: Seq<char>)
    ensures
        lacks(base_of(p), '/'),
        p == base_of(p) && dir_of(p).len() == 0 || p == dir_of(p) + "/"@ + base_of(p),
{
    reveal_strlit("/");
    text::last_place_is_last(p, '/');
    let k = text::last_place(p, '/');
    let b = base_of(p);
    assert forall|i: int| 0 <= i < b.len() implies #[trigger] b[i] != '/' by {
        assert(p[k + 1 + i] == b[i]);
    }
    if k < 0 {
        assert(p =~= b);
    } else {
        assert(p =~= dir_of(p) + "/"@ + b);
    }
}

/// Every basename with an extension is a stem, a dot and the extension, which
/// holds no dot.
pub proof fn extensions_are_put_together(b: Seq<char>)
    ensures
        lacks(ext_of(b), '.'),
        ext_of(b).len() > 0 ==> exists|s: Seq<char>| b == #[trigger] (s + "."@ + ext_of(b)),
        ext_of(b).len() == 0 ==> lacks(b, '.') || b.last() == '.',
{
    reveal_strlit(".");
    text::last_place_is_last(b, '.');
    let k = text::last_place(b, '.');
    let e = ext_of(b);
    if k >= 0 {
        assert forall|i: int| 0 <= i < e.len() implies #[trigger] e[i] != '.' by {
            assert(b[k + 1 + i] == e[i]);
        }
        assert(b =~= b.take(k) + "."@ + e);
        if e.len() == 0 {
            assert(k == b.len() - 1);
        }
    }
}

/// The extensions of source code and prose.
pub open spec fn source_list() -> Seq<Seq<char>> {
    seq![
        "rs"@,
        "ts"@,
        "tsx"@,
        "js"@,
        "jsx"@,
        "mjs"@,
        "cjs"@,
        "py"@,
        "go"@,
        "java"@,
        "rb"@,
        "cpp"@,
        "cc"@,
        "c"@,
        "h"@,
        "hpp"@,
        "cs"@,
        "swift"@,
        "kt"@,
        "php"@,
        "scala"@,
        "ex"@,
        "exs"@,
        "zig"@,
        "lua"@,
        "pl"@,
        "sh"@,
        "bash"@,
        "md"@,
        "txt"@,
        "html"@,
        "css"@,
        "scss"@,
    ]
}

/// The extensions of what is written to configure, which are compared within a
/// directory.
pub open spec fn config_list() -> Seq<Seq<char>> {
    seq![
        "yml"@,
        "yaml"@,
        "json"@,
        "jsonc"@,
        "toml"@,
        "ini"@,
        "cfg"@,
        "conf"@,
        "env"@,
        "xml"@,
        "properties"@,
        "tf"@,
        "tfvars"@,
        "sql"@,
        "http"@,
        "plist"@,
        "gradle"@,
        "props"@,
    ]
}

/// The names that are compared whatever the case of their letters.
pub open spec fn name_list() -> Seq<Seq<char>> {
    seq![
        "dockerfile"@,
        "makefile"@,
        "justfile"@,
        "jenkinsfile"@,
        "procfile"@,
        "vagrantfile"@,
        "codeowners"@,
    ]
}

/// The extensions that are told apart are these: source code and prose on one
/// side, configuration on the other, and none is on both.
pub proof fn extensions_are_listed(e: Seq<char>)
    ensures
        source(e) <==> source_list().contains(e),
        fleetable(e) <==> config_list().contains(e),
        source_list().contains(e) ==> !config_list().contains(e),
{
    let s = source_list();
    let c = config_list();
    assert(s[0] == "rs"@);
    assert(s[1] == "ts"@);
    assert(s[2] == "tsx"@);
    assert(s[3] == "js"@);
    assert(s[4] == "jsx"@);
    assert(s[5] == "mjs"@);
    assert(s[6] == "cjs"@);
    assert(s[7] == "py"@);
    assert(s[8] == "go"@);
    assert(s[9] == "java"@);
    assert(s[10] == "rb"@);
    assert(s[11] == "cpp"@);
    assert(s[12] == "cc"@);
    assert(s[13] == "c"@);
    assert(s[14] == "h"@);
    assert(s[15] == "hpp"@);
    assert(s[16] == "cs"@);
    assert(s[17] == "swift"@);
    assert(s[18] == "kt"@);
    assert(s[19] == "php"@);
    assert(s[20] == "scala"@);
    assert(s[21] == "ex"@);
    assert(s[22] == "exs"@);
    assert(s[23] == "zig"@);
    assert(s[24] == "lua"@);
    assert(s[25] == "pl"@);
    assert(s[26] == "sh"@);
    assert(s[27] == "bash"@);
    assert(s[28] == "md"@);
    assert(s[29] == "txt"@);
    assert(s[30] == "html"@);
    assert(s[31] == "css"@);
    assert(s[32] == "scss"@);
    assert(c[0] == "yml"@);
    assert(c[1] == "yaml"@);
    assert(c[2] == "json"@);
    assert(c[3] == "jsonc"@);
    assert(c[4] == "toml"@);
    assert(c[5] == "ini"@);
    assert(c[6] == "cfg"@);
    assert(c[7] == "conf"@);
    assert(c[8] == "env"@);
    assert(c[9] == "xml"@);
    assert(c[10] == "properties"@);
    assert(c[11] == "tf"@);
    assert(c[12] == "tfvars"@);
    assert(c[13] == "sql"@);
    assert(c[14] == "http"@);
    assert(c[15] == "plist"@);
    assert(c[16] == "gradle"@);
    assert(c[17] == "props"@);
    if s.contains(e) {
        let i = s.index_of(e);
        assert(0 <= i < 33 && s[i] == e);
    }
    if c.contains(e) {
        let i = c.index_of(e);
        assert(0 <= i < 18 && c[i] == e);
        if s.contains(e) {
            lemma_fleetable_is_no_source(e);
        }
    }
}

proof fn lemma_plain_source(e: Seq<char>)
    requires
        source_list().contains(e),
    ensures
        lacks(e, '.'),
        lacks(e, '/'),
        e.len() > 0,
{
    extensions_are_listed(e);
    reveal_strlit("rs");
    reveal_strlit("ts");
    reveal_strlit("tsx");
    reveal_strlit("js");
    reveal_strlit("jsx");
    reveal_strlit("mjs");
    reveal_strlit("cjs");
    reveal_strlit("py");
    reveal_strlit("go");
    reveal_strlit("java");
    reveal_strlit("rb");
    reveal_strlit("cpp");
    reveal_strlit("cc");
    reveal_strlit("c");
    reveal_strlit("h");
    reveal_strlit("hpp");
    reveal_strlit("cs");
    reveal_strlit("swift");
    reveal_strlit("kt");
    reveal_strlit("php");
    reveal_strlit("scala");
    reveal_strlit("ex");
    reveal_strlit("exs");
    reveal_strlit("zig");
    reveal_strlit("lua");
    reveal_strlit("pl");
    reveal_strlit("sh");
    reveal_strlit("bash");
    reveal_strlit("md");
    reveal_strlit("txt");
    reveal_strlit("html");
    reveal_strlit("css");
    reveal_strlit("scss");
}

/// The names are these, in any case of their letters.
pub proof fn names_are_listed(b: Seq<char>)
    ensures
        named_fleet(b) <==> name_list().contains(text::lower_text(b)),
{
    let l = name_list();
    lemma_lower_dockerfile();
    assert(l[0] == "dockerfile"@);
    lemma_lower_makefile();
    assert(l[1] == "makefile"@);
    lemma_lower_justfile();
    assert(l[2] == "justfile"@);
    lemma_lower_jenkinsfile();
    assert(l[3] == "jenkinsfile"@);
    lemma_lower_procfile();
    assert(l[4] == "procfile"@);
    lemma_lower_vagrantfile();
    assert(l[5] == "vagrantfile"@);
    lemma_lower_codeowners();
    assert(l[6] == "codeowners"@);
    let t = text::lower_text(b);
    if l.contains(t) {
        let i = l.index_of(t);
        assert(0 <= i < 7 && l[i] == t);
    }
}

proof fn lemma_lower_dockerfile()
    ensures
        text::lower_text("Dockerfile"@) == "dockerfile"@,
        lacks("dockerfile"@, '.'),
{
    reveal_strlit("Dockerfile");
    reveal_strlit("dockerfile");
    assert(text::lower_text("Dockerfile"@) =~= "dockerfile"@);
}

proof fn lemma_lower_makefile()
    ensures
        text::lower_text("Makefile"@) == "makefile"@,
        lacks("makefile"@, '.'),
{
    reveal_strlit("Makefile");
    reveal_strlit("makefile");
    assert(text::lower_text("Makefile"@) =~= "makefile"@);
}

proof fn lemma_lower_justfile()
    ensures
        text::lower_text("Justfile"@) == "justfile"@,
        lacks("justfile"@, '.'),
{
    reveal_strlit("Justfile");
    reveal_strlit("justfile");
    assert(text::lower_text("Justfile"@) =~= "justfile"@);
}

proof fn lemma_lower_jenkinsfile()
    ensures
        text::lower_text("Jenkinsfile"@) == "jenkinsfile"@,
        lacks("jenkinsfile"@, '.'),
{
    reveal_strlit("Jenkinsfile");
    reveal_strlit("jenkinsfile");
    assert(text::lower_text("Jenkinsfile"@) =~= "jenkinsfile"@);
}

proof fn lemma_lower_procfile()
    ensures
        text::lower_text("Procfile"@) == "procfile"@,
        lacks("procfile"@, '.'),
{
    reveal_strlit("Procfile");
    reveal_strlit("procfile");
    assert(text::lower_text("Procfile"@) =~= "procfile"@);
}

proof fn lemma_lower_vagrantfile()
    ensures
        text::lower_text("Vagrantfile"@) == "vagrantfile"@,
        lacks("vagrantfile"@, '.'),
{
    reveal_strlit("Vagrantfile");
    reveal_strlit("vagrantfile");
    assert(text::lower_text("Vagrantfile"@) =~= "vagrantfile"@);
}

proof fn lemma_lower_codeowners()
    ensures
        text::lower_text("CODEOWNERS"@) == "codeowners"@,
        lacks("codeowners"@, '.'),
{
    reveal_strlit("CODEOWNERS");
    reveal_strlit("codeowners");
    assert(text::lower_text("CODEOWNERS"@) =~= "codeowners"@);
}

proof fn lemma_names_have_no_dot(b: Seq<char>)
    requires
        named_fleet(b),
    ensures
        lacks(b, '.'),
{
    lemma_lower_dockerfile();
    lemma_lower_makefile();
    lemma_lower_justfile();
    lemma_lower_jenkinsfile();
    lemma_lower_procfile();
    lemma_lower_vagrantfile();
    lemma_lower_codeowners();
    let t = text::lower_text(b);
    assert forall|i: int| 0 <= i < b.len() implies #[trigger] b[i] != '.' by {
        assert(t[i] == text::lower(b[i]));
        assert(t[i] != '.');
    }
}

/// No fleet has a member whose path ends in a dot and the extension of a source
/// file, whatever the file is called and however many share the name.
pub proof fn source_files_are_in_no_fleet(
    paths: Seq<Seq<char>>,
    all: Seq<FleetModel>,
    k: int,
    p: Seq<char>,
    x: Seq<char>,
)
    requires
        lists_fleets(paths, all),
        0 <= k < foremost(all).len(),
        text::ends_with(p, "."@ + x),
        seq![
            "rs"@,
            "ts"@,
            "tsx"@,
            "js"@,
            "jsx"@,
            "mjs"@,
            "cjs"@,
            "py"@,
            "go"@,
            "java"@,
            "rb"@,
            "cpp"@,
            "cc"@,
            "c"@,
            "h"@,
            "hpp"@,
            "cs"@,
            "swift"@,
            "kt"@,
            "php"@,
            "scala"@,
            "ex"@,
            "exs"@,
            "zig"@,
            "lua"@,
            "pl"@,
            "sh"@,
            "bash"@,
            "md"@,
            "txt"@,
            "html"@,
            "css"@,
            "scss"@,
        ].contains(x),
    ensures
        !foremost(all)[k].members.contains(p),
{
    reveal_strlit(".");
    let list = seq![
        "rs"@,
        "ts"@,
        "tsx"@,
        "js"@,
        "jsx"@,
        "mjs"@,
        "cjs"@,
        "py"@,
        "go"@,
        "java"@,
        "rb"@,
        "cpp"@,
        "cc"@,
        "c"@,
        "h"@,
        "hpp"@,
        "cs"@,
        "swift"@,
        "kt"@,
        "php"@,
        "scala"@,
        "ex"@,
        "exs"@,
        "zig"@,
        "lua"@,
        "pl"@,
        "sh"@,
        "bash"@,
        "md"@,
        "txt"@,
        "html"@,
        "css"@,
        "scss"@,
    ];
    assert(list =~= source_list());
    lemma_plain_source(x);
    extensions_are_listed(x);
    let tail = "."@ + x;
    let n = p.len() - tail.len();
    assert(forall|i: int| 0 <= i < tail.len() ==> p[n + i] == #[trigger] tail[i]);
    assert(lacks(tail, '/')) by {
        assert forall|i: int| 0 <= i < tail.len() implies #[trigger] tail[i] != '/' by {
            if i > 0 {
                assert(tail[i] == x[i - 1]);
            }
        }
    }
    text::last_place_is_last(p, '/');
    let s = text::last_place(p, '/');
    if s >= n {
        assert(tail[s - n] == p[s]);
    }
    let b = base_of(p);
    let stem = b.take(n - s - 1);
    assert(b =~= stem + "."@ + x) by {
        assert forall|i: int| 0 <= i < b.len() implies #[trigger] b[i] == (stem + "."@ + x)[i] by {
            if i >= n - s - 1 {
                assert(b[i] == tail[i - (n - s - 1)]);
            }
        }
    }
    basenames_come_apart(stem, x);
    let f = foremost(all)[k];
    assert(all[k] == f);
    assert(all.contains(f));
    if f.members.contains(p) {
        source_files_are_never_peers(paths, f, p);
        lemma_names_have_no_dot(b);
        assert((stem + "."@ + x)[stem.len() as int] == '.');
        assert(b[stem.len() as int] == '.');
    }
}

proof fn lemma_filter_places(paths: Seq<Seq<char>>, keep: spec_fn(Seq<char>) -> bool)
    ensures
        paths.filter(keep).len() == ranking::places(paths.len(), |k: int| keep(paths[k])).len(),
    decreases paths.len(),
{
    reveal(Seq::filter);
    if paths.len() > 0 {
        let front = paths.drop_last();
        lemma_filter_places(front, keep);
        let now = |k: int| keep(paths[k]);
        let then = |k: int| keep(front[k]);
        ranking::places_agree(front.len(), then, now);
        assert(now(paths.len() - 1) <==> keep(paths.last()));
    }
}

/// Two files or more with one basename make a fleet, unless the basename has no
/// extension or that of source code; some names make a fleet without one. The
/// fleet counts every such file, keeps sixty of them at most, and is called by
/// the name.
pub proof fn files_of_one_name_make_a_fleet(paths: Seq<Seq<char>>, b: Seq<char>)
    requires
        ranking::places(paths.len(), |k: int| base_of(paths[k]) == b).len() >= 2,
        seq![
            "dockerfile"@,
            "makefile"@,
            "justfile"@,
            "jenkinsfile"@,
            "procfile"@,
            "vagrantfile"@,
            "codeowners"@,
        ].contains(text::lower_text(b)) || ext_of(b).len() > 0 && !seq![
            "rs"@,
            "ts"@,
            "tsx"@,
            "js"@,
            "jsx"@,
            "mjs"@,
            "cjs"@,
            "py"@,
            "go"@,
            "java"@,
            "rb"@,
            "cpp"@,
            "cc"@,
            "c"@,
            "h"@,
            "hpp"@,
            "cs"@,
            "swift"@,
            "kt"@,
            "php"@,
            "scala"@,
            "ex"@,
            "exs"@,
            "zig"@,
            "lua"@,
            "pl"@,
            "sh"@,
            "bash"@,
            "md"@,
            "txt"@,
            "html"@,
            "css"@,
            "scss"@,
        ].contains(ext_of(b)),
    ensures
        exists|f: FleetModel| #[trigger]
            is_fleet(paths, f) && f.rule == "basename"@ && f.id == "basename:"@ + b && f.label == b
                + " × "@ + text::decimal(
                ranking::places(paths.len(), |k: int| base_of(paths[k]) == b).len(),
            ) && f.members.len() + f.truncated == ranking::places(
                paths.len(),
                |k: int| base_of(paths[k]) == b,
            ).len() && f.members.len() <= 60 && (f.truncated > 0 ==> f.members.len() == 60)
                && forall|i: int|
                0 <= i < f.members.len() ==> base_of(#[trigger] f.members[i]) == b
                    && paths.contains(f.members[i]),
{
    let names = seq![
        "dockerfile"@,
        "makefile"@,
        "justfile"@,
        "jenkinsfile"@,
        "procfile"@,
        "vagrantfile"@,
        "codeowners"@,
    ];
    assert(names =~= name_list());
    names_are_listed(b);
    let sources = seq![
        "rs"@,
        "ts"@,
        "tsx"@,
        "js"@,
        "jsx"@,
        "mjs"@,
        "cjs"@,
        "py"@,
        "go"@,
        "java"@,
        "rb"@,
        "cpp"@,
        "cc"@,
        "c"@,
        "h"@,
        "hpp"@,
        "cs"@,
        "swift"@,
        "kt"@,
        "php"@,
        "scala"@,
        "ex"@,
        "exs"@,
        "zig"@,
        "lua"@,
        "pl"@,
        "sh"@,
        "bash"@,
        "md"@,
        "txt"@,
        "html"@,
        "css"@,
        "scss"@,
    ];
    assert(sources =~= source_list());
    extensions_are_listed(ext_of(b));
    let keep = |p: Seq<char>| comparable_by_name(base_of(p)) && base_of(p) == b;
    lemma_filter_places(paths, keep);
    let now = |k: int| base_of(paths[k]) == b;
    let then = |k: int| keep(paths[k]);
    ranking::places_agree(paths.len(), then, now);
    let group = sharing_base(paths, b);
    ranking::ranked_keeps_items(group, by_text());
    assert(has_base_fleet(paths, b));
    let f = base_fleet(paths, b);
    assert forall|i: int| 0 <= i < f.members.len() implies base_of(#[trigger] f.members[i]) == b
        && paths.contains(f.members[i]) by {
        assert(f.members.contains(f.members[i]));
        lemma_members_in_group(group, f.members[i]);
        lemma_filtered(paths, keep, f.members[i]);
    }
    assert(is_fleet(paths, f));
}

/// Three files or more of one directory with one extension of configuration
/// make a fleet, unless a fleet by name already covers exactly these.
pub proof fn files_of_one_extension_make_a_fleet(
    paths: Seq<Seq<char>>,
    d: Seq<char>,
    e: Seq<char>,
)
    requires
        ranking::places(
            paths.len(),
            |k: int| dir_of(paths[k]) == d && ext_of(base_of(paths[k])) == e,
        ).len() >= 3,
        seq![
            "yml"@,
            "yaml"@,
            "json"@,
            "jsonc"@,
            "toml"@,
            "ini"@,
            "cfg"@,
            "conf"@,
            "env"@,
            "xml"@,
            "properties"@,
            "tf"@,
            "tfvars"@,
            "sql"@,
            "http"@,
            "plist"@,
            "gradle"@,
            "props"@,
        ].contains(e),
        !exists|b: Seq<char>|
            has_base_fleet(paths, b) && (#[trigger] base_fleet(paths, b)).members.len()
                == sharing_ext(paths, d, e).len() && forall|i: int|
                0 <= i < base_fleet(paths, b).members.len() ==> sharing_ext(paths, d, e).contains(
                    #[trigger] base_fleet(paths, b).members[i],
                ),
    ensures
        exists|f: FleetModel| #[trigger]
            is_fleet(paths, f) && f.rule == "extension"@ && f.id == "ext:"@ + d + ":"@ + e
                && f.label == (if d.len() == 0 {
                "repository root"@
            } else {
                d
            }) + "/*."@ + e + " × "@ + text::decimal(
                ranking::places(
                    paths.len(),
                    |k: int| dir_of(paths[k]) == d && ext_of(base_of(paths[k])) == e,
                ).len(),
            ) && f.members.len() + f.truncated == ranking::places(
                paths.len(),
                |k: int| dir_of(paths[k]) == d && ext_of(base_of(paths[k])) == e,
            ).len() && f.members.len() <= 60 && (f.truncated > 0 ==> f.members.len() == 60)
                && forall|i: int|
                0 <= i < f.members.len() ==> dir_of(#[trigger] f.members[i]) == d && ext_of(
                    base_of(f.members[i]),
                ) == e && paths.contains(f.members[i]),
{
    let exts = seq![
        "yml"@,
        "yaml"@,
        "json"@,
        "jsonc"@,
        "toml"@,
        "ini"@,
        "cfg"@,
        "conf"@,
        "env"@,
        "xml"@,
        "properties"@,
        "tf"@,
        "tfvars"@,
        "sql"@,
        "http"@,
        "plist"@,
        "gradle"@,
        "props"@,
    ];
    assert(exts =~= config_list());
    extensions_are_listed(e);
    let keep = |p: Seq<char>|
        fleetable(ext_of(base_of(p))) && dir_of(p) == d && ext_of(base_of(p)) == e;
    lemma_filter_places(paths, keep);
    let now = |k: int| dir_of(paths[k]) == d && ext_of(base_of(paths[k])) == e;
    let then = |k: int| keep(paths[k]);
    ranking::places_agree(paths.len(), then, now);
    let group = sharing_ext(paths, d, e);
    ranking::ranked_keeps_items(group, by_text());
    if covered_by_name(paths, group) {
        let b = choose|b: Seq<char>|
            has_base_fleet(paths, b) && covers(#[trigger] base_fleet(paths, b).members, group);
        assert(base_fleet(paths, b).members.len() == group.len());
    }
    assert(has_ext_fleet(paths, d, e));
    let f = ext_fleet(paths, d, e);
    assert forall|i: int| 0 <= i < f.members.len() implies dir_of(#[trigger] f.members[i]) == d
        && ext_of(base_of(f.members[i])) == e && paths.contains(f.members[i]) by {
        assert(f.members.contains(f.members[i]));
        lemma_members_in_group(group, f.members[i]);
        lemma_filtered(paths, keep, f.members[i]);
    }
    assert("ext:"@ + d + ":"@ + e =~= f.id);
    assert(is_fleet(paths, f));
}

/// There are no other fleets: one by name has two files or more that share
/// their basename, one by extension three or more that share their directory
/// and an extension of configuration.
pub proof fn fleets_share_a_name_or_an_extension(paths: Seq<Seq<char>>, f: FleetModel)
    requires
        is_fleet(paths, f),
    ensures
        f.rule == "basename"@ && f.members.len() >= 2 && (exists|b: Seq<char>| #[trigger]
            ("basename:"@ + b) == f.id && forall|i: int|
                0 <= i < f.members.len() ==> base_of(#[trigger] f.members[i]) == b) || f.rule
            == "extension"@ && f.members.len() >= 3 && (exists|d: Seq<char>, e: Seq<char>|
            #[trigger]
            ("ext:"@ + d + ":"@ + e) == f.id && seq![
                "yml"@,
                "yaml"@,
                "json"@,
                "jsonc"@,
                "toml"@,
                "ini"@,
                "cfg"@,
                "conf"@,
                "env"@,
                "xml"@,
                "properties"@,
                "tf"@,
                "tfvars"@,
                "sql"@,
                "http"@,
                "plist"@,
                "gradle"@,
                "props"@,
            ].contains(e) && forall|i: int|
                0 <= i < f.members.len() ==> dir_of(#[trigger] f.members[i]) == d && ext_of(
                    base_of(f.members[i]),
                ) == e),
{
    if exists|b: Seq<char>| has_base_fleet(paths, b) && f == #[trigger] base_fleet(paths, b) {
        let b = choose|b: Seq<char>|
            has_base_fleet(paths, b) && f == #[trigger] base_fleet(paths, b);
        let keep = |p: Seq<char>| comparable_by_name(base_of(p)) && base_of(p) == b;
        ranking::ranked_keeps_items(sharing_base(paths, b), by_text());
        assert(("basename:"@ + b) == f.id);
        assert forall|i: int| 0 <= i < f.members.len() implies base_of(#[trigger] f.members[i])
            == b by {
            assert(f.members.contains(f.members[i]));
            lemma_members_in_group(sharing_base(paths, b), f.members[i]);
            lemma_filtered(paths, keep, f.members[i]);
        }
    } else {
        let (d, e) = choose|d: Seq<char>, e: Seq<char>|
            has_ext_fleet(paths, d, e) && f == #[trigger] ext_fleet(paths, d, e);
        let keep = |p: Seq<char>|
            fleetable(ext_of(base_of(p))) && dir_of(p) == d && ext_of(base_of(p)) == e;
        ranking::ranked_keeps_items(sharing_ext(paths, d, e), by_text());
        assert(("ext:"@ + d + ":"@ + e) =~= f.id);
        extensions_are_listed(e);
        assert(seq![
            "yml"@,
            "yaml"@,
            "json"@,
            "jsonc"@,
            "toml"@,
            "ini"@,
            "cfg"@,
            "conf"@,
            "env"@,
            "xml"@,
            "properties"@,
            "tf"@,
            "tfvars"@,
            "sql"@,
            "http"@,
            "plist"@,
            "gradle"@,
            "props"@,
        ] =~= config_list());
        assert forall|i: int| 0 <= i < f.members.len() implies dir_of(#[trigger] f.members[i]) == d
            && ext_of(base_of(f.members[i])) == e by {
            assert(f.members.contains(f.members[i]));
            lemma_members_in_group(sharing_ext(paths, d, e), f.members[i]);
            lemma_filtered(paths, keep, f.members[i]);
        }
    }
}

/// The members of a fleet stand in order.
pub proof fn members_stand_in_order(paths: Seq<Seq<char>>, f: FleetModel, i: int, j: int)
    requires
        is_fleet(paths, f),
        0 <= i < j < f.members.len(),
    ensures
        !order::text_less(f.members[j], f.members[i]),
{
    let group = fleet_group(paths, f);
    lemma_by_text_total();
    assert(ranking::total_preorder(by_text()));
    ranking::ranked_is_ordered(group, by_text());
    ranking::ranked_keeps_items(group, by_text());
    let all = in_order(group);
    assert(f.members == kept(all));
    assert(by_text()(all[i], all[j]));
    let x = all[i];
    let y = all[j];
    order::text_less_irreflexive(x);
    if order::text_less(x, y) && order::text_less(y, x) {
        order::text_less_transitive(x, y, x);
    }
}

/// Twenty-four fleets are kept at most, and fewer only where there are no more.
/// What is kept has no fewer members than what is dropped, and of two fleets
/// with as many members that with the lesser id comes first.
pub proof fn largest_fleets_are_kept(paths: Seq<Seq<char>>, all: Seq<FleetModel>, i: int, j: int)
    requires
        lists_fleets(paths, all),
        0 <= i < j < all.len(),
    ensures
        foremost(all).len() <= 24,
        foremost(all).len() < 24 ==> foremost(all) == all,
        i < foremost(all).len() ==> foremost(all)[i] == all[i],
        all[i].members.len() >= all[j].members.len(),
        all[i].members.len() == all[j].members.len() ==> order::text_less(all[i].id, all[j].id),
{
    assert(fleet_before(all[i], all[j]));
}

/// Where the members of a fleet by name are exactly the files of a directory
/// with one extension, these make no second fleet.
pub proof fn covered_files_make_no_second_fleet(
    paths: Seq<Seq<char>>,
    b: Seq<char>,
    d: Seq<char>,
    e: Seq<char>,
    f: FleetModel,
)
    requires
        has_base_fleet(paths, b),
        base_fleet(paths, b).members.len() == sharing_ext(paths, d, e).len(),
        forall|i: int|
            0 <= i < base_fleet(paths, b).members.len() ==> sharing_ext(paths, d, e).contains(
                #[trigger] base_fleet(paths, b).members[i],
            ),
        is_fleet(paths, f),
        f.rule == "extension"@,
    ensures
        f.members != sharing_ext(paths, d, e),
        f.id == "ext:"@ + d + ":"@ + e ==> !fleetable(e),
{
    reveal_strlit("basename");
    reveal_strlit("extension");
    assert("basename"@.len() != "extension"@.len());
    let (d2, e2) = choose|d: Seq<char>, e: Seq<char>|
        has_ext_fleet(paths, d, e) && f == #[trigger] ext_fleet(paths, d, e);
    assert(covers(base_fleet(paths, b).members, sharing_ext(paths, d, e)));
    assert(covered_by_name(paths, sharing_ext(paths, d, e)));
    if f.members == sharing_ext(paths, d, e) {
        let g = sharing_ext(paths, d2, e2);
        ranking::ranked_keeps_items(g, by_text());
        assert(f.members.len() >= 1);
        let p = f.members[0];
        assert(f.members.contains(p));
        lemma_members_in_group(g, p);
        ext_groups_are_disjoint(paths, d, e, d2, e2, p);
    }
    if f.id == "ext:"@ + d + ":"@ + e && fleetable(e) {
        let h = "ext:"@;
        assert(("ext:"@ + d + ":"@ + e).skip(h.len() as int) =~= dir_ext(d, e));
        assert(("ext:"@ + dir_ext(d2, e2)).skip(h.len() as int) =~= dir_ext(d2, e2));
        dir_ext_injective(d, e, d2, e2);
    }
}

/// As a value, a fleet is its own fields.
pub proof fn fleets_are_own_fields(f: Fleet)
    ensures
        f@.id == f.id@,
        f@.label == f.label@,
        f@.rule == f.rule@,
        f@.members == f.members@.map_values(|p: String| p@),
        f@.truncated == f.truncated,
{
}

/// What a fleet keeps comes before what it drops: no file of its group that is
/// no member stands before a member.
pub proof fn first_files_are_kept(
    paths: Seq<Seq<char>>,
    f: FleetModel,
    q: Seq<char>,
    i: int,
)
    requires
        is_fleet(paths, f),
        fleet_group(paths, f).contains(q),
        !f.members.contains(q),
        0 <= i < f.members.len(),
    ensures
        !order::text_less(q, f.members[i]),
        f.members.len() == 60,
{
    let group = fleet_group(paths, f);
    lemma_by_text_total();
    assert(ranking::total_preorder(by_text()));
    ranking::ranked_is_ordered(group, by_text());
    ranking::ranked_keeps_items(group, by_text());
    ranking::ranked_same_members(group, by_text(), q);
    let all = in_order(group);
    assert(f.members == kept(all));
    let x = all.index_of(q);
    assert(all[x] == q);
    if x < f.members.len() {
        assert(f.members[x] == q);
    }
    assert(by_text()(all[i], all[x]));
    let a = all[i];
    order::text_less_irreflexive(a);
    if order::text_less(a, q) && order::text_less(q, a) {
        order::text_less_transitive(a, q, a);
    }
}

/// The files of a fleet by name have an extension that is not one of source
/// code, or one of the names that make a fleet without one.
pub proof fn fleets_by_name_are_comparable(paths: Seq<Seq<char>>, f: FleetModel, p: Seq<char>)
    requires
        is_fleet(paths, f),
        f.rule == "basename"@,
        f.members.contains(p),
    ensures
        seq![
            "dockerfile"@,
            "makefile"@,
            "justfile"@,
            "jenkinsfile"@,
            "procfile"@,
            "vagrantfile"@,
            "codeowners"@,
        ].contains(text::lower_text(base_of(p))) || ext_of(base_of(p)).len() > 0 && !seq![
            "rs"@,
            "ts"@,
            "tsx"@,
            "js"@,
            "jsx"@,
            "mjs"@,
            "cjs"@,
            "py"@,
            "go"@,
            "java"@,
            "rb"@,
            "cpp"@,
            "cc"@,
            "c"@,
            "h"@,
            "hpp"@,
            "cs"@,
            "swift"@,
            "kt"@,
            "php"@,
            "scala"@,
            "ex"@,
            "exs"@,
            "zig"@,
            "lua"@,
            "pl"@,
            "sh"@,
            "bash"@,
            "md"@,
            "txt"@,
            "html"@,
            "css"@,
            "scss"@,
        ].contains(ext_of(base_of(p))),
{
    reveal_strlit("basename");
    reveal_strlit("extension");
    assert("basename"@.len() != "extension"@.len());
    let b = choose|b: Seq<char>| has_base_fleet(paths, b) && f == #[trigger] base_fleet(paths, b);
    let keep = |q: Seq<char>| comparable_by_name(base_of(q)) && base_of(q) == b;
    lemma_members_in_group(sharing_base(paths, b), p);
    lemma_filtered(paths, keep, p);
    names_are_listed(base_of(p));
    extensions_are_listed(ext_of(base_of(p)));
    assert(seq![
        "dockerfile"@,
        "makefile"@,
        "justfile"@,
        "jenkinsfile"@,
        "procfile"@,
        "vagrantfile"@,
        "codeowners"@,
    ] =~= name_list());
    assert(seq![
        "rs"@,
        "ts"@,
        "tsx"@,
        "js"@,
        "jsx"@,
        "mjs"@,
        "cjs"@,
        "py"@,
        "go"@,
        "java"@,
        "rb"@,
        "cpp"@,
        "cc"@,
        "c"@,
        "h"@,
        "hpp"@,
        "cs"@,
        "swift"@,
        "kt"@,
        "php"@,
        "scala"@,
        "ex"@,
        "exs"@,
        "zig"@,
        "lua"@,
        "pl"@,
        "sh"@,
        "bash"@,
        "md"@,
        "txt"@,
        "html"@,
        "css"@,
        "scss"@,
    ] =~= source_list());
}

} // verus!
