//! Numbers for files and authors.
//!
//! A summary names each file and author once, in a dictionary, and by its place
//! there everywhere else.

use vstd::prelude::*;

use crate::replay::Replay;
use crate::sorted_map;

verus! {

/// `entropyx_core::VertexTable`: files and authors by number.
#[verifier::external_type_specification]
#[verifier::external_body]
pub struct ExVertexTable(entropyx_core::VertexTable);

/// The files of a table, by number.
pub uninterp spec fn table_files(t: entropyx_core::VertexTable) -> Seq<Seq<char>>;

/// The authors of a table, by number.
pub uninterp spec fn table_authors(t: entropyx_core::VertexTable) -> Seq<Seq<char>>;

/// The table finds by name everything that it lists.
pub uninterp spec fn table_indexed(t: entropyx_core::VertexTable) -> bool;

/// The names with one more, unless it is there.
pub open spec fn interned(names: Seq<Seq<char>>, name: Seq<char>) -> Seq<Seq<char>> {
    if names.contains(name) {
        names
    } else {
        names.push(name)
    }
}

/// The number of a name.
pub open spec fn number_of(names: Seq<Seq<char>>, name: Seq<char>) -> u32 {
    names.index_of(name) as u32
}

/// `entropyx_core::VertexTable::new` is empty.
#[verifier::external_body]
fn new_table() -> (r: entropyx_core::VertexTable)
    ensures
        table_indexed(r),
        table_files(r).len() == 0,
        table_authors(r).len() == 0,
{
    entropyx_core::VertexTable::new()
}

/// `entropyx_core::VertexTable::intern_file` gives the number of a file, which
/// is added at the end if it is new. There is no number for a new file once the
/// greatest number but one was given.
#[verifier::external_body]
pub(crate) fn intern_file(t: &mut entropyx_core::VertexTable, name: &str) -> (r: u32)
    requires
        table_indexed(*old(t)),
        table_files(*old(t)).contains(name@) || table_files(*old(t)).len() < u32::MAX,
    ensures
        table_indexed(*final(t)),
        table_files(*final(t)) == interned(table_files(*old(t)), name@),
        table_authors(*final(t)) == table_authors(*old(t)),
        r == table_files(*final(t)).index_of(name@),
{
    t.intern_file(name).0
}

/// `entropyx_core::VertexTable::intern_author` gives the number of an author,
/// who is added at the end if new. There is no number for a new author once
/// the greatest number but one was given.
#[verifier::external_body]
pub(crate) fn intern_author(t: &mut entropyx_core::VertexTable, name: &str) -> (r: u32)
    requires
        table_indexed(*old(t)),
        table_authors(*old(t)).contains(name@) || table_authors(*old(t)).len() < u32::MAX,
    ensures
        table_indexed(*final(t)),
        table_authors(*final(t)) == interned(table_authors(*old(t)), name@),
        table_files(*final(t)) == table_files(*old(t)),
        r == table_authors(*final(t)).index_of(name@),
{
    t.intern_author(name).0
}

/// Number the files in the order of their names, and the authors in the order
/// in which the walk met them.
pub fn number_all(w: &Replay) -> (r: entropyx_core::VertexTable)
    requires
        w.wf(),
        w.series.key_seq().len() <= u32::MAX,
        w.authors@.len() <= u32::MAX,
    ensures
        table_indexed(r),
        table_files(r) == w.series.key_seq(),
        table_authors(r) == w@.authors,
{
    let ghost keys = w.series.key_seq();
    let ghost emails = sorted_map::texts(w.authors@);
    let mut t = new_table();
    let n: usize = w.series.len();
    let mut i: usize = 0;
    proof {
        w.series.wf_keys();
        assert(table_files(t) =~= keys.take(0));
        assert(table_authors(t) =~= emails.take(0));
    }
    while i < n
        invariant
            w.wf(),
            keys == w.series.key_seq(),
            keys.no_duplicates(),
            n == keys.len(),
            n <= u32::MAX,
            i <= n,
            table_indexed(t),
            table_files(t) == keys.take(i as int),
            table_authors(t) == emails.take(0),
        decreases n - i,
    {
        let p = w.series.key_at(i);
        intern_file(&mut t, p.as_str());
        proof {
            assert(!keys.take(i as int).contains(p@));
            assert(keys.take(i + 1) =~= keys.take(i as int).push(p@));
        }
        i = i + 1;
    }
    assert(keys.take(n as int) =~= keys);
    let mut c: usize = 0;
    while c < w.authors.len()
        invariant
            c <= w.authors@.len() <= u32::MAX,
            emails == sorted_map::texts(w.authors@),
            emails.no_duplicates(),
            table_indexed(t),
            table_files(t) == keys,
            table_authors(t) == emails.take(c as int),
        decreases w.authors@.len() - c,
    {
        let a = &w.authors[c];
        intern_author(&mut t, a.as_str());
        proof {
            assert(emails[c as int] == a@);
            assert(!emails.take(c as int).contains(a@));
            assert(emails.take(c + 1) =~= emails.take(c as int).push(a@));
        }
        c = c + 1;
    }
    assert(emails.take(c as int) =~= emails);
    t
}

/// A name keeps its number when another is added.
pub proof fn numbers_stay(names: Seq<Seq<char>>, name: Seq<char>, other: Seq<char>)
    requires
        names.no_duplicates(),
        names.contains(name),
    ensures
        interned(names, other).no_duplicates(),
        interned(names, other).contains(name),
        interned(names, other).index_of(name) == names.index_of(name),
{
    let r = interned(names, other);
    let i = names.index_of(name);
    assert(r[i] == name);
    assert(r.no_duplicates());
    let j = r.index_of(name);
    assert(r[j] == name);
}

/// A name that was added has a number.
pub proof fn added_has_number(names: Seq<Seq<char>>, name: Seq<char>)
    requires
        names.no_duplicates(),
    ensures
        interned(names, name).no_duplicates(),
        interned(names, name).contains(name),
{
    let r = interned(names, name);
    if !names.contains(name) {
        assert(r[names.len() as int] == name);
    }
}

} // verus!
