//! Text operations on characters.
//!
//! A string is looked at as the sequence of its characters. What is done here
//! is what `str` does under the same name.

use vstd::prelude::*;
use vstd::string::*;

verus! {

/// `String::push` appends one character.
pub assume_specification[ String::push ](s: &mut String, c: char)
    ensures
        final(s)@ == old(s)@.push(c),
;

/// The characters of a string, one by one.
pub fn chars_of(s: &str) -> (r: Vec<char>)
    ensures
        r@ == s@,
{
    let mut r: Vec<char> = Vec::new();
    for c in it: s.chars()
        invariant
            r@ == it.seq().take(it.index() as int),
            it.seq() == s@,
    {
        r.push(c);
    }
    r
}

/// The string of some characters.
pub fn string_of(cs: &[char]) -> (r: String)
    ensures
        r@ == cs@,
{
    let mut r = String::new();
    let mut i: usize = 0;
    while i < cs.len()
        invariant
            i <= cs@.len(),
            r@ == cs@.take(i as int),
        decreases cs@.len() - i,
    {
        r.push(cs[i]);
        i = i + 1;
    }
    assert(cs@.take(i as int) =~= cs@);
    r
}

/// A letter `A` to `Z` in lower case, any other character as it is.
pub open spec fn lower(c: char) -> char {
    if 'A' <= c && c <= 'Z' {
        (c as u32 + 32) as char
    } else {
        c
    }
}

/// Text with its ASCII letters in lower case.
pub open spec fn lower_text(s: Seq<char>) -> Seq<char> {
    s.map_values(|c: char| lower(c))
}

/// The characters with the Unicode property `White_Space`.
pub open spec fn is_space(c: char) -> bool {
    let u = c as u32;
    ||| 0x9 <= u <= 0xd
    ||| u == 0x20
    ||| u == 0x85
    ||| u == 0xa0
    ||| u == 0x1680
    ||| 0x2000 <= u <= 0x200a
    ||| u == 0x2028
    ||| u == 0x2029
    ||| u == 0x202f
    ||| u == 0x205f
    ||| u == 0x3000
}

/// Text without its leading white space.
pub open spec fn trim_start(s: Seq<char>) -> Seq<char>
    decreases s.len(),
{
    if s.len() > 0 && is_space(s[0]) {
        trim_start(s.drop_first())
    } else {
        s
    }
}

/// Text without its trailing white space.
pub open spec fn trim_end(s: Seq<char>) -> Seq<char>
    decreases s.len(),
{
    if s.len() > 0 && is_space(s.last()) {
        trim_end(s.drop_last())
    } else {
        s
    }
}

/// Text without white space at either end.
pub open spec fn trim(s: Seq<char>) -> Seq<char> {
    trim_end(trim_start(s))
}

/// Text without any trailing `c`.
pub open spec fn without_trailing(s: Seq<char>, c: char) -> Seq<char>
    decreases s.len(),
{
    if s.len() > 0 && s.last() == c {
        without_trailing(s.drop_last(), c)
    } else {
        s
    }
}

/// `s` begins with `p`.
pub open spec fn starts_with(s: Seq<char>, p: Seq<char>) -> bool {
    p.is_prefix_of(s)
}

/// `s` ends with `p`.
pub open spec fn ends_with(s: Seq<char>, p: Seq<char>) -> bool {
    p.is_suffix_of(s)
}

/// `p` occurs in `s`.
pub open spec fn occurs_in(p: Seq<char>, s: Seq<char>) -> bool {
    exists|i: int|
        0 <= i && i + p.len() <= s.len() && #[trigger] s.subrange(i, i + p.len()) == p
}

/// The place of the last `c`, or -1.
pub open spec fn last_place(s: Seq<char>, c: char) -> int
    decreases s.len(),
{
    if s.len() == 0 {
        -1
    } else if s.last() == c {
        s.len() - 1
    } else {
        last_place(s.drop_last(), c)
    }
}

/// The pieces of `s` between the occurrences of `c`; there is always one more
/// than there are occurrences.
pub open spec fn split_on(s: Seq<char>, c: char) -> Seq<Seq<char>>
    decreases s.len(),
{
    if s.len() == 0 {
        seq![Seq::empty()]
    } else {
        let before = split_on(s.drop_last(), c);
        if s.last() == c {
            before.push(Seq::empty())
        } else {
            before.update(before.len() - 1, before.last().push(s.last()))
        }
    }
}

/// A digit as a character.
pub open spec fn digit(d: nat) -> char {
    (d + 0x30) as char
}

/// A number in decimal notation.
pub open spec fn decimal(n: nat) -> Seq<char>
    decreases n,
{
    if n < 10 {
        seq![digit(n)]
    } else {
        decimal(n / 10).push(digit(n % 10))
    }
}

/// The last place of a character: what follows it holds none, and it stands
/// there unless there is none.
pub proof fn last_place_is_last(s: Seq<char>, c: char)
    ensures
        -1 <= last_place(s, c) < s.len(),
        last_place(s, c) >= 0 ==> s[last_place(s, c)] == c,
        forall|i: int| last_place(s, c) < i < s.len() ==> #[trigger] s[i] != c,
    decreases s.len(),
{
    if s.len() > 0 && s.last() != c {
        last_place_is_last(s.drop_last(), c);
        assert forall|i: int| last_place(s, c) < i < s.len() implies #[trigger] s[i] != c by {
            if i < s.len() - 1 {
                assert(s.drop_last()[i] == s[i]);
            }
        }
    }
}

/// A place that holds the character, with none behind it, is its last place.
pub proof fn last_place_unique(s: Seq<char>, c: char, k: int)
    requires
        -1 <= k < s.len(),
        k >= 0 ==> s[k] == c,
        forall|i: int| k < i < s.len() ==> #[trigger] s[i] != c,
    ensures
        last_place(s, c) == k,
{
    last_place_is_last(s, c);
    if last_place(s, c) > k {
        assert(s[last_place(s, c)] != c);
    }
    if last_place(s, c) < k {
        assert(s[k] != c);
    }
}

/// A split always gives a piece.
pub proof fn split_on_nonempty(s: Seq<char>, c: char)
    ensures
        split_on(s, c).len() > 0,
    decreases s.len(),
{
    if s.len() > 0 {
        split_on_nonempty(s.drop_last(), c);
    }
}

/// The character in lower case.
pub fn lower_char(c: char) -> (r: char)
    ensures
        r == lower(c),
{
    if 'A' <= c && c <= 'Z' {
        ((c as u8) + 32) as char
    } else {
        c
    }
}

/// The text in lower case.
pub fn to_lower(s: &str) -> (r: String)
    ensures
        r@ == lower_text(s@),
{
    let cs = chars_of(s);
    let mut r = String::new();
    let mut i: usize = 0;
    while i < cs.len()
        invariant
            i <= cs@.len(),
            cs@ == s@,
            r@ == lower_text(s@).take(i as int),
        decreases cs@.len() - i,
    {
        r.push(lower_char(cs[i]));
        i = i + 1;
    }
    assert(lower_text(s@).take(i as int) =~= lower_text(s@));
    r
}

/// Whether a character is white space.
pub fn space_char(c: char) -> (r: bool)
    ensures
        r == is_space(c),
{
    let u: u32 = c as u32;
    (0x9 <= u && u <= 0xd) || u == 0x20 || u == 0x85 || u == 0xa0 || u == 0x1680 || (0x2000 <= u
        && u <= 0x200a) || u == 0x2028 || u == 0x2029 || u == 0x202f || u == 0x205f || u == 0x3000
}

/// Whether there is no text.
pub fn is_empty_text(s: &str) -> (r: bool)
    ensures
        r == (s@.len() == 0),
{
    chars_of(s).len() == 0
}

/// A part of a list of characters.
pub fn part_of(cs: &Vec<char>, from: usize, to: usize) -> (r: Vec<char>)
    requires
        from <= to <= cs@.len(),
    ensures
        r@ == cs@.subrange(from as int, to as int),
{
    let mut r: Vec<char> = Vec::new();
    let mut i: usize = from;
    while i < to
        invariant
            from <= i <= to <= cs@.len(),
            r@ == cs@.subrange(from as int, i as int),
        decreases to - i,
    {
        r.push(cs[i]);
        assert(cs@.subrange(from as int, i + 1) =~= cs@.subrange(from as int, i as int).push(
            cs@[i as int],
        ));
        i = i + 1;
    }
    r
}

/// The characters without white space at either end.
pub fn trim_chars(cs: &Vec<char>) -> (r: Vec<char>)
    ensures
        r@ == trim(cs@),
{
    let mut a: usize = 0;
    assert(cs@.skip(0) =~= cs@);
    while a < cs.len() && space_char(cs[a])
        invariant
            a <= cs@.len(),
            trim_start(cs@) == trim_start(cs@.skip(a as int)),
        decreases cs@.len() - a,
    {
        assert(cs@.skip(a as int).drop_first() =~= cs@.skip(a + 1));
        a = a + 1;
    }
    let mut b: usize = cs.len();
    assert(cs@.subrange(a as int, b as int) =~= cs@.skip(a as int));
    while a < b && space_char(cs[b - 1])
        invariant
            a <= b <= cs@.len(),
            trim(cs@) == trim_end(cs@.subrange(a as int, b as int)),
        decreases b,
    {
        assert(cs@.subrange(a as int, b as int).drop_last() =~= cs@.subrange(a as int, b - 1));
        b = b - 1;
    }
    part_of(cs, a, b)
}

/// The text without white space at either end.
pub fn trimmed(s: &str) -> (r: String)
    ensures
        r@ == trim(s@),
{
    let cs = chars_of(s);
    string_of(trim_chars(&cs).as_slice())
}

/// The characters without any trailing `c`.
pub fn drop_trailing(cs: &Vec<char>, c: char) -> (r: Vec<char>)
    ensures
        r@ == without_trailing(cs@, c),
{
    let mut b: usize = cs.len();
    assert(cs@.subrange(0, b as int) =~= cs@);
    while b > 0 && cs[b - 1] == c
        invariant
            b <= cs@.len(),
            without_trailing(cs@, c) == without_trailing(cs@.subrange(0, b as int), c),
        decreases b,
    {
        assert(cs@.subrange(0, b as int).drop_last() =~= cs@.subrange(0, b - 1));
        b = b - 1;
    }
    part_of(cs, 0, b)
}

/// Whether `p` stands in `cs` at `at`.
fn stands_at(cs: &Vec<char>, at: usize, p: &Vec<char>) -> (r: bool)
    requires
        at + p@.len() <= cs@.len(),
    ensures
        r == (cs@.subrange(at as int, at + p@.len()) == p@),
{
    let n: usize = cs.len();
    let mut i: usize = 0;
    while i < p.len()
        invariant
            i <= p@.len(),
            n == cs@.len(),
            at + p@.len() <= n,
            forall|k: int| 0 <= k < i ==> cs@[at + k] == #[trigger] p@[k],
        decreases p@.len() - i,
    {
        if cs[at + i] != p[i] {
            assert(cs@.subrange(at as int, at + p@.len())[i as int] != p@[i as int]);
            return false;
        }
        i = i + 1;
    }
    assert(cs@.subrange(at as int, at + p@.len()) =~= p@);
    true
}

/// Whether the characters begin with `p`.
pub fn begins(cs: &Vec<char>, p: &str) -> (r: bool)
    ensures
        r == starts_with(cs@, p@),
{
    let q = chars_of(p);
    if q.len() > cs.len() {
        return false;
    }
    let r = stands_at(cs, 0, &q);
    assert(cs@.subrange(0, q@.len() as int) =~= cs@.take(q@.len() as int));
    r
}

/// Whether the characters end with `p`.
pub fn ends(cs: &Vec<char>, p: &str) -> (r: bool)
    ensures
        r == ends_with(cs@, p@),
{
    let q = chars_of(p);
    if q.len() > cs.len() {
        return false;
    }
    stands_at(cs, cs.len() - q.len(), &q)
}

/// Whether `p` occurs in the characters.
pub fn holds(cs: &Vec<char>, p: &str) -> (r: bool)
    ensures
        r == occurs_in(p@, cs@),
{
    let q = chars_of(p);
    let mut i: usize = 0;
    while i <= cs.len() && q.len() <= cs.len() - i
        invariant
            q@ == p@,
            i <= cs@.len() + 1,
            forall|k: int|
                0 <= k < i && k + q@.len() <= cs@.len() ==> #[trigger] cs@.subrange(
                    k,
                    k + q@.len(),
                ) != q@,
        decreases cs@.len() + 1 - i,
    {
        if stands_at(cs, i, &q) {
            return true;
        }
        if i == cs.len() {
            return false;
        }
        i = i + 1;
    }
    false
}

/// The place of the last `c`, if there is one.
pub fn find_last(cs: &Vec<char>, c: char) -> (r: Option<usize>)
    ensures
        match r {
            Some(i) => last_place(cs@, c) == i,
            None => last_place(cs@, c) == -1,
        },
{
    let mut i: usize = cs.len();
    while i > 0
        invariant
            i <= cs@.len(),
            forall|k: int| i <= k < cs@.len() ==> cs@[k] != c,
        decreases i,
    {
        if cs[i - 1] == c {
            proof {
                last_place_unique(cs@, c, i - 1);
            }
            return Some(i - 1);
        }
        i = i - 1;
    }
    proof {
        last_place_unique(cs@, c, -1);
    }
    None
}

/// The text of each list of characters.
pub open spec fn pieces(v: Seq<Vec<char>>) -> Seq<Seq<char>> {
    v.map_values(|p: Vec<char>| p@)
}

/// The pieces between the occurrences of `c`.
pub fn split(cs: &Vec<char>, c: char) -> (r: Vec<Vec<char>>)
    ensures
        pieces(r@) == split_on(cs@, c),
        r@.len() > 0,
{
    let mut r: Vec<Vec<char>> = Vec::new();
    let mut cur: Vec<char> = Vec::new();
    let mut i: usize = 0;
    assert(pieces(r@).push(cur@) =~= split_on(cs@.take(0), c)) by {
        assert(cs@.take(0) =~= Seq::empty());
    }
    while i < cs.len()
        invariant
            i <= cs@.len(),
            pieces(r@).push(cur@) == split_on(cs@.take(i as int), c),
        decreases cs@.len() - i,
    {
        let x = cs[i];
        let ghost before = pieces(r@).push(cur@);
        assert(cs@.take(i + 1).drop_last() =~= cs@.take(i as int));
        if x == c {
            let ghost r0 = r@;
            let ghost cur0 = cur@;
            r.push(cur);
            cur = Vec::new();
            assert(pieces(r@) =~= pieces(r0).push(cur0));
            assert(pieces(r@).push(cur@) =~= before.push(Seq::empty()));
        } else {
            let ghost cur0 = cur@;
            cur.push(x);
            assert(pieces(r@).push(cur@) =~= before.update(before.len() - 1, cur0.push(x)));
        }
        i = i + 1;
    }
    assert(cs@.take(i as int) =~= cs@);
    let ghost r0 = r@;
    let ghost cur0 = cur@;
    r.push(cur);
    assert(pieces(r@) =~= pieces(r0).push(cur0));
    r
}

/// The number in decimal notation.
pub fn decimal_string(n: usize) -> (r: String)
    ensures
        r@ == decimal(n as nat),
    decreases n,
{
    let mut r = if n < 10 {
        String::new()
    } else {
        decimal_string(n / 10)
    };
    let d: u8 = (n % 10) as u8;
    let c: char = (d + 0x30) as char;
    r.push(c);
    assert(n < 10 ==> r@ =~= seq![digit(n as nat)]);
    r
}

// ---- what holds of text ----------------------------------------------

/// The capital letters get their small ones, and nothing else changes.
pub proof fn letters_are_lowered(c: char)
    ensures
        forall|i: int|
            0 <= i < 26 ==> lower(#[trigger] "ABCDEFGHIJKLMNOPQRSTUVWXYZ"@[i])
                == "abcdefghijklmnopqrstuvwxyz"@[i],
        !"ABCDEFGHIJKLMNOPQRSTUVWXYZ"@.contains(c) ==> lower(c) == c,
        lower(lower(c)) == lower(c),
{
    reveal_strlit("ABCDEFGHIJKLMNOPQRSTUVWXYZ");
    reveal_strlit("abcdefghijklmnopqrstuvwxyz");
    let a = "ABCDEFGHIJKLMNOPQRSTUVWXYZ"@;
    if 'A' <= c && c <= 'Z' {
        assert(a[c as int - 'A' as int] == c);
        assert(a.contains(c));
    }
}

/// Text in lower case is as long as before, and lowered again it is the same.
pub proof fn text_is_lowered_letter_by_letter(s: Seq<char>)
    ensures
        lower_text(s).len() == s.len(),
        forall|i: int| 0 <= i < s.len() ==> #[trigger] lower_text(s)[i] == lower(s[i]),
        lower_text(lower_text(s)) == lower_text(s),
{
    assert forall|i: int| 0 <= i < s.len() implies #[trigger] lower_text(lower_text(s))[i]
        == lower_text(s)[i] by {
        letters_are_lowered(s[i]);
    }
    assert(lower_text(lower_text(s)) =~= lower_text(s));
}

/// The text is white space throughout.
pub open spec fn blank(s: Seq<char>) -> bool {
    forall|i: int| 0 <= i < s.len() ==> is_space(#[trigger] s[i])
}

/// These characters and no others are white space.
pub proof fn white_space_is_listed(c: char)
    ensures
        is_space(c) <==> seq![
            0x9int,
            0xa,
            0xb,
            0xc,
            0xd,
            0x20,
            0x85,
            0xa0,
            0x1680,
            0x2000,
            0x2001,
            0x2002,
            0x2003,
            0x2004,
            0x2005,
            0x2006,
            0x2007,
            0x2008,
            0x2009,
            0x200a,
            0x2028,
            0x2029,
            0x202f,
            0x205f,
            0x3000,
        ].contains(c as int),
{
    let l = seq![
        0x9int,
        0xa,
        0xb,
        0xc,
        0xd,
        0x20,
        0x85,
        0xa0,
        0x1680,
        0x2000,
        0x2001,
        0x2002,
        0x2003,
        0x2004,
        0x2005,
        0x2006,
        0x2007,
        0x2008,
        0x2009,
        0x200a,
        0x2028,
        0x2029,
        0x202f,
        0x205f,
        0x3000,
    ];
    assert(l[0] == 0x9 && l[1] == 0xa && l[2] == 0xb && l[3] == 0xc && l[4] == 0xd && l[5] == 0x20
        && l[6] == 0x85 && l[7] == 0xa0 && l[8] == 0x1680 && l[9] == 0x2000 && l[10] == 0x2001
        && l[11] == 0x2002 && l[12] == 0x2003 && l[13] == 0x2004 && l[14] == 0x2005 && l[15]
        == 0x2006 && l[16] == 0x2007 && l[17] == 0x2008 && l[18] == 0x2009 && l[19] == 0x200a
        && l[20] == 0x2028 && l[21] == 0x2029 && l[22] == 0x202f && l[23] == 0x205f && l[24]
        == 0x3000);
    if l.contains(c as int) {
        let i = l.index_of(c as int);
        assert(0 <= i < 25 && l[i] == c as int);
    }
}

/// White space is taken off at the start: what is taken off is blank, and what
/// is left begins with something else.
pub proof fn start_is_trimmed(s: Seq<char>)
    ensures
        trim_start(s).len() <= s.len(),
        blank(s.take(s.len() - trim_start(s).len())),
        s.skip(s.len() - trim_start(s).len()) == trim_start(s),
        trim_start(s).len() > 0 ==> !is_space(trim_start(s)[0]),
    decreases s.len(),
{
    if s.len() > 0 && is_space(s[0]) {
        let t = s.drop_first();
        start_is_trimmed(t);
        let k = s.len() - trim_start(s).len();
        assert(s.skip(k) =~= t.skip(k - 1));
        assert forall|i: int| 0 <= i < k implies is_space(#[trigger] s.take(k)[i]) by {
            if i > 0 {
                assert(t.take(k - 1)[i - 1] == s[i]);
            }
        }
    } else {
        assert(s.skip(0) =~= s);
    }
}

/// White space is taken off at the end: what is taken off is blank, and what is
/// left ends with something else.
pub proof fn end_is_trimmed(s: Seq<char>)
    ensures
        trim_end(s).len() <= s.len(),
        s.take(trim_end(s).len() as int) == trim_end(s),
        blank(s.skip(trim_end(s).len() as int)),
        trim_end(s).len() > 0 ==> !is_space(trim_end(s).last()),
    decreases s.len(),
{
    if s.len() > 0 && is_space(s.last()) {
        let t = s.drop_last();
        end_is_trimmed(t);
        let k = trim_end(s).len() as int;
        assert(s.take(k) =~= t.take(k));
        assert forall|i: int| 0 <= i < s.len() - k implies is_space(#[trigger] s.skip(k)[i]) by {
            if i < t.len() - k {
                assert(t.skip(k)[i] == s[k + i]);
            }
        }
    } else {
        assert(s.take(s.len() as int) =~= s);
    }
}

/// Text is what is left of it between two blanks, and what is left neither
/// begins nor ends with white space.
pub proof fn text_is_trimmed(s: Seq<char>)
    ensures
        exists|a: Seq<char>, b: Seq<char>| #[trigger]
            (a + trim(s) + b) == s && blank(a) && blank(b),
        trim(s).len() > 0 ==> !is_space(trim(s)[0]) && !is_space(trim(s).last()),
        trim(trim(s)) == trim(s),
{
    let m = trim_start(s);
    let t = trim(s);
    start_is_trimmed(s);
    end_is_trimmed(m);
    let a = s.take(s.len() - m.len());
    let b = m.skip(t.len() as int);
    assert(a + t + b =~= s) by {
        assert(s =~= a + m);
        assert(m =~= t + b);
    }
    if t.len() > 0 {
        assert(t[0] == m[0]);
    }
    start_is_trimmed(t);
    end_is_trimmed(t);
}

/// What is taken off the end is that character only, and all of it.
pub proof fn trailing_is_taken_off(s: Seq<char>, c: char)
    ensures
        without_trailing(s, c).len() <= s.len(),
        s.take(without_trailing(s, c).len() as int) == without_trailing(s, c),
        forall|i: int| without_trailing(s, c).len() <= i < s.len() ==> #[trigger] s[i] == c,
        without_trailing(s, c).len() > 0 ==> without_trailing(s, c).last() != c,
    decreases s.len(),
{
    if s.len() > 0 && s.last() == c {
        let t = s.drop_last();
        trailing_is_taken_off(t, c);
        let k = without_trailing(s, c).len() as int;
        assert(s.take(k) =~= t.take(k));
        assert forall|i: int| k <= i < s.len() implies #[trigger] s[i] == c by {
            if i < t.len() {
                assert(t[i] == s[i]);
            }
        }
    } else {
        assert(s.take(s.len() as int) =~= s);
    }
}

/// Pieces with a character between every two.
pub open spec fn put_together(parts: Seq<Seq<char>>, c: char) -> Seq<char>
    decreases parts.len(),
{
    if parts.len() == 0 {
        Seq::empty()
    } else if parts.len() == 1 {
        parts[0]
    } else {
        put_together(parts.drop_last(), c).push(c) + parts.last()
    }
}

/// The pieces put together again are the text, and none of them holds the
/// character.
pub proof fn pieces_are_put_together(s: Seq<char>, c: char)
    ensures
        put_together(split_on(s, c), c) == s,
        forall|i: int, j: int|
            0 <= i < split_on(s, c).len() && 0 <= j < split_on(s, c)[i].len() ==> #[trigger]
            split_on(s, c)[i][j] != c,
        split_on(s, c).len() > 0,
    decreases s.len(),
{
    let all = split_on(s, c);
    if s.len() == 0 {
        assert(put_together(all, c) =~= s);
    } else {
        let front = s.drop_last();
        let before = split_on(front, c);
        pieces_are_put_together(front, c);
        if s.last() == c {
            assert(all.drop_last() =~= before);
            assert(all.len() >= 2);
            assert(put_together(all, c) =~= front.push(c) + Seq::empty());
            assert(put_together(all, c) =~= s);
            assert forall|i: int, j: int|
                0 <= i < all.len() && 0 <= j < all[i].len() implies #[trigger] all[i][j] != c by {
                assert(all[i] == before[i]);
                assert(before[i][j] != c);
            }
        } else {
            let n = before.len() - 1;
            assert(all.drop_last() =~= before.drop_last());
            if n == 0 {
                assert(put_together(all, c) =~= before[0].push(s.last()));
                assert(put_together(before, c) == before[0]);
            } else {
                let head = put_together(before.drop_last(), c).push(c);
                assert(put_together(all, c) =~= (head + before.last()).push(s.last()));
            }
            assert(front.push(s.last()) =~= s);
            assert forall|i: int, j: int|
                0 <= i < all.len() && 0 <= j < all[i].len() implies #[trigger] all[i][j] != c by {
                if i < n {
                    assert(before[i][j] != c);
                } else if j < before[n].len() {
                    assert(before[n][j] != c);
                }
            }
        }
    }
}

/// A number in decimal notation reads back as the number, is made of digits,
/// and begins with zero only where it is zero.
pub proof fn decimals_read_back(n: nat)
    ensures
        decimal(n).len() > 0,
        decimal(n).fold_left(0int, |v: int, c: char| v * 10 + (c as int - '0' as int)) == n,
        forall|i: int| 0 <= i < decimal(n).len() ==> '0' <= #[trigger] decimal(n)[i] <= '9',
        n > 0 ==> decimal(n)[0] != '0',
        n == 0 ==> decimal(n) == seq!['0'],
    decreases n,
{
    let f = |v: int, c: char| v * 10 + (c as int - '0' as int);
    let all = decimal(n);
    if n < 10 {
        reveal_with_fuel(Seq::fold_left, 2);
        assert(all.drop_last() =~= Seq::empty());
        assert(all.fold_left(0int, f) == f(0, all[0]));
    } else {
        let before = decimal(n / 10);
        decimals_read_back(n / 10);
        assert(all.drop_last() =~= before);
        assert(all.fold_left(0int, f) == f(before.fold_left(0int, f), all.last()));
        assert forall|i: int| 0 <= i < all.len() implies '0' <= #[trigger] all[i] <= '9' by {
            if i < before.len() {
                assert(all[i] == before[i]);
            }
        }
        assert(all[0] == before[0]);
    }
}

} // verus!
