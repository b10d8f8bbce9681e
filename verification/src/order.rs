//! The order in which text is kept.
//!
//! Paths, addresses and shas are sorted the way `str` sorts: by the bytes of
//! their UTF-8 encoding, lexicographically. The encoding is injective, so the
//! order is a strict total order on text.

use vstd::prelude::*;

verus! {

/// Lexicographic order on byte strings: a proper prefix comes first, otherwise
/// the first differing byte decides.
pub open spec fn bytes_less(a: Seq<u8>, b: Seq<u8>) -> bool
    decreases a.len(),
{
    if b.len() == 0 {
        false
    } else if a.len() == 0 {
        true
    } else if a[0] != b[0] {
        a[0] < b[0]
    } else {
        bytes_less(a.drop_first(), b.drop_first())
    }
}

/// The order of text: that of its encoded bytes.
pub open spec fn text_less(a: Seq<char>, b: Seq<char>) -> bool {
    bytes_less(vstd::utf8::encode_utf8(a), vstd::utf8::encode_utf8(b))
}

/// `text_less` or equal.
pub open spec fn text_leq(a: Seq<char>, b: Seq<char>) -> bool {
    a == b || text_less(a, b)
}

proof fn lemma_bytes_irreflexive(a: Seq<u8>)
    ensures
        !bytes_less(a, a),
    decreases a.len(),
{
    if a.len() > 0 {
        lemma_bytes_irreflexive(a.drop_first());
    }
}

proof fn lemma_bytes_transitive(a: Seq<u8>, b: Seq<u8>, c: Seq<u8>)
    requires
        bytes_less(a, b),
        bytes_less(b, c),
    ensures
        bytes_less(a, c),
    decreases a.len(),
{
    if a.len() > 0 && a[0] == b[0] && b[0] == c[0] {
        lemma_bytes_transitive(a.drop_first(), b.drop_first(), c.drop_first());
    }
}

proof fn lemma_bytes_total(a: Seq<u8>, b: Seq<u8>)
    ensures
        a == b || bytes_less(a, b) || bytes_less(b, a),
    decreases a.len(),
{
    if a.len() > 0 && b.len() > 0 && a[0] == b[0] {
        lemma_bytes_total(a.drop_first(), b.drop_first());
        if a.drop_first() == b.drop_first() {
            assert(a =~= seq![a[0]] + a.drop_first());
            assert(b =~= seq![b[0]] + b.drop_first());
        }
    } else if a.len() == 0 && b.len() == 0 {
        assert(a =~= b);
    }
}

/// Text never precedes itself.
pub proof fn text_less_irreflexive(a: Seq<char>)
    ensures
        !text_less(a, a),
{
    lemma_bytes_irreflexive(vstd::utf8::encode_utf8(a));
}

/// The order of text is transitive.
pub proof fn text_less_transitive(a: Seq<char>, b: Seq<char>, c: Seq<char>)
    requires
        text_less(a, b),
        text_less(b, c),
    ensures
        text_less(a, c),
{
    lemma_bytes_transitive(
        vstd::utf8::encode_utf8(a),
        vstd::utf8::encode_utf8(b),
        vstd::utf8::encode_utf8(c),
    );
}

/// Of two different texts, one precedes the other.
pub proof fn text_less_total(a: Seq<char>, b: Seq<char>)
    ensures
        a == b || text_less(a, b) || text_less(b, a),
{
    lemma_bytes_total(vstd::utf8::encode_utf8(a), vstd::utf8::encode_utf8(b));
    lemma_encoding_injective(a, b);
}

/// Different texts have different encodings.
proof fn lemma_encoding_injective(a: Seq<char>, b: Seq<char>)
    ensures
        vstd::utf8::encode_utf8(a) == vstd::utf8::encode_utf8(b) ==> a == b,
{
    vstd::utf8::encode_utf8_decode_utf8(a);
    vstd::utf8::encode_utf8_decode_utf8(b);
}

/// Whether `a` comes before `b`.
pub fn comes_before(a: &str, b: &str) -> (r: bool)
    ensures
        r == text_less(a@, b@),
{
    let x = a.as_bytes();
    let y = b.as_bytes();
    let mut i: usize = 0;
    proof {
        assert(x@.skip(0) =~= x@);
        assert(y@.skip(0) =~= y@);
    }
    while i < x.len() && i < y.len()
        invariant
            i <= x@.len(),
            i <= y@.len(),
            x@ == vstd::utf8::encode_utf8(a@),
            y@ == vstd::utf8::encode_utf8(b@),
            text_less(a@, b@) == bytes_less(x@.skip(i as int), y@.skip(i as int)),
        decreases x@.len() - i,
    {
        if x[i] != y[i] {
            return x[i] < y[i];
        }
        proof {
            assert(x@.skip(i as int).drop_first() =~= x@.skip(i + 1));
            assert(y@.skip(i as int).drop_first() =~= y@.skip(i + 1));
        }
        i = i + 1;
    }
    i < y.len()
}

/// Whether `a` and `b` hold the same text.
pub fn same_text(a: &str, b: &str) -> (r: bool)
    ensures
        r == (a@ == b@),
{
    let x = a.as_bytes();
    let y = b.as_bytes();
    proof {
        lemma_encoding_injective(a@, b@);
    }
    if x.len() != y.len() {
        return false;
    }
    let mut i: usize = 0;
    while i < x.len()
        invariant
            i <= x@.len(),
            x@.len() == y@.len(),
            x@ == vstd::utf8::encode_utf8(a@),
            y@ == vstd::utf8::encode_utf8(b@),
            forall|k: int| 0 <= k < i ==> x@[k] == y@[k],
        decreases x@.len() - i,
    {
        if x[i] != y[i] {
            return false;
        }
        i = i + 1;
    }
    assert(x@ =~= y@);
    true
}

/// Bytes are compared at the first place where they differ, and what ends first
/// is less.
pub proof fn first_difference_decides(a: Seq<u8>, x: Seq<u8>, y: Seq<u8>)
    ensures
        bytes_less(a + x, a + y) <==> bytes_less(x, y),
        x.len() > 0 && y.len() > 0 && x[0] != y[0] ==> (bytes_less(a + x, a + y) <==> x[0] < y[0]),
        x.len() > 0 ==> bytes_less(a, a + x) && !bytes_less(a + x, a),
    decreases a.len(),
{
    let e = Seq::<u8>::empty();
    if a.len() == 0 {
        assert(a + x =~= x);
        assert(a + y =~= y);
        assert(a =~= e);
    } else {
        let t = a.drop_first();
        first_difference_decides(t, x, y);
        assert((a + x).drop_first() =~= t + x);
        assert((a + y).drop_first() =~= t + y);
        assert((a + x)[0] == a[0] && (a + y)[0] == a[0]);
    }
}

/// Text is ordered by its encoding in bytes.
pub proof fn text_is_ordered_by_its_bytes(a: Seq<char>, b: Seq<char>)
    ensures
        text_less(a, b) <==> bytes_less(
            vstd::utf8::encode_utf8(a),
            vstd::utf8::encode_utf8(b),
        ),
        text_leq(a, b) <==> a == b || text_less(a, b),
{
}

} // verus!
