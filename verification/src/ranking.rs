//! Stable sorting.
//!
//! Every list that leaves the library in an order is put into it here. Items
//! that tie keep the order in which they came.

use vstd::prelude::*;

verus! {

/// `s` with `x` in front of the first item that it may precede.
pub open spec fn placed<T>(s: Seq<T>, x: T, leq: spec_fn(T, T) -> bool) -> Seq<T>
    decreases s.len(),
{
    if s.len() == 0 {
        seq![x]
    } else if leq(x, s[0]) {
        seq![x] + s
    } else {
        seq![s[0]] + placed(s.drop_first(), x, leq)
    }
}

/// The items of `s` in the order of `leq`, ties in the order in which they
/// came.
pub open spec fn ranked<T>(s: Seq<T>, leq: spec_fn(T, T) -> bool) -> Seq<T>
    decreases s.len(),
{
    if s.len() == 0 {
        s
    } else {
        placed(ranked(s.drop_first(), leq), s[0], leq)
    }
}

/// No item has to stand before an earlier one.
pub open spec fn ordered<T>(s: Seq<T>, leq: spec_fn(T, T) -> bool) -> bool {
    forall|i: int, j: int| #![trigger s[i], s[j]] 0 <= i < j < s.len() ==> leq(s[i], s[j])
}

/// `leq` compares every two items and is transitive.
pub open spec fn total_preorder<T>(leq: spec_fn(T, T) -> bool) -> bool {
    &&& forall|x: T, y: T| #![trigger leq(x, y)] leq(x, y) || leq(y, x)
    &&& forall|x: T, y: T, z: T|
        #![trigger leq(x, y), leq(y, z)]
        leq(x, y) && leq(y, z) ==> leq(x, z)
}

/// The items of `s` that tie with `x`.
pub open spec fn tied<T>(s: Seq<T>, x: T, leq: spec_fn(T, T) -> bool) -> Seq<T> {
    s.filter(|y: T| leq(x, y) && leq(y, x))
}

proof fn lemma_placed_is_insert<T>(s: Seq<T>, x: T, leq: spec_fn(T, T) -> bool, k: int)
    requires
        0 <= k <= s.len(),
        forall|i: int| 0 <= i < k ==> !leq(x, #[trigger] s[i]),
        k < s.len() ==> leq(x, s[k]),
    ensures
        placed(s, x, leq) == s.insert(k, x),
    decreases s.len(),
{
    if s.len() == 0 {
        assert(s.insert(k, x) =~= seq![x]);
    } else if leq(x, s[0]) {
        assert(k == 0);
        assert(s.insert(0, x) =~= seq![x] + s);
    } else {
        let t = s.drop_first();
        assert forall|i: int| 0 <= i < k - 1 implies !leq(x, #[trigger] t[i]) by {
            assert(t[i] == s[i + 1]);
        }
        lemma_placed_is_insert(t, x, leq, k - 1);
        assert(s.insert(k, x) =~= seq![s[0]] + t.insert(k - 1, x));
    }
}

proof fn lemma_placed_place<T>(s: Seq<T>, x: T, leq: spec_fn(T, T) -> bool) -> (k: int)
    ensures
        0 <= k <= s.len(),
        forall|i: int| 0 <= i < k ==> !leq(x, #[trigger] s[i]),
        k < s.len() ==> leq(x, s[k]),
        placed(s, x, leq) == s.insert(k, x),
    decreases s.len(),
{
    let k = if s.len() == 0 || leq(x, s[0]) {
        0
    } else {
        let j = lemma_placed_place(s.drop_first(), x, leq);
        assert forall|i: int| 0 <= i < j + 1 implies !leq(x, #[trigger] s[i]) by {
            if i > 0 {
                assert(s[i] == s.drop_first()[i - 1]);
            }
        }
        j + 1
    };
    lemma_placed_is_insert(s, x, leq, k);
    k
}

/// A ranked list is in order.
pub proof fn ranked_is_ordered<T>(s: Seq<T>, leq: spec_fn(T, T) -> bool)
    requires
        total_preorder(leq),
    ensures
        ordered(ranked(s, leq), leq),
    decreases s.len(),
{
    if s.len() > 0 {
        let t = ranked(s.drop_first(), leq);
        ranked_is_ordered(s.drop_first(), leq);
        let k = lemma_placed_place(t, s[0], leq);
        let r = t.insert(k, s[0]);
        assert forall|i: int, j: int| 0 <= i < j < r.len() implies leq(
            #[trigger] r[i],
            #[trigger] r[j],
        ) by {
            if i < k {
                assert(!leq(s[0], t[i]));
            }
            if j == k {
            } else if i == k {
                assert(leq(s[0], t[k]));
                assert(r[j] == t[j - 1]);
                if j - 1 > k {
                    assert(leq(t[k], t[j - 1]));
                }
            } else {
                let a = if i < k { i } else { i - 1 };
                let b = if j < k { j } else { j - 1 };
                assert(leq(t[a], t[b]));
            }
        }
    }
}

/// A ranked list holds the items of the list, each as often.
pub proof fn ranked_keeps_items<T>(s: Seq<T>, leq: spec_fn(T, T) -> bool)
    ensures
        ranked(s, leq).to_multiset() == s.to_multiset(),
        ranked(s, leq).len() == s.len(),
    decreases s.len(),
{
    broadcast use vstd::seq_lib::group_to_multiset_ensures;

    if s.len() > 0 {
        let t = ranked(s.drop_first(), leq);
        ranked_keeps_items(s.drop_first(), leq);
        let k = lemma_placed_place(t, s[0], leq);
        vstd::seq_lib::to_multiset_insert(t, k, s[0]);
        assert(s =~= s.drop_first().insert(0, s[0]));
        vstd::seq_lib::to_multiset_insert(s.drop_first(), 0, s[0]);
    }
}

/// What is in a list is in its ranking, and nothing else is.
pub proof fn ranked_same_members<T>(s: Seq<T>, leq: spec_fn(T, T) -> bool, x: T)
    ensures
        ranked(s, leq).contains(x) <==> s.contains(x),
{
    broadcast use vstd::seq_lib::group_to_multiset_ensures;

    ranked_keeps_items(s, leq);
    assert(ranked(s, leq).to_multiset().count(x) == s.to_multiset().count(x));
}

proof fn lemma_filter_concat<T>(a: Seq<T>, b: Seq<T>, p: spec_fn(T) -> bool)
    ensures
        (a + b).filter(p) == a.filter(p) + b.filter(p),
{
    Seq::filter_distributes_over_add(a, b, p);
}

/// Ranking keeps ties in the order in which they came.
pub proof fn ranked_keeps_ties<T>(s: Seq<T>, leq: spec_fn(T, T) -> bool, x: T)
    requires
        total_preorder(leq),
    ensures
        tied(ranked(s, leq), x, leq) == tied(s, x, leq),
    decreases s.len(),
{
    if s.len() > 0 {
        let p = |y: T| leq(x, y) && leq(y, x);
        let h = s[0];
        let t = ranked(s.drop_first(), leq);
        ranked_keeps_ties(s.drop_first(), leq, x);
        let k = lemma_placed_place(t, h, leq);
        assert(t.insert(k, h) =~= t.take(k) + seq![h] + t.skip(k));
        lemma_filter_concat(t.take(k) + seq![h], t.skip(k), p);
        lemma_filter_concat(t.take(k), seq![h], p);
        assert(t =~= t.take(k) + t.skip(k));
        lemma_filter_concat(t.take(k), t.skip(k), p);
        assert(s =~= seq![h] + s.drop_first());
        lemma_filter_concat(seq![h], s.drop_first(), p);
        reveal_with_fuel(Seq::filter, 2);
        assert(seq![h].drop_last() =~= Seq::<T>::empty());
        if p(h) {
            // nothing before the place of `h` ties with it
            assert forall|i: int| 0 <= i < k implies !p(#[trigger] t.take(k)[i]) by {
                assert(!leq(h, t[i]));
                if p(t[i]) {
                    assert(leq(h, x) && leq(x, t[i]));
                }
            }
            lemma_filter_none(t.take(k), p);
        }
        assert(tied(ranked(s, leq), x, leq) =~= tied(s, x, leq));
    }
}

proof fn lemma_filter_none<T>(s: Seq<T>, p: spec_fn(T) -> bool)
    requires
        forall|i: int| 0 <= i < s.len() ==> !p(#[trigger] s[i]),
    ensures
        s.filter(p) == Seq::<T>::empty(),
    decreases s.len(),
{
    reveal(Seq::filter);
    if s.len() > 0 {
        assert forall|i: int| 0 <= i < s.len() - 1 implies !p(#[trigger] s.drop_last()[i]) by {
            assert(s.drop_last()[i] == s[i]);
        }
        lemma_filter_none(s.drop_last(), p);
    }
}

/// A list that is already in order stays as it is.
pub proof fn ranked_of_ordered<T>(s: Seq<T>, leq: spec_fn(T, T) -> bool)
    requires
        ordered(s, leq),
    ensures
        ranked(s, leq) == s,
    decreases s.len(),
{
    if s.len() > 0 {
        let t = s.drop_first();
        assert(ordered(t, leq)) by {
            assert forall|i: int, j: int| 0 <= i < j < t.len() implies leq(
                #[trigger] t[i],
                #[trigger] t[j],
            ) by {
                assert(t[i] == s[i + 1] && t[j] == s[j + 1]);
            }
        }
        ranked_of_ordered(t, leq);
        if t.len() > 0 {
            assert(t[0] == s[1]);
            assert(leq(s[0], s[1]));
        }
        assert(seq![s[0]] + t =~= s);
    }
}

/// Ranking by a property of the items is ranking the properties.
pub proof fn ranked_map<T, K>(
    s: Seq<T>,
    leq: spec_fn(T, T) -> bool,
    f: spec_fn(T) -> K,
    key_leq: spec_fn(K, K) -> bool,
)
    requires
        forall|x: T, y: T| #![trigger leq(x, y)] leq(x, y) == key_leq(f(x), f(y)),
    ensures
        ranked(s, leq).map_values(f) == ranked(s.map_values(f), key_leq),
    decreases s.len(),
{
    if s.len() == 0 {
        assert(ranked(s, leq).map_values(f) =~= ranked(s.map_values(f), key_leq));
    } else {
        let t = ranked(s.drop_first(), leq);
        ranked_map(s.drop_first(), leq, f, key_leq);
        assert(s.map_values(f).drop_first() =~= s.drop_first().map_values(f));
        let k = lemma_placed_place(t, s[0], leq);
        let u = t.map_values(f);
        assert forall|i: int| 0 <= i < k implies !key_leq(f(s[0]), #[trigger] u[i]) by {
            assert(!leq(s[0], t[i]));
        }
        if k < t.len() {
            assert(leq(s[0], t[k]));
        }
        lemma_placed_is_insert(u, f(s[0]), key_leq, k);
        assert(t.insert(k, s[0]).map_values(f) =~= u.insert(k, f(s[0])));
    }
}

/// Ranking leaves a property distinct that was distinct.
pub proof fn ranked_keeps_distinct<T, K>(
    s: Seq<T>,
    leq: spec_fn(T, T) -> bool,
    f: spec_fn(T) -> K,
)
    requires
        s.map_values(f).no_duplicates(),
    ensures
        ranked(s, leq).map_values(f).no_duplicates(),
    decreases s.len(),
{
    if s.len() > 0 {
        let rest = s.drop_first();
        let t = ranked(rest, leq);
        let fs = s.map_values(f);
        assert(rest.map_values(f) =~= fs.drop_first());
        ranked_keeps_distinct(rest, leq, f);
        let k = lemma_placed_place(t, s[0], leq);
        let r = t.insert(k, s[0]);
        let u = t.map_values(f);
        assert forall|i: int| 0 <= i < t.len() implies f(#[trigger] t[i]) != f(s[0]) by {
            ranked_same_members(rest, leq, t[i]);
            assert(t.contains(t[i]));
            let j = choose|j: int| 0 <= j < rest.len() && rest[j] == t[i];
            assert(fs[j + 1] == f(t[i]));
            assert(fs[0] == f(s[0]));
        }
        assert forall|i: int, j: int|
            0 <= i < r.len() && 0 <= j < r.len() && i != j implies r.map_values(f)[i]
            != r.map_values(f)[j] by {
            if i != k && j != k {
                let a = if i < k { i } else { i - 1 };
                let b = if j < k { j } else { j - 1 };
                assert(u[a] != u[b]);
            }
        }
    }
}

/// Every item has to stand before the later ones.
pub open spec fn strictly_ordered<T>(s: Seq<T>, less: spec_fn(T, T) -> bool) -> bool {
    forall|i: int, j: int| #![trigger s[i], s[j]] 0 <= i < j < s.len() ==> less(s[i], s[j])
}

/// `less` never runs in a circle.
pub open spec fn strict_order<T>(less: spec_fn(T, T) -> bool) -> bool {
    &&& forall|x: T| !#[trigger] less(x, x)
    &&& forall|x: T, y: T, z: T|
        #![trigger less(x, y), less(y, z)]
        less(x, y) && less(y, z) ==> less(x, z)
}

/// Strictly ordered lists with the same items are the same list.
pub proof fn strict_listing_unique<T>(a: Seq<T>, b: Seq<T>, less: spec_fn(T, T) -> bool)
    requires
        strict_order(less),
        strictly_ordered(a, less),
        strictly_ordered(b, less),
        forall|x: T| #[trigger] a.contains(x) <==> b.contains(x),
    ensures
        a == b,
    decreases a.len(),
{
    if a.len() == 0 {
        if b.len() > 0 {
            assert(b.contains(b[0]));
            assert(a.contains(b[0]));
        }
        assert(a =~= b);
    } else {
        assert(a.contains(a[0]));
        assert(b.contains(a[0]));
        let j = choose|j: int| 0 <= j < b.len() && b[j] == a[0];
        assert(b.contains(b[0]));
        assert(a.contains(b[0]));
        let i = choose|i: int| 0 <= i < a.len() && a[i] == b[0];
        if i > 0 && j > 0 {
            assert(less(a[0], a[i]));
            assert(less(b[0], b[j]));
        }
        assert(a[0] == b[0]);
        let x = a.drop_first();
        let y = b.drop_first();
        assert(strictly_ordered(x, less)) by {
            assert forall|p: int, q: int| 0 <= p < q < x.len() implies less(
                #[trigger] x[p],
                #[trigger] x[q],
            ) by {
                assert(less(a[p + 1], a[q + 1]));
            }
        }
        assert(strictly_ordered(y, less)) by {
            assert forall|p: int, q: int| 0 <= p < q < y.len() implies less(
                #[trigger] y[p],
                #[trigger] y[q],
            ) by {
                assert(less(b[p + 1], b[q + 1]));
            }
        }
        assert forall|f: T| #[trigger] x.contains(f) <==> y.contains(f) by {
            assert(!less(a[0], a[0]));
            if x.contains(f) {
                let p = choose|p: int| 0 <= p < x.len() && x[p] == f;
                assert(a[p + 1] == f);
                assert(less(a[0], a[p + 1]));
                assert(a.contains(f));
                assert(b.contains(f));
                let q = choose|q: int| 0 <= q < b.len() && b[q] == f;
                assert(y[q - 1] == f);
            }
            if y.contains(f) {
                let p = choose|p: int| 0 <= p < y.len() && y[p] == f;
                assert(b[p + 1] == f);
                assert(less(b[0], b[p + 1]));
                assert(b.contains(f));
                assert(a.contains(f));
                let q = choose|q: int| 0 <= q < a.len() && a[q] == f;
                assert(x[q - 1] == f);
            }
        }
        strict_listing_unique(x, y, less);
        assert(a =~= seq![a[0]] + x);
        assert(b =~= seq![b[0]] + y);
    }
}

/// A list of as many distinct numbers as there are below `n` holds all of them.
pub proof fn distinct_numbers_are_all(s: Seq<int>, n: nat)
    requires
        s.no_duplicates(),
        s.len() == n,
        forall|i: int| 0 <= i < s.len() ==> 0 <= #[trigger] s[i] < n,
    ensures
        forall|x: int| 0 <= x < n ==> s.contains(x),
{
    let range = vstd::set_lib::set_int_range(0, n as int);
    vstd::set_lib::lemma_int_range(0, n as int);
    s.unique_seq_to_set();
    vstd::seq_lib::seq_to_set_is_finite(s);
    assert(s.to_set().subset_of(range)) by {
        assert forall|x: int| #[trigger] s.to_set().contains(x) implies range.contains(x) by {
            let i = choose|i: int| 0 <= i < s.len() && s[i] == x;
        }
    }
    vstd::set_lib::lemma_subset_equality(s.to_set(), range);
    assert forall|x: int| 0 <= x < n implies s.contains(x) by {
        assert(range.contains(x));
        assert(s.to_set().contains(x));
    }
}

/// Items with an order of their own.
pub trait Ranked: Sized {
    /// `self` may stand before `other`.
    spec fn leq(self, other: Self) -> bool;

    /// Any two items compare, and the order is transitive.
    proof fn leq_total_preorder()
        ensures
            forall|x: Self, y: Self| #![trigger x.leq(y)] x.leq(y) || y.leq(x),
            forall|x: Self, y: Self, z: Self|
                #![trigger x.leq(y), y.leq(z)]
                x.leq(y) && y.leq(z) ==> x.leq(z),
    ;

    /// Whether `self` may stand before `other`.
    fn at_most(&self, other: &Self) -> (r: bool)
        ensures
            r == self.leq(*other),
    ;
}

/// The order of the items as a function.
pub open spec fn by_rank<T: Ranked>() -> spec_fn(T, T) -> bool {
    |x: T, y: T| x.leq(y)
}

/// The order of ranked items compares everything and is transitive.
pub proof fn by_rank_is_total_preorder<T: Ranked>()
    ensures
        total_preorder(by_rank::<T>()),
{
    T::leq_total_preorder();
    let leq = by_rank::<T>();
    assert forall|x: T, y: T| #[trigger] leq(x, y) || leq(y, x) by {
        assert(x.leq(y) || y.leq(x));
    }
    assert forall|x: T, y: T, z: T| #[trigger] leq(x, y) && #[trigger] leq(y, z) implies leq(
        x,
        z,
    ) by {
        assert(x.leq(y) && y.leq(z));
    }
}

/// The items in their order, ties as they came.
pub fn sort_stable<T: Ranked>(items: Vec<T>) -> (r: Vec<T>)
    ensures
        r@ == ranked(items@, by_rank::<T>()),
        r@.len() == items@.len(),
{
    let ghost all = items@;
    let ghost leq = by_rank::<T>();
    let mut rest = items;
    let mut r: Vec<T> = Vec::new();
    proof {
        by_rank_is_total_preorder::<T>();
        assert(all.skip(all.len() as int) =~= Seq::<T>::empty());
        assert(all.take(all.len() as int) =~= all);
    }
    while rest.len() > 0
        invariant
            leq == by_rank::<T>(),
            total_preorder(leq),
            rest@.len() <= all.len(),
            rest@ == all.take(rest@.len() as int),
            r@ == ranked(all.skip(rest@.len() as int), leq),
        decreases rest@.len(),
    {
        let ghost n = rest@.len() - 1;
        let x = rest.pop().unwrap();
        proof {
            assert(rest@ =~= all.take(n));
            assert(x == all[n]);
            ranked_is_ordered(all.skip(n + 1), leq);
        }
        let k = place_of(&r, &x);
        proof {
            assert(all.skip(n).drop_first() =~= all.skip(n + 1));
            assert(all.skip(n)[0] == x);
            lemma_placed_is_insert(r@, x, leq, k as int);
        }
        r.insert(k, x);
    }
    proof {
        assert(all.skip(0) =~= all);
        ranked_keeps_items(all, leq);
    }
    r
}

/// The first place whose item `x` may precede.
fn place_of<T: Ranked>(r: &Vec<T>, x: &T) -> (k: usize)
    requires
        ordered(r@, by_rank::<T>()),
    ensures
        k <= r@.len(),
        forall|i: int| 0 <= i < k ==> !by_rank::<T>()(*x, #[trigger] r@[i]),
        k < r@.len() ==> by_rank::<T>()(*x, r@[k as int]),
{
    let mut lo: usize = 0;
    let mut hi: usize = r.len();
    while lo < hi
        invariant
            lo <= hi <= r@.len(),
            ordered(r@, by_rank::<T>()),
            forall|i: int| 0 <= i < lo ==> !x.leq(#[trigger] r@[i]),
            hi < r@.len() ==> x.leq(r@[hi as int]),
        decreases hi - lo,
    {
        let mid: usize = lo + (hi - lo) / 2;
        if x.at_most(&r[mid]) {
            hi = mid;
        } else {
            proof {
                T::leq_total_preorder();
                assert forall|i: int| 0 <= i < mid + 1 implies !x.leq(#[trigger] r@[i]) by {
                    if i < mid {
                        assert(by_rank::<T>()(r@[i], r@[mid as int]));
                        assert(r@[i].leq(r@[mid as int]));
                    }
                }
            }
            lo = mid + 1;
        }
    }
    lo
}

/// The items back to front.
pub fn reversed<T>(v: Vec<T>) -> (r: Vec<T>)
    ensures
        r@ == v@.reverse(),
{
    let ghost all = v@;
    let mut v = v;
    let mut r: Vec<T> = Vec::new();
    while v.len() > 0
        invariant
            v@.len() + r@.len() == all.len(),
            v@ == all.take(v@.len() as int),
            forall|i: int| 0 <= i < r@.len() ==> r@[i] == all[all.len() - 1 - i],
        decreases v@.len(),
    {
        let x = v.pop().unwrap();
        r.push(x);
    }
    assert(r@ =~= all.reverse());
    r
}

impl Ranked for &String {
    open spec fn leq(self, other: &String) -> bool {
        crate::order::text_leq(self@, other@)
    }

    proof fn leq_total_preorder() {
        assert forall|x: &String, y: &String| #[trigger] x.leq(y) || y.leq(x) by {
            crate::order::text_less_total(x@, y@);
        }
        assert forall|x: &String, y: &String, z: &String| #[trigger] x.leq(y) && #[trigger] y.leq(
            z,
        ) implies x.leq(z) by {
            if x@ != y@ && y@ != z@ {
                crate::order::text_less_transitive(x@, y@, z@);
            }
        }
    }

    fn at_most(&self, other: &&String) -> (r: bool) {
        crate::order::same_text(self.as_str(), other.as_str()) || crate::order::comes_before(
            self.as_str(),
            other.as_str(),
        )
    }
}

// ---- places ----------------------------------------------------------

/// The places below `n` that meet a condition, ascending.
pub open spec fn places(n: nat, keep: spec_fn(int) -> bool) -> Seq<int>
    decreases n,
{
    if n == 0 {
        Seq::empty()
    } else {
        let before = places((n - 1) as nat, keep);
        if keep(n - 1) {
            before.push(n - 1)
        } else {
            before
        }
    }
}

/// The places are those that meet the condition, each once and ascending.
pub proof fn places_are_exact(n: nat, keep: spec_fn(int) -> bool)
    ensures
        forall|k: int| #[trigger] places(n, keep).contains(k) <==> 0 <= k < n && keep(k),
        forall|i: int, j: int|
            #![trigger places(n, keep)[i], places(n, keep)[j]]
            0 <= i < j < places(n, keep).len() ==> places(n, keep)[i] < places(n, keep)[j],
    decreases n,
{
    if n > 0 {
        let before = places((n - 1) as nat, keep);
        let all = places(n, keep);
        places_are_exact((n - 1) as nat, keep);
        assert forall|k: int| #[trigger] all.contains(k) <==> 0 <= k < n && keep(k) by {
            assert(before.contains(k) <==> 0 <= k < n - 1 && keep(k));
            if before.contains(k) {
                let i = before.index_of(k);
                assert(all[i] == k);
            }
            if k == n - 1 && keep(k) {
                assert(all[all.len() - 1] == k);
            }
            if all.contains(k) {
                let i = all.index_of(k);
                if i < before.len() {
                    assert(before[i] == k);
                }
            }
        }
        assert forall|i: int, j: int|
            #![trigger all[i], all[j]]
            0 <= i < j < all.len() implies all[i] < all[j] by {
            assert(before.contains(before[i]));
            if j < before.len() {
                assert(before[i] < before[j]);
            }
        }
    }
}

/// Conditions that agree below `n` have the same places there.
pub proof fn places_agree(n: nat, a: spec_fn(int) -> bool, b: spec_fn(int) -> bool)
    requires
        forall|k: int| 0 <= k < n ==> #[trigger] a(k) == b(k),
    ensures
        places(n, a) == places(n, b),
    decreases n,
{
    if n > 0 {
        assert(a(n - 1) == b(n - 1));
        places_agree((n - 1) as nat, a, b);
    }
}

} // verus!
