//! A map from text to values that is walked in the order of its keys.

use vstd::prelude::*;

use crate::order;

verus! {

/// Strictly ascending text.
pub open spec fn ascending(keys: Seq<Seq<char>>) -> bool {
    forall|i: int, j: int|
        #![trigger keys[i], keys[j]]
        0 <= i < j < keys.len() ==> order::text_less(keys[i], keys[j])
}

/// The text of each string of a list.
pub open spec fn texts(s: Seq<String>) -> Seq<Seq<char>> {
    s.map_values(|k: String| k@)
}

/// The members of a finite set of text in ascending order.
pub open spec fn in_key_order(keys: Set<Seq<char>>) -> Seq<Seq<char>> {
    choose|ks: Seq<Seq<char>>| #[trigger] ascending(ks) && ks.to_set() == keys
}

/// Ascending text with the same members is the same list.
pub proof fn ascending_unique(a: Seq<Seq<char>>, b: Seq<Seq<char>>)
    requires
        ascending(a),
        ascending(b),
        a.to_set() == b.to_set(),
    ensures
        a == b,
    decreases a.len(),
{
    assert forall|k: Seq<char>| #[trigger] a.contains(k) <==> b.contains(k) by {
        broadcast use vstd::seq_lib::group_seq_properties;

        assert(a.to_set().contains(k) <==> a.contains(k));
        assert(b.to_set().contains(k) <==> b.contains(k));
    }
    if a.len() == 0 {
        if b.len() > 0 {
            assert(b.contains(b[0]));
            assert(a.contains(b[0]));
        }
        assert(a =~= b);
    } else {
        assert(a.contains(a[0]));
        assert(b.contains(a[0]));
        let j = choose|j: int| 0 <= j < b.len() && b[j] == a[0];
        assert(b.contains(b[0]));
        assert(a.contains(b[0]));
        let i = choose|i: int| 0 <= i < a.len() && a[i] == b[0];
        if i > 0 && j > 0 {
            assert(order::text_less(a[0], a[i]));
            assert(order::text_less(b[0], b[j]));
            order::text_less_transitive(a[0], b[0], a[0]);
            order::text_less_irreflexive(a[0]);
        }
        assert(a[0] == b[0]);
        let x = a.drop_first();
        let y = b.drop_first();
        order::text_less_irreflexive(a[0]);
        assert forall|k: Seq<char>| #[trigger] x.to_set().contains(k) <==> y.to_set().contains(
            k,
        ) by {
            if x.contains(k) {
                let p = choose|p: int| 0 <= p < x.len() && x[p] == k;
                assert(a[p + 1] == k);
                assert(order::text_less(a[0], a[p + 1]));
                assert(a.contains(k));
                assert(b.contains(k));
                let q = choose|q: int| 0 <= q < b.len() && b[q] == k;
                assert(y[q - 1] == k);
            }
            if y.contains(k) {
                let p = choose|p: int| 0 <= p < y.len() && y[p] == k;
                assert(b[p + 1] == k);
                assert(order::text_less(b[0], b[p + 1]));
                assert(b.contains(k));
                assert(a.contains(k));
                let q = choose|q: int| 0 <= q < a.len() && a[q] == k;
                assert(x[q - 1] == k);
            }
        }
        assert(x.to_set() =~= y.to_set());
        ascending_unique(x, y);
        assert(a =~= seq![a[0]] + x);
        assert(b =~= seq![b[0]] + y);
    }
}

/// Ascending text lists its members in order.
pub proof fn ascending_is_key_order(a: Seq<Seq<char>>)
    requires
        ascending(a),
    ensures
        in_key_order(a.to_set()) == a,
{
    let c = in_key_order(a.to_set());
    assert(ascending(c) && c.to_set() == a.to_set());
    ascending_unique(a, c);
}

/// What a list holds can be listed in ascending order.
pub proof fn set_of_list_has_order(s: Seq<Seq<char>>)
    ensures
        ascending(in_key_order(s.to_set())),
        in_key_order(s.to_set()).to_set() == s.to_set(),
{
    let a = lemma_sort_distinct(s);
    assert(ascending(a) && a.to_set() == s.to_set());
}

proof fn lemma_sort_distinct(s: Seq<Seq<char>>) -> (r: Seq<Seq<char>>)
    ensures
        ascending(r),
        r.to_set() == s.to_set(),
    decreases s.len(),
{
    if s.len() == 0 {
        s
    } else {
        let x = s.last();
        let t = lemma_sort_distinct(s.drop_last());
        assert forall|k: Seq<char>| #[trigger] s.to_set().contains(k) <==> t.to_set().contains(k)
            || k == x by {
            let f = s.drop_last();
            assert(t.to_set().contains(k) <==> f.to_set().contains(k));
            if f.contains(k) {
                let i = choose|i: int| 0 <= i < f.len() && f[i] == k;
                assert(s[i] == k);
            }
            if s.contains(k) && k != x {
                let i = choose|i: int| 0 <= i < s.len() && s[i] == k;
                assert(f[i] == k);
            }
            assert(s[s.len() - 1] == x);
        }
        if t.contains(x) {
            assert(t.to_set() =~= s.to_set());
            t
        } else {
            let i = lemma_place(t, x);
            let r = t.insert(i, x);
            assert forall|a: int, b: int| 0 <= a < b < r.len() implies order::text_less(
                #[trigger] r[a],
                #[trigger] r[b],
            ) by {
                if a != i && b != i {
                    let c = if a < i { a } else { a - 1 };
                    let d = if b < i { b } else { b - 1 };
                    assert(order::text_less(t[c], t[d]));
                }
            }
            assert forall|k: Seq<char>| #[trigger] r.to_set().contains(k) <==> s.to_set().contains(
                k,
            ) by {
                assert(r[i] == x);
                if t.contains(k) {
                    let j = choose|j: int| 0 <= j < t.len() && t[j] == k;
                    assert(r[if j < i { j } else { j + 1 }] == k);
                }
                if r.contains(k) && k != x {
                    let j = choose|j: int| 0 <= j < r.len() && r[j] == k;
                    assert(t[if j < i { j } else { j - 1 }] == k);
                }
            }
            assert(r.to_set() =~= s.to_set());
            r
        }
    }
}

proof fn lemma_place(t: Seq<Seq<char>>, x: Seq<char>) -> (i: int)
    requires
        ascending(t),
        !t.contains(x),
    ensures
        0 <= i <= t.len(),
        forall|j: int| 0 <= j < i ==> order::text_less(#[trigger] t[j], x),
        forall|j: int| i <= j < t.len() ==> order::text_less(x, #[trigger] t[j]),
    decreases t.len(),
{
    if t.len() == 0 {
        0
    } else {
        let f = t.drop_last();
        let l = t.last();
        assert(t[t.len() - 1] == l);
        order::text_less_total(l, x);
        if order::text_less(l, x) {
            assert forall|j: int| 0 <= j < t.len() implies order::text_less(#[trigger] t[j], x) by {
                if j < t.len() - 1 {
                    assert(order::text_less(t[j], t[t.len() - 1]));
                    order::text_less_transitive(t[j], l, x);
                }
            }
            t.len() as int
        } else {
            assert(ascending(f)) by {
                assert forall|a: int, b: int| 0 <= a < b < f.len() implies order::text_less(
                    #[trigger] f[a],
                    #[trigger] f[b],
                ) by {
                    assert(order::text_less(t[a], t[b]));
                }
            }
            assert(!f.contains(x)) by {
                if f.contains(x) {
                    let j = choose|j: int| 0 <= j < f.len() && f[j] == x;
                    assert(t[j] == x);
                }
            }
            let i = lemma_place(f, x);
            assert forall|j: int| 0 <= j < i implies order::text_less(#[trigger] t[j], x) by {
                assert(f[j] == t[j]);
            }
            assert forall|j: int| i <= j < t.len() implies order::text_less(x, #[trigger] t[j]) by {
                if j < f.len() {
                    assert(f[j] == t[j]);
                }
            }
            i
        }
    }
}

/// Keys in strictly ascending order, each with its value.
pub struct SortedMap<V> {
    keys: Vec<String>,
    vals: Vec<V>,
}

impl<V> View for SortedMap<V> {
    type V = Map<Seq<char>, V>;

    closed spec fn view(&self) -> Map<Seq<char>, V> {
        Map::new(
            |k: Seq<char>| self.key_seq().contains(k),
            |k: Seq<char>| self.vals@[self.key_seq().index_of(k)],
        )
    }
}

impl<V> SortedMap<V> {
    /// The keys, in order.
    pub closed spec fn key_seq(&self) -> Seq<Seq<char>> {
        texts(self.keys@)
    }

    /// Keys ascend and every key has one value.
    pub closed spec fn wf(&self) -> bool {
        &&& self.keys@.len() == self.vals@.len()
        &&& ascending(self.key_seq())
    }

    /// What a well-formed map gives: its keys ascend, none occurs twice, and
    /// they are the domain of its view.
    pub proof fn wf_keys(&self)
        requires
            self.wf(),
        ensures
            ascending(self.key_seq()),
            self.key_seq().no_duplicates(),
            forall|k: Seq<char>|
                #![trigger self@.contains_key(k)]
                self@.contains_key(k) <==> self.key_seq().contains(k),
            forall|i: int|
                #![trigger self.key_seq()[i]]
                0 <= i < self.key_seq().len() ==> self@.contains_key(self.key_seq()[i]),
            self@.dom().finite(),
            self@.dom() == self.key_seq().to_set(),
            self@.len() == self.key_seq().len(),
    {
        let ks = self.key_seq();
        assert forall|i: int, j: int| 0 <= i < ks.len() && 0 <= j < ks.len() && i != j implies ks[i]
            != ks[j] by {
            order::text_less_irreflexive(ks[i]);
            if i < j {
                assert(order::text_less(ks[i], ks[j]));
            } else {
                assert(order::text_less(ks[j], ks[i]));
            }
        }
        assert(self@.dom() =~= ks.to_set());
        ks.unique_seq_to_set();
        vstd::seq_lib::seq_to_set_is_finite(ks);
    }

    /// The keys of a well-formed map are listed in order.
    pub proof fn wf_key_order(&self)
        requires
            self.wf(),
        ensures
            self.key_seq() == in_key_order(self@.dom()),
    {
        self.wf_keys();
        ascending_is_key_order(self.key_seq());
    }

    proof fn lemma_value_at(&self, i: int)
        requires
            self.wf(),
            0 <= i < self.keys@.len(),
        ensures
            self@.contains_key(self.key_seq()[i]),
            self@[self.key_seq()[i]] == self.vals@[i],
    {
        self.wf_keys();
        let k = self.key_seq()[i];
        assert(self.key_seq().contains(k));
        assert(self.key_seq().index_of(k) == i);
    }

    proof fn lemma_one_value_changed(&self, m: Self, i: int)
        requires
            self.wf(),
            0 <= i < self.keys@.len(),
            m.keys == self.keys,
            m.vals@ == self.vals@.update(i, m.vals@[i]),
        ensures
            m@ == self@.insert(self.key_seq()[i], m.vals@[i]),
    {
        let k = self.key_seq()[i];
        self.wf_keys();
        assert(self.key_seq().contains(k) && self.key_seq().index_of(k) == i);
        assert forall|q: Seq<char>| #[trigger] m@.contains_key(q) implies m@[q] == self@.insert(
            k,
            m.vals@[i],
        )[q] by {
            let j = self.key_seq().index_of(q);
            assert(self.key_seq()[j] == q);
        }
        assert(m@ =~= self@.insert(k, m.vals@[i]));
    }

    /// The empty map.
    pub fn new() -> (r: Self)
        ensures
            r.wf(),
            r@ == Map::<Seq<char>, V>::empty(),
            r.key_seq() == Seq::<Seq<char>>::empty(),
    {
        let r = SortedMap { keys: Vec::new(), vals: Vec::new() };
        assert(r.key_seq() =~= Seq::<Seq<char>>::empty());
        assert(r@ =~= Map::<Seq<char>, V>::empty());
        r
    }

    /// How many keys there are.
    pub fn len(&self) -> (r: usize)
        requires
            self.wf(),
        ensures
            r == self.key_seq().len(),
    {
        self.keys.len()
    }

    /// The `i`-th key in order.
    pub fn key_at(&self, i: usize) -> (r: &String)
        requires
            self.wf(),
            i < self.key_seq().len(),
        ensures
            r@ == self.key_seq()[i as int],
    {
        &self.keys[i]
    }

    /// The keys in order.
    pub fn key_list(self) -> (r: Vec<String>)
        requires
            self.wf(),
        ensures
            texts(r@) == self.key_seq(),
    {
        self.keys
    }

    /// The value of the `i`-th key in order.
    pub fn value_at(&self, i: usize) -> (r: &V)
        requires
            self.wf(),
            i < self.key_seq().len(),
        ensures
            self@.contains_key(self.key_seq()[i as int]),
            *r == self@[self.key_seq()[i as int]],
    {
        proof {
            self.lemma_value_at(i as int);
        }
        &self.vals[i]
    }

    /// The first place whose key is not before `k`.
    fn lower_bound(&self, k: &str) -> (r: usize)
        requires
            self.wf(),
        ensures
            r <= self.keys@.len(),
            forall|i: int| 0 <= i < r ==> order::text_less(#[trigger] self.key_seq()[i], k@),
            forall|i: int|
                r <= i < self.keys@.len() ==> !order::text_less(#[trigger] self.key_seq()[i], k@),
    {
        let mut lo: usize = 0;
        let mut hi: usize = self.keys.len();
        while lo < hi
            invariant
                self.wf(),
                lo <= hi <= self.keys@.len(),
                forall|i: int| 0 <= i < lo ==> order::text_less(#[trigger] self.key_seq()[i], k@),
                forall|i: int|
                    hi <= i < self.keys@.len() ==> !order::text_less(
                        #[trigger] self.key_seq()[i],
                        k@,
                    ),
            decreases hi - lo,
        {
            let mid: usize = lo + (hi - lo) / 2;
            assert(self.key_seq()[mid as int] == self.keys@[mid as int]@);
            if order::comes_before(self.keys[mid].as_str(), k) {
                assert forall|i: int| 0 <= i < mid + 1 implies order::text_less(
                    #[trigger] self.key_seq()[i],
                    k@,
                ) by {
                    if i < mid {
                        order::text_less_transitive(
                            self.key_seq()[i],
                            self.key_seq()[mid as int],
                            k@,
                        );
                    }
                }
                lo = mid + 1;
            } else {
                assert forall|i: int| mid <= i < self.keys@.len() implies !order::text_less(
                    #[trigger] self.key_seq()[i],
                    k@,
                ) by {
                    if i > mid && order::text_less(self.key_seq()[i], k@) {
                        order::text_less_transitive(
                            self.key_seq()[mid as int],
                            self.key_seq()[i],
                            k@,
                        );
                    }
                }
                hi = mid;
            }
        }
        lo
    }

    /// The place of `k` among the keys, if it is one.
    pub fn position(&self, k: &str) -> (r: Option<usize>)
        requires
            self.wf(),
        ensures
            match r {
                Some(i) => i < self.key_seq().len() && self.key_seq()[i as int] == k@
                    && self@.contains_key(k@),
                None => !self@.contains_key(k@),
            },
    {
        let i = self.lower_bound(k);
        proof {
            self.wf_keys();
        }
        if i < self.keys.len() && order::same_text(self.keys[i].as_str(), k) {
            assert(self.key_seq()[i as int] == k@);
            return Some(i);
        }
        proof {
            if self.key_seq().contains(k@) {
                let j = self.key_seq().index_of(k@);
                order::text_less_irreflexive(k@);
                assert(i <= j);
                if i < j {
                    assert(order::text_less(self.key_seq()[i as int], self.key_seq()[j]));
                }
            }
        }
        None
    }

    /// Whether `k` is a key.
    pub fn contains(&self, k: &str) -> (r: bool)
        requires
            self.wf(),
        ensures
            r == self@.contains_key(k@),
    {
        self.position(k).is_some()
    }

    /// The value of `k`, if it is a key.
    pub fn get(&self, k: &str) -> (r: Option<&V>)
        requires
            self.wf(),
        ensures
            match r {
                Some(v) => self@.contains_key(k@) && *v == self@[k@],
                None => !self@.contains_key(k@),
            },
    {
        match self.position(k) {
            Some(i) => Some(self.value_at(i)),
            None => None,
        }
    }

    /// Give `k` the value `v`, replacing any that it had.
    pub fn put(&mut self, k: &str, v: V)
        requires
            old(self).wf(),
        ensures
            final(self).wf(),
            final(self)@ == old(self)@.insert(k@, v),
    {
        let i = self.lower_bound(k);
        let ghost ks = self.key_seq();
        proof {
            self.wf_keys();
        }
        if i < self.keys.len() && order::same_text(self.keys[i].as_str(), k) {
            self.vals[i] = v;
            proof {
                assert(self.key_seq() =~= ks);
                self.wf_keys();
                assert(ks[i as int] == k@);
                assert(ks.contains(k@) && ks.index_of(k@) == i);
                assert forall|q: Seq<char>| self@.contains_key(q) implies self@[q] == old(
                    self,
                )@.insert(k@, v)[q] by {
                    let j = ks.index_of(q);
                    assert(ks[j] == q);
                }
                assert(self@ =~= old(self)@.insert(k@, v));
            }
        } else {
            self.keys.insert(i, k.to_owned());
            self.vals.insert(i, v);
            proof {
                let ns = self.key_seq();
                assert(ns =~= ks.insert(i as int, k@));
                assert forall|a: int, b: int| 0 <= a < b < ns.len() implies order::text_less(
                    #[trigger] ns[a],
                    #[trigger] ns[b],
                ) by {
                    if b == i {
                        assert(ns[a] == ks[a]);
                    } else if a == i {
                        assert(ns[b] == ks[b - 1]);
                        order::text_less_total(k@, ks[b - 1]);
                        if ks[b - 1] == k@ {
                            if b - 1 > i {
                                assert(order::text_less(ks[i as int], ks[b - 1]));
                            }
                        }
                    } else {
                        let x = if a < i { a } else { a - 1 };
                        let y = if b < i { b } else { b - 1 };
                        assert(ns[a] == ks[x] && ns[b] == ks[y]);
                    }
                }
                self.wf_keys();
                assert(!ks.contains(k@)) by {
                    if ks.contains(k@) {
                        let j = ks.index_of(k@);
                        order::text_less_irreflexive(k@);
                        assert(i <= j);
                        if i < j {
                            assert(order::text_less(ks[i as int], ks[j]));
                        }
                    }
                }
                assert(ns[i as int] == k@);
                assert forall|q: Seq<char>| ns.contains(q) <==> (q == k@ || ks.contains(q)) by {
                    if ks.contains(q) {
                        let j = ks.index_of(q);
                        assert(ns[if j < i { j } else { j + 1 }] == q);
                    }
                    if ns.contains(q) && q != k@ {
                        let j = ns.index_of(q);
                        assert(ks[if j < i { j } else { j - 1 }] == q);
                    }
                }
                assert forall|q: Seq<char>| #[trigger] self@.contains_key(q) implies self@[q]
                    == old(self)@.insert(k@, v)[q] by {
                    let j = ns.index_of(q);
                    assert(ns[j] == q);
                    if q == k@ {
                        assert(j == i);
                    } else {
                        let o = if j < i { j } else { j - 1 };
                        assert(ks[o] == q);
                        assert(ks.index_of(q) == o);
                    }
                }
                assert(self@ =~= old(self)@.insert(k@, v));
            }
        }
    }

    /// The place of `k`, which becomes a key with the value `v` if it was none.
    pub fn place_or_put(&mut self, k: &str, v: V) -> (r: usize)
        requires
            old(self).wf(),
        ensures
            final(self).wf(),
            r < final(self).key_seq().len(),
            final(self).key_seq()[r as int] == k@,
            final(self)@ == if old(self)@.contains_key(k@) {
                old(self)@
            } else {
                old(self)@.insert(k@, v)
            },
    {
        match self.position(k) {
            Some(i) => i,
            None => {
                self.put(k, v);
                let p = self.position(k);
                assert(self@.contains_key(k@));
                p.unwrap()
            },
        }
    }

    /// Access to the value at a place, for a change of it.
    pub fn value_mut(&mut self, i: usize) -> (r: &mut V)
        requires
            old(self).wf(),
            i < old(self).key_seq().len(),
        ensures
            *r == old(self)@[old(self).key_seq()[i as int]],
            final(self).wf(),
            final(self).key_seq() == old(self).key_seq(),
            final(self)@ == old(self)@.insert(old(self).key_seq()[i as int], *final(r)),
    {
        proof {
            self.lemma_value_at(i as int);
            assert forall|m: Self|
                m.keys == self.keys && m.vals@ == self.vals@.update(
                    i as int,
                    m.vals@[i as int],
                ) implies #[trigger] m.view() == self@.insert(
                self.key_seq()[i as int],
                m.vals@[i as int],
            ) by {
                self.lemma_one_value_changed(m, i as int);
            }
        }
        &mut self.vals[i]
    }
}

} // verus!
