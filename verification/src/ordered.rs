//! Ordered collections: a set and a map that keep their items in a vector,
//! strictly increasing by the order of their models. Walking one of them by
//! index visits the items in that order, and two collections with the same
//! contents hold the same sequence.

use crate::order::{Rank, Sortable, Value};
use vstd::prelude::*;

verus! {

/// Every earlier item comes strictly before every later one.
pub open spec fn strictly_sorted<T: Sortable>(s: Seq<T::V>) -> bool {
    forall|i: int, j: int| 0 <= i < j < s.len() ==> T::before(#[trigger] s[i], #[trigger] s[j])
}

/// The keys of a sequence of entries.
pub open spec fn keys_of<A, B>(s: Seq<(A, B)>) -> Seq<A> {
    Seq::new(s.len(), |i: int| s[i].0)
}

/// Whether a key occurs among the entries.
pub open spec fn has_key<A, B>(s: Seq<(A, B)>, k: A) -> bool {
    exists|i: int| 0 <= i < s.len() && (#[trigger] s[i]).0 == k
}

/// The position of a key among the entries.
pub open spec fn index_of_key<A, B>(s: Seq<(A, B)>, k: A) -> int {
    choose|i: int| 0 <= i < s.len() && (#[trigger] s[i]).0 == k
}

/// The value that the entries give a key.
pub open spec fn value_of<A, B>(s: Seq<(A, B)>, k: A) -> B {
    s[index_of_key(s, k)].1
}

/// The entries read as a map.
pub open spec fn as_map<A, B>(s: Seq<(A, B)>) -> Map<A, B> {
    Map::new(|k: A| has_key(s, k), |k: A| value_of(s, k))
}

pub proof fn lemma_insert_contains<A>(s: Seq<A>, i: int, a: A, x: A)
    requires
        0 <= i <= s.len(),
    ensures
        s.insert(i, a).contains(x) <==> (x == a || s.contains(x)),
{
    let t = s.insert(i, a);
    if t.contains(x) {
        let j = choose|j: int| 0 <= j < t.len() && t[j] == x;
        if j < i {
            assert(s[j] == x);
        } else if j > i {
            assert(s[j - 1] == x);
        }
    }
    if x == a {
        assert(t[i] == x);
    }
    if s.contains(x) {
        let j = choose|j: int| 0 <= j < s.len() && s[j] == x;
        if j < i {
            assert(t[j] == x);
        } else {
            assert(t[j + 1] == x);
        }
    }
}

pub proof fn lemma_sorted_distinct<T: Sortable>(s: Seq<T::V>, i: int, j: int)
    requires
        strictly_sorted::<T>(s),
        0 <= i < s.len(),
        0 <= j < s.len(),
        s[i] == s[j],
    ensures
        i == j,
{
    T::lemma_order(s[i], s[i], s[i]);
}

pub proof fn lemma_remove_contains<T: Sortable>(s: Seq<T::V>, i: int, x: T::V)
    requires
        strictly_sorted::<T>(s),
        0 <= i < s.len(),
    ensures
        s.remove(i).contains(x) <==> (x != s[i] && s.contains(x)),
        strictly_sorted::<T>(s.remove(i)),
{
    let t = s.remove(i);
    if t.contains(x) {
        let j = choose|j: int| 0 <= j < t.len() && t[j] == x;
        if j < i {
            assert(s[j] == x);
            if x == s[i] {
                lemma_sorted_distinct::<T>(s, i, j);
            }
        } else {
            assert(s[j + 1] == x);
            if x == s[i] {
                lemma_sorted_distinct::<T>(s, i, j + 1);
            }
        }
    }
    if x != s[i] && s.contains(x) {
        let j = choose|j: int| 0 <= j < s.len() && s[j] == x;
        if j < i {
            assert(t[j] == x);
        } else {
            assert(t[j - 1] == x);
        }
    }
    assert forall|a: int, b: int| 0 <= a < b < t.len() implies T::before(
        #[trigger] t[a],
        #[trigger] t[b],
    ) by {
        let a2 = if a < i { a } else { a + 1 };
        let b2 = if b < i { b } else { b + 1 };
        assert(T::before(s[a2], s[b2]));
    }
}

/// Two strictly sorted sequences with the same members are the same sequence.
pub proof fn lemma_sorted_unique<T: Sortable>(a: Seq<T::V>, b: Seq<T::V>)
    requires
        strictly_sorted::<T>(a),
        strictly_sorted::<T>(b),
        a.to_set() == b.to_set(),
    ensures
        a == b,
    decreases a.len(),
{
    if a.len() == 0 {
        if b.len() > 0 {
            assert(b.to_set().contains(b[0]));
            assert(a.contains(b[0]));
        }
        assert(a =~= b);
    } else if b.len() == 0 {
        assert(a.to_set().contains(a[0]));
        assert(b.contains(a[0]));
    } else {
        // the least members agree
        assert(a.to_set().contains(a[0]));
        assert(b.contains(a[0]));
        assert(b.to_set().contains(b[0]));
        assert(a.contains(b[0]));
        let i = choose|i: int| 0 <= i < b.len() && b[i] == a[0];
        let j = choose|j: int| 0 <= j < a.len() && a[j] == b[0];
        T::lemma_order(a[0], b[0], a[0]);
        if i > 0 {
            assert(T::before(b[0], b[i]));
            if j > 0 {
                assert(T::before(a[0], a[j]));
            }
            assert(false);
        }
        assert(a[0] == b[0]);
        let a1 = a.remove(0);
        let b1 = b.remove(0);
        lemma_remove_contains::<T>(a, 0, a[0]);
        lemma_remove_contains::<T>(b, 0, b[0]);
        assert forall|x: T::V| a1.to_set().contains(x) == b1.to_set().contains(x) by {
            lemma_remove_contains::<T>(a, 0, x);
            lemma_remove_contains::<T>(b, 0, x);
            assert(a.to_set().contains(x) == b.to_set().contains(x));
            assert(a.to_set().contains(x) == a.contains(x));
            assert(b.to_set().contains(x) == b.contains(x));
            assert(a1.to_set().contains(x) == a1.contains(x));
            assert(b1.to_set().contains(x) == b1.contains(x));
        }
        assert(a1.to_set() =~= b1.to_set());
        lemma_sorted_unique::<T>(a1, b1);
        assert(a =~= seq![a[0]] + a1);
        assert(b =~= seq![b[0]] + b1);
    }
}

/// A set of items, kept in increasing order.
#[derive(Debug, PartialEq, Eq)]
pub struct OrderedSet<T: Sortable> {
    items: Vec<T>,
}

impl<T: Sortable> View for OrderedSet<T> {
    type V = Seq<T::V>;

    /// The items in their order, which is strictly increasing.
    closed spec fn view(&self) -> Seq<T::V> {
        if strictly_sorted::<T>(self.items.deep_view()) {
            self.items.deep_view()
        } else {
            Seq::empty()
        }
    }
}

impl<T: Sortable> DeepView for OrderedSet<T> {
    type V = Seq<T::V>;

    open spec fn deep_view(&self) -> Seq<T::V> {
        self@
    }
}

impl<T: Sortable> OrderedSet<T> {
    /// The items are strictly increasing: none occurs twice.
    #[verifier::type_invariant]
    pub open spec fn sorted(&self) -> bool {
        strictly_sorted::<T>(self@) && self.kept()
    }

    /// The items are kept in their order.
    pub closed spec fn kept(&self) -> bool {
        strictly_sorted::<T>(self.items.deep_view())
    }

    /// What a set shows of itself is strictly increasing.
    pub proof fn lemma_sorted(&self)
        ensures
            strictly_sorted::<T>(self@),
    {
    }

    /// The members, without their order.
    pub open spec fn set(&self) -> Set<T::V> {
        self@.to_set()
    }

    pub fn new() -> (r: Self)
        ensures
            r@ == Seq::<T::V>::empty(),
    {
        let r = OrderedSet { items: Vec::new() };
        assert(r@ =~= Seq::<T::V>::empty());
        r
    }

    pub fn len(&self) -> (n: usize)
        ensures
            n == self@.len(),
    {
        proof {
            use_type_invariant(&*self);
        }
        self.items.len()
    }

    pub fn is_empty(&self) -> (r: bool)
        ensures
            r == (self@.len() == 0),
    {
        proof {
            use_type_invariant(&*self);
        }
        self.items.len() == 0
    }

    /// The item at a position of the increasing walk.
    pub fn at(&self, i: usize) -> (r: &T)
        requires
            i < self@.len(),
        ensures
            r.deep_view() == self@[i as int],
            strictly_sorted::<T>(self@),
    {
        proof {
            use_type_invariant(self);
        }
        &self.items[i]
    }

    /// The first position whose item does not come before `k`, and whether
    /// that item is `k`.
    fn locate(&self, k: &T) -> (r: (usize, bool))
        ensures
            r.0 <= self@.len(),
            forall|j: int| 0 <= j < r.0 ==> T::before(#[trigger] self@[j], k.deep_view()),
            r.1 ==> r.0 < self@.len() && self@[r.0 as int] == k.deep_view(),
            !r.1 ==> (r.0 == self@.len() || T::before(k.deep_view(), self@[r.0 as int])),
            r.1 == self@.contains(k.deep_view()),
            strictly_sorted::<T>(self@),
    {
        proof {
            use_type_invariant(self);
        }
        let mut i: usize = 0;
        let mut found = false;
        while i < self.items.len()
            invariant_except_break
                !found,
            invariant
                i <= self.items.len(),
                self@ == self.items.deep_view(),
                forall|j: int| 0 <= j < i ==> T::before(#[trigger] self@[j], k.deep_view()),
            ensures
                i <= self.items.len(),
                found ==> i < self@.len() && self@[i as int] == k.deep_view(),
                !found ==> (i == self@.len() || T::before(k.deep_view(), self@[i as int])),
            decreases self.items.len() - i,
        {
            match self.items[i].rank(k) {
                Rank::Less => {},
                Rank::Equal => {
                    found = true;
                    break ;
                },
                Rank::Greater => {
                    break ;
                },
            }
            i = i + 1;
        }
        proof {
            let kv = k.deep_view();
            if self@.contains(kv) && !found {
                let j = choose|j: int| 0 <= j < self@.len() && self@[j] == kv;
                T::lemma_order(kv, kv, kv);
                if j > i {
                    T::lemma_order(kv, self@[i as int], kv);
                }
            }
        }
        (i, found)
    }

    pub fn contains(&self, k: &T) -> (r: bool)
        ensures
            r == self@.contains(k.deep_view()),
    {
        proof {
            use_type_invariant(&*self);
        }
        self.locate(k).1
    }

    /// Adds an item; says whether it was new.
    pub fn insert(&mut self, k: T) -> (fresh: bool)
        ensures
            fresh == !old(self)@.contains(k.deep_view()),
            final(self)@.to_set() == old(self)@.to_set().insert(k.deep_view()),
            !fresh ==> final(self)@ == old(self)@,
            strictly_sorted::<T>(final(self)@),
    {
        proof {
            use_type_invariant(&*self);
        }
        let (i, found) = self.locate(&k);
        let ghost before = self@;
        let ghost kv = k.deep_view();
        if found {
            assert(before.to_set().insert(kv) =~= before.to_set());
            false
        } else {
            let mut items: Vec<T> = Vec::new();
            assert(items.deep_view() =~= Seq::<T::V>::empty());
            core::mem::swap(&mut self.items, &mut items);
            items.insert(i, k);
            proof {
                assert(items.deep_view() =~= before.insert(i as int, kv));
                let after = before.insert(i as int, kv);
                assert forall|a: int, b: int| 0 <= a < b < after.len() implies T::before(
                    #[trigger] after[a],
                    #[trigger] after[b],
                ) by {
                    if b < i {
                        assert(after[a] == before[a] && after[b] == before[b]);
                    } else if b == i {
                        assert(after[a] == before[a]);
                    } else if a == i {
                        assert(after[b] == before[b - 1]);
                        if b - 1 > i {
                            T::lemma_order(kv, before[i as int], before[b - 1]);
                        }
                    } else if a < i {
                        assert(after[a] == before[a] && after[b] == before[b - 1]);
                    } else {
                        assert(after[a] == before[a - 1] && after[b] == before[b - 1]);
                    }
                }
                assert forall|x: T::V| after.to_set().contains(x) == before.to_set().insert(
                    kv,
                ).contains(x) by {
                    lemma_insert_contains(before, i as int, kv, x);
                }
                assert(after.to_set() =~= before.to_set().insert(kv));
            }
            core::mem::swap(&mut self.items, &mut items);
            true
        }
    }

    /// Takes an item out; says whether it was there.
    pub fn remove(&mut self, k: &T) -> (found: bool)
        ensures
            found == old(self)@.contains(k.deep_view()),
            final(self)@.to_set() == old(self)@.to_set().remove(k.deep_view()),
            !found ==> final(self)@ == old(self)@,
            strictly_sorted::<T>(final(self)@),
    {
        proof {
            use_type_invariant(&*self);
        }
        let (i, found) = self.locate(k);
        let ghost before = self@;
        let ghost kv = k.deep_view();
        if found {
            let mut items: Vec<T> = Vec::new();
            assert(items.deep_view() =~= Seq::<T::V>::empty());
            core::mem::swap(&mut self.items, &mut items);
            let _ = items.remove(i);
            proof {
                assert(items.deep_view() =~= before.remove(i as int));
                let after = before.remove(i as int);
                lemma_remove_contains::<T>(before, i as int, kv);
                assert forall|x: T::V| after.to_set().contains(x) == before.to_set().remove(
                    kv,
                ).contains(x) by {
                    lemma_remove_contains::<T>(before, i as int, x);
                }
                assert(after.to_set() =~= before.to_set().remove(kv));
            }
            core::mem::swap(&mut self.items, &mut items);
            true
        } else {
            assert(before.to_set().remove(kv) =~= before.to_set());
            false
        }
    }

    /// The set of the items of a vector.
    pub fn from_vec(v: Vec<T>) -> (r: Self)
        ensures
            r@.to_set() == v.deep_view().to_set(),
            strictly_sorted::<T>(r@),
    {
        let mut out = OrderedSet::<T>::new();
        let mut i: usize = 0;
        let ghost dv = v.deep_view();
        assert(dv.take(0).to_set() =~= out@.to_set());
        while i < v.len()
            invariant
                i <= v.len(),
                dv == v.deep_view(),
                out@.to_set() == dv.take(i as int).to_set(),
                strictly_sorted::<T>(out@),
            decreases v.len() - i,
        {
            let ghost prev = out@.to_set();
            out.insert(v[i].dup());
            proof {
                assert(dv.take(i + 1) =~= dv.take(i as int).push(dv[i as int]));
                assert forall|x: T::V| dv.take(i + 1).to_set().contains(x) == prev.insert(
                    dv[i as int],
                ).contains(x) by {
                    lemma_insert_contains(dv.take(i as int), i as int, dv[i as int], x);
                    assert(dv.take(i as int).push(dv[i as int]) =~= dv.take(i as int).insert(
                        i as int,
                        dv[i as int],
                    ));
                }
                assert(dv.take(i + 1).to_set() =~= prev.insert(dv[i as int]));
            }
            i = i + 1;
        }
        assert(dv.take(i as int) =~= dv);
        out
    }

    /// The items in increasing order.
    pub fn to_vec(&self) -> (r: Vec<T>)
        ensures
            r.deep_view() == self@,
            strictly_sorted::<T>(self@),
    {
        proof {
            use_type_invariant(self);
        }
        self.items.dup()
    }

    /// Adds every item of another set.
    pub fn extend(&mut self, other: &OrderedSet<T>)
        ensures
            final(self)@.to_set() == old(self)@.to_set().union(other@.to_set()),
            strictly_sorted::<T>(final(self)@),
    {
        let mut i: usize = 0;
        proof {
            use_type_invariant(&*self);
            assert(other@.take(0).to_set() =~= Set::<T::V>::empty());
            assert(self@.to_set().union(Set::<T::V>::empty()) =~= self@.to_set());
        }
        while i < other.len()
            invariant
                i <= other@.len(),
                self@.to_set() == old(self)@.to_set().union(other@.take(i as int).to_set()),
                strictly_sorted::<T>(self@),
            decreases other@.len() - i,
        {
            let ghost prev = self@.to_set();
            self.insert(other.at(i).dup());
            proof {
                let o = other@;
                assert(o.take(i + 1) =~= o.take(i as int).insert(i as int, o[i as int]));
                assert forall|x: T::V| self@.to_set().contains(x) == old(self)@.to_set().union(
                    o.take(i + 1).to_set(),
                ).contains(x) by {
                    lemma_insert_contains(o.take(i as int), i as int, o[i as int], x);
                }
                assert(self@.to_set() =~= old(self)@.to_set().union(o.take(i + 1).to_set()));
            }
            i = i + 1;
        }
        assert(other@.take(i as int) =~= other@);
    }
}

impl<T: Sortable> Value for OrderedSet<T> {
    fn dup(&self) -> (r: Self) {
        proof {
            use_type_invariant(self);
        }
        OrderedSet { items: self.items.dup() }
    }
}

impl<T: Sortable> Clone for OrderedSet<T> {
    fn clone(&self) -> (r: Self)
        ensures
            r@ == self@,
    {
        proof {
            use_type_invariant(&*self);
        }
        self.dup()
    }
}

/// In entries with strictly sorted keys, a key's position is unique.
pub proof fn lemma_entry_at<K: Sortable, B>(s: Seq<(K::V, B)>, i: int)
    requires
        strictly_sorted::<K>(keys_of(s)),
        0 <= i < s.len(),
    ensures
        has_key(s, s[i].0),
        index_of_key(s, s[i].0) == i,
        value_of(s, s[i].0) == s[i].1,
{
    let j = index_of_key(s, s[i].0);
    assert(keys_of(s)[i] == s[i].0);
    assert(keys_of(s)[j] == s[j].0);
    lemma_sorted_distinct::<K>(keys_of(s), i, j);
}

/// Two entry sequences with strictly sorted keys that read as the same map
/// are the same sequence.
pub proof fn lemma_entries_unique<K: Sortable, B>(a: Seq<(K::V, B)>, b: Seq<(K::V, B)>)
    requires
        strictly_sorted::<K>(keys_of(a)),
        strictly_sorted::<K>(keys_of(b)),
        as_map(a) == as_map(b),
    ensures
        a == b,
{
    let ka = keys_of(a);
    let kb = keys_of(b);
    assert forall|x: K::V| ka.contains(x) == has_key(a, x) by {
        if ka.contains(x) {
            let i = choose|i: int| 0 <= i < ka.len() && ka[i] == x;
            assert(a[i].0 == x);
        }
        if has_key(a, x) {
            let i = index_of_key(a, x);
            assert(ka[i] == x);
        }
    }
    assert forall|x: K::V| kb.contains(x) == has_key(b, x) by {
        if kb.contains(x) {
            let i = choose|i: int| 0 <= i < kb.len() && kb[i] == x;
            assert(b[i].0 == x);
        }
        if has_key(b, x) {
            let i = index_of_key(b, x);
            assert(kb[i] == x);
        }
    }
    assert forall|x: K::V| ka.to_set().contains(x) == kb.to_set().contains(x) by {
        assert(as_map(a).dom().contains(x) == has_key(a, x));
        assert(as_map(b).dom().contains(x) == has_key(b, x));
        assert(ka.to_set().contains(x) == ka.contains(x));
        assert(kb.to_set().contains(x) == kb.contains(x));
    }
    assert(ka.to_set() =~= kb.to_set());
    lemma_sorted_unique::<K>(ka, kb);
    assert(a.len() == ka.len() && b.len() == kb.len());
    assert forall|i: int| 0 <= i < a.len() implies a[i] == b[i] by {
        lemma_entry_at::<K, B>(a, i);
        lemma_entry_at::<K, B>(b, i);
        assert(ka[i] == a[i].0 && kb[i] == b[i].0);
        let k = a[i].0;
        assert(as_map(a)[k] == value_of(a, k));
        assert(as_map(b)[k] == value_of(b, k));
        assert(a[i].1 == b[i].1);
    }
    assert(a =~= b);
}

/// A map from keys to values, kept in increasing order of its keys.
#[derive(Debug, PartialEq, Eq)]
pub struct OrderedMap<K: Sortable, V: Value> {
    entries: Vec<(K, V)>,
}

impl<K: Sortable, V: Value> View for OrderedMap<K, V> {
    type V = Seq<(K::V, V::V)>;

    /// The entries in their order, which is strictly increasing by key.
    closed spec fn view(&self) -> Seq<(K::V, V::V)> {
        if strictly_sorted::<K>(keys_of(self.entries.deep_view())) {
            self.entries.deep_view()
        } else {
            Seq::empty()
        }
    }
}

impl<K: Sortable, V: Value> DeepView for OrderedMap<K, V> {
    type V = Seq<(K::V, V::V)>;

    open spec fn deep_view(&self) -> Seq<(K::V, V::V)> {
        self@
    }
}

impl<K: Sortable, V: Value> OrderedMap<K, V> {
    /// The keys are strictly increasing: none occurs twice.
    #[verifier::type_invariant]
    pub open spec fn sorted(&self) -> bool {
        strictly_sorted::<K>(keys_of(self@)) && self.kept()
    }

    /// The entries are kept in the order of their keys.
    pub closed spec fn kept(&self) -> bool {
        strictly_sorted::<K>(keys_of(self.entries.deep_view()))
    }

    /// What a map shows of itself is strictly increasing by key.
    pub proof fn lemma_keys_sorted(&self)
        ensures
            strictly_sorted::<K>(keys_of(self@)),
    {
        assert(keys_of(Seq::<(K::V, V::V)>::empty()) =~= Seq::<K::V>::empty());
    }

    /// Each value that a map shows is what one of its values shows.
    pub proof fn lemma_value_shown(&self, i: int)
        requires
            0 <= i < self@.len(),
        ensures
            exists|v: V| self@[i].1 == #[trigger] v.deep_view(),
    {
        assert(self@[i].1 == self.entries@[i].1.deep_view());
    }

    /// The entries as a map, without their order.
    pub open spec fn map(&self) -> Map<K::V, V::V> {
        as_map(self@)
    }

    pub fn new() -> (r: Self)
        ensures
            r@ == Seq::<(K::V, V::V)>::empty(),
    {
        let r = OrderedMap { entries: Vec::new() };
        assert(r@ =~= Seq::<(K::V, V::V)>::empty());
        r
    }

    pub fn len(&self) -> (n: usize)
        ensures
            n == self@.len(),
    {
        proof {
            use_type_invariant(&*self);
        }
        self.entries.len()
    }

    pub fn is_empty(&self) -> (r: bool)
        ensures
            r == (self@.len() == 0),
    {
        proof {
            use_type_invariant(&*self);
        }
        self.entries.len() == 0
    }

    /// The key at a position of the increasing walk.
    pub fn key_at(&self, i: usize) -> (r: &K)
        requires
            i < self@.len(),
        ensures
            r.deep_view() == self@[i as int].0,
            strictly_sorted::<K>(keys_of(self@)),
    {
        proof {
            use_type_invariant(self);
        }
        &self.entries[i].0
    }

    /// The value at a position of the increasing walk.
    pub fn value_at(&self, i: usize) -> (r: &V)
        requires
            i < self@.len(),
        ensures
            r.deep_view() == self@[i as int].1,
            strictly_sorted::<K>(keys_of(self@)),
    {
        proof {
            use_type_invariant(self);
        }
        &self.entries[i].1
    }

    /// The first position whose key does not come before `k`, and whether
    /// that key is `k`.
    fn locate(&self, k: &K) -> (r: (usize, bool))
        ensures
            r.0 <= self@.len(),
            forall|j: int| 0 <= j < r.0 ==> K::before((#[trigger] self@[j]).0, k.deep_view()),
            r.1 ==> r.0 < self@.len() && self@[r.0 as int].0 == k.deep_view(),
            !r.1 ==> (r.0 == self@.len() || K::before(k.deep_view(), self@[r.0 as int].0)),
            r.1 == has_key(self@, k.deep_view()),
            strictly_sorted::<K>(keys_of(self@)),
    {
        proof {
            use_type_invariant(self);
        }
        let mut i: usize = 0;
        let mut found = false;
        while i < self.entries.len()
            invariant_except_break
                !found,
            invariant
                i <= self.entries.len(),
                self@ == self.entries.deep_view(),
                forall|j: int| 0 <= j < i ==> K::before((#[trigger] self@[j]).0, k.deep_view()),
            ensures
                i <= self.entries.len(),
                found ==> i < self@.len() && self@[i as int].0 == k.deep_view(),
                !found ==> (i == self@.len() || K::before(k.deep_view(), self@[i as int].0)),
            decreases self.entries.len() - i,
        {
            match self.entries[i].0.rank(k) {
                Rank::Less => {},
                Rank::Equal => {
                    found = true;
                    break ;
                },
                Rank::Greater => {
                    break ;
                },
            }
            i = i + 1;
        }
        proof {
            let kv = k.deep_view();
            let ks = keys_of(self@);
            if has_key(self@, kv) && !found {
                let j = index_of_key(self@, kv);
                K::lemma_order(kv, kv, kv);
                if j > i {
                    assert(K::before(ks[i as int], ks[j]));
                    K::lemma_order(kv, self@[i as int].0, kv);
                }
            }
        }
        (i, found)
    }

    /// The position of a key in the increasing walk.
    pub fn index_of(&self, k: &K) -> (r: Option<usize>)
        ensures
            r is Some == has_key(self@, k.deep_view()),
            r is Some ==> r->0 < self@.len() && self@[r->0 as int].0 == k.deep_view()
                && index_of_key(self@, k.deep_view()) == r->0,
            strictly_sorted::<K>(keys_of(self@)),
    {
        proof {
            use_type_invariant(&*self);
        }
        let (i, found) = self.locate(k);
        if found {
            proof {
                lemma_entry_at::<K, V::V>(self@, i as int);
            }
            Some(i)
        } else {
            None
        }
    }

    pub fn contains_key(&self, k: &K) -> (r: bool)
        ensures
            r == has_key(self@, k.deep_view()),
            r == self.map().contains_key(k.deep_view()),
    {
        proof {
            use_type_invariant(&*self);
        }
        self.locate(k).1
    }

    pub fn get(&self, k: &K) -> (r: Option<&V>)
        ensures
            r is Some == has_key(self@, k.deep_view()),
            r is Some ==> r->0.deep_view() == value_of(self@, k.deep_view()),
            strictly_sorted::<K>(keys_of(self@)),
    {
        proof {
            use_type_invariant(&*self);
        }
        let (i, found) = self.locate(k);
        if found {
            proof {
                lemma_entry_at::<K, V::V>(self@, i as int);
            }
            Some(&self.entries[i].1)
        } else {
            None
        }
    }

    /// Replaces the value at a position of the increasing walk.
    pub fn set_value_at(&mut self, i: usize, v: V)
        requires
            i < old(self)@.len(),
        ensures
            final(self)@ == old(self)@.update(i as int, (old(self)@[i as int].0, v.deep_view())),
            final(self).map() == old(self).map().insert(old(self)@[i as int].0, v.deep_view()),
            strictly_sorted::<K>(keys_of(final(self)@)),
    {
        proof {
            use_type_invariant(&*self);
        }
        let ghost before = self@;
        let ghost vv = v.deep_view();
        let mut entries: Vec<(K, V)> = Vec::new();
        assert(entries.deep_view() =~= Seq::<(K::V, V::V)>::empty());
        assert(keys_of(entries.deep_view()) =~= Seq::<K::V>::empty());
        core::mem::swap(&mut self.entries, &mut entries);
        let k = entries[i].0.dup();
        entries.set(i, (k, v));
        proof {
            let after = before.update(i as int, (before[i as int].0, vv));
            assert(entries.deep_view() =~= after);
            assert(keys_of(after) =~= keys_of(before));
            Self::lemma_update_map(before, i as int, vv);
        }
        core::mem::swap(&mut self.entries, &mut entries);
    }

    proof fn lemma_update_map(before: Seq<(K::V, V::V)>, i: int, vv: V::V)
        requires
            strictly_sorted::<K>(keys_of(before)),
            0 <= i < before.len(),
        ensures
            as_map(before.update(i, (before[i].0, vv))) == as_map(before).insert(before[i].0, vv),
    {
        let kv = before[i].0;
        let after = before.update(i, (kv, vv));
        assert(after.len() == before.len());
        assert(keys_of(after) =~= keys_of(before));
        assert forall|x: K::V| has_key(after, x) == (x == kv || has_key(before, x)) by {
            if has_key(after, x) {
                let j = index_of_key(after, x);
                assert(before[j].0 == x);
            }
            if has_key(before, x) {
                let j = index_of_key(before, x);
                assert(after[j].0 == x);
            }
            if x == kv {
                assert(after[i].0 == x);
            }
        }
        assert forall|x: K::V| has_key(after, x) implies value_of(after, x) == (if x == kv {
            vv
        } else {
            value_of(before, x)
        }) by {
            let j = index_of_key(after, x);
            lemma_entry_at::<K, V::V>(after, j);
            assert(before[j].0 == x);
            lemma_entry_at::<K, V::V>(before, j);
            lemma_entry_at::<K, V::V>(before, i);
        }
        assert(as_map(after) =~= as_map(before).insert(kv, vv));
    }

    proof fn lemma_insert_map(before: Seq<(K::V, V::V)>, i: int, kv: K::V, vv: V::V)
        requires
            strictly_sorted::<K>(keys_of(before)),
            0 <= i <= before.len(),
            forall|j: int| 0 <= j < i ==> K::before((#[trigger] before[j]).0, kv),
            i == before.len() || K::before(kv, before[i].0),
        ensures
            strictly_sorted::<K>(keys_of(before.insert(i, (kv, vv)))),
            as_map(before.insert(i, (kv, vv))) == as_map(before).insert(kv, vv),
    {
        let after = before.insert(i, (kv, vv));
        let kb = keys_of(before);
        let ka = keys_of(after);
        assert(ka =~= kb.insert(i, kv));
        assert forall|a: int, b: int| 0 <= a < b < ka.len() implies K::before(
            #[trigger] ka[a],
            #[trigger] ka[b],
        ) by {
            if b < i {
                assert(ka[a] == kb[a] && ka[b] == kb[b]);
            } else if b == i {
                assert(ka[a] == before[a].0);
            } else if a == i {
                assert(ka[b] == kb[b - 1]);
                if b - 1 > i {
                    assert(K::before(kb[i], kb[b - 1]));
                    K::lemma_order(kv, before[i].0, kb[b - 1]);
                }
            } else if a < i {
                assert(ka[a] == kb[a] && ka[b] == kb[b - 1]);
            } else {
                assert(ka[a] == kb[a - 1] && ka[b] == kb[b - 1]);
            }
        }
        assert forall|x: K::V| has_key(after, x) == (x == kv || has_key(before, x)) by {
            if has_key(after, x) {
                let j = index_of_key(after, x);
                if j < i {
                    assert(before[j].0 == x);
                } else if j > i {
                    assert(before[j - 1].0 == x);
                }
            }
            if has_key(before, x) {
                let j = index_of_key(before, x);
                if j < i {
                    assert(after[j].0 == x);
                } else {
                    assert(after[j + 1].0 == x);
                }
            }
            if x == kv {
                assert(after[i].0 == x);
            }
        }
        assert forall|x: K::V| has_key(after, x) implies value_of(after, x) == (if x == kv {
            vv
        } else {
            value_of(before, x)
        }) by {
            let j = index_of_key(after, x);
            lemma_entry_at::<K, V::V>(after, j);
            if j < i {
                lemma_entry_at::<K, V::V>(before, j);
            } else if j > i {
                lemma_entry_at::<K, V::V>(before, j - 1);
            }
            lemma_entry_at::<K, V::V>(after, i);
        }
        assert(as_map(after) =~= as_map(before).insert(kv, vv));
    }

    proof fn lemma_remove_map(before: Seq<(K::V, V::V)>, i: int)
        requires
            strictly_sorted::<K>(keys_of(before)),
            0 <= i < before.len(),
        ensures
            strictly_sorted::<K>(keys_of(before.remove(i))),
            as_map(before.remove(i)) == as_map(before).remove(before[i].0),
    {
        let after = before.remove(i);
        let kv = before[i].0;
        let kb = keys_of(before);
        let ka = keys_of(after);
        assert(ka =~= kb.remove(i));
        lemma_remove_contains::<K>(kb, i, kv);
        assert forall|x: K::V| has_key(after, x) == (x != kv && has_key(before, x)) by {
            if has_key(after, x) {
                let j = index_of_key(after, x);
                let j2 = if j < i { j } else { j + 1 };
                assert(before[j2].0 == x);
                if x == kv {
                    assert(kb[j2] == kb[i]);
                    lemma_sorted_distinct::<K>(kb, i, j2);
                }
            }
            if x != kv && has_key(before, x) {
                let j = index_of_key(before, x);
                if j < i {
                    assert(after[j].0 == x);
                } else {
                    assert(after[j - 1].0 == x);
                }
            }
        }
        assert forall|x: K::V| has_key(after, x) implies value_of(after, x) == value_of(
            before,
            x,
        ) by {
            let j = index_of_key(after, x);
            lemma_entry_at::<K, V::V>(after, j);
            let j2 = if j < i { j } else { j + 1 };
            lemma_entry_at::<K, V::V>(before, j2);
        }
        assert(as_map(after) =~= as_map(before).remove(kv));
    }

    /// Binds a key to a value, in place of any value it had.
    pub fn insert(&mut self, k: K, v: V)
        ensures
            final(self).map() == old(self).map().insert(k.deep_view(), v.deep_view()),
            strictly_sorted::<K>(keys_of(final(self)@)),
            has_key(old(self)@, k.deep_view()) ==> final(self)@ == old(self)@.update(
                index_of_key(old(self)@, k.deep_view()),
                (k.deep_view(), v.deep_view()),
            ),
    {
        proof {
            use_type_invariant(&*self);
        }
        let (i, found) = self.locate(&k);
        let ghost before = self@;
        let ghost kv = k.deep_view();
        let ghost vv = v.deep_view();
        let mut entries: Vec<(K, V)> = Vec::new();
        assert(entries.deep_view() =~= Seq::<(K::V, V::V)>::empty());
        assert(keys_of(entries.deep_view()) =~= Seq::<K::V>::empty());
        core::mem::swap(&mut self.entries, &mut entries);
        if found {
            entries.set(i, (k, v));
            proof {
                lemma_entry_at::<K, V::V>(before, i as int);
                let after = before.update(i as int, (kv, vv));
                assert(entries.deep_view() =~= after);
                assert(keys_of(after) =~= keys_of(before));
                Self::lemma_update_map(before, i as int, vv);
            }
        } else {
            entries.insert(i, (k, v));
            proof {
                assert(entries.deep_view() =~= before.insert(i as int, (kv, vv)));
                Self::lemma_insert_map(before, i as int, kv, vv);
            }
        }
        core::mem::swap(&mut self.entries, &mut entries);
    }

    /// Takes a key out, with its value.
    pub fn remove(&mut self, k: &K) -> (r: Option<V>)
        ensures
            r is Some == has_key(old(self)@, k.deep_view()),
            r is Some ==> r->0.deep_view() == value_of(old(self)@, k.deep_view()),
            final(self).map() == old(self).map().remove(k.deep_view()),
            r is None ==> final(self)@ == old(self)@,
            strictly_sorted::<K>(keys_of(final(self)@)),
    {
        proof {
            use_type_invariant(&*self);
        }
        let (i, found) = self.locate(k);
        let ghost before = self@;
        let ghost kv = k.deep_view();
        if found {
            let mut entries: Vec<(K, V)> = Vec::new();
            assert(entries.deep_view() =~= Seq::<(K::V, V::V)>::empty());
            assert(keys_of(entries.deep_view()) =~= Seq::<K::V>::empty());
            core::mem::swap(&mut self.entries, &mut entries);
            let e = entries.remove(i);
            proof {
                lemma_entry_at::<K, V::V>(before, i as int);
                assert(entries.deep_view() =~= before.remove(i as int));
                Self::lemma_remove_map(before, i as int);
            }
            core::mem::swap(&mut self.entries, &mut entries);
            Some(e.1)
        } else {
            assert(as_map(before).remove(kv) =~= as_map(before));
            None
        }
    }
}

impl<K: Sortable, V: Value> Value for OrderedMap<K, V> {
    fn dup(&self) -> (r: Self) {
        proof {
            use_type_invariant(self);
        }
        OrderedMap { entries: self.entries.dup() }
    }
}

impl<K: Sortable, V: Value> Clone for OrderedMap<K, V> {
    fn clone(&self) -> (r: Self)
        ensures
            r@ == self@,
    {
        proof {
            use_type_invariant(&*self);
        }
        self.dup()
    }
}

impl<K: Sortable, V: Value> OrderedMap<K, V> {
    /// The map that a list of entries gives; of two entries with one key
    /// the later one stays.
    pub fn from_vec(v: Vec<(K, V)>) -> (r: Self)
        ensures
            r.map() == entries_map(v.deep_view()),
            strictly_sorted::<K>(keys_of(r@)),
    {
        let mut out = OrderedMap::<K, V>::new();
        let mut i: usize = 0;
        let ghost dv = v.deep_view();
        assert(dv.take(0) =~= Seq::<(K::V, V::V)>::empty());
        assert(keys_of(out@) =~= Seq::<K::V>::empty());
        assert(out.map() =~= Map::<K::V, V::V>::empty());
        while i < v.len()
            invariant
                i <= v.len(),
                dv == v.deep_view(),
                out.map() == entries_map(dv.take(i as int)),
                strictly_sorted::<K>(keys_of(out@)),
            decreases v.len() - i,
        {
            proof {
                let cur = dv.take(i + 1);
                assert(cur.drop_last() =~= dv.take(i as int));
                assert(cur.last() == dv[i as int]);
            }
            out.insert(v[i].0.dup(), v[i].1.dup());
            i = i + 1;
        }
        assert(dv.take(i as int) =~= dv);
        out
    }
}

/// The map that a list of entries gives; of two entries with one key the
/// later one stays.
pub open spec fn entries_map<A, B>(s: Seq<(A, B)>) -> Map<A, B>
    decreases s.len(),
{
    if s.len() == 0 {
        Map::empty()
    } else {
        entries_map(s.drop_last()).insert(s.last().0, s.last().1)
    }
}

/// The members of the set that the entries give a key; none where they do
/// not have the key.
pub open spec fn set_at<A, B>(s: Seq<(A, Seq<B>)>, k: A) -> Set<B> {
    if has_key(s, k) {
        value_of(s, k).to_set()
    } else {
        Set::empty()
    }
}

/// Adds an item to the set of a key, which is made if the key has none.
pub fn add_to_set_at<K: Sortable, X: Sortable>(map: &mut OrderedMap<K, OrderedSet<X>>, k: K, x: X)
    ensures
        final(map).map().dom() == old(map).map().dom().insert(k.deep_view()),
        forall|j: K::V| #[trigger]
            set_at(final(map)@, j) == (if j == k.deep_view() {
                set_at(old(map)@, j).insert(x.deep_view())
            } else {
                set_at(old(map)@, j)
            }),
        strictly_sorted::<K>(keys_of(final(map)@)),
{
    let ghost before = map@;
    let ghost kv = k.deep_view();
    let ghost xv = x.deep_view();
    let found = map.remove(&k);
    let ghost mid = map@;
    let mut set = match found {
        Some(set) => set,
        None => OrderedSet::new(),
    };
    let ghost sv = set@;
    assert(sv.to_set() =~= set_at(before, kv));
    set.insert(x);
    map.insert(k, set);
    proof {
        assert(map.map().dom() =~= as_map(before).dom().insert(kv));
        assert forall|j: K::V| #[trigger]
            set_at(map@, j) == (if j == kv {
                set_at(before, j).insert(xv)
            } else {
                set_at(before, j)
            }) by {
            assert(has_key(map@, j) == map.map().dom().contains(j));
            assert(has_key(before, j) == as_map(before).dom().contains(j));
            if j != kv {
                if has_key(before, j) {
                    assert(as_map(mid)[j] == as_map(before)[j]);
                    assert(map.map()[j] == as_map(mid)[j]);
                }
            } else {
                assert(map.map()[j].to_set() == sv.to_set().insert(xv));
            }
        }
    }
}

/// Takes an item out of the set of a key; a key without a set stays without.
pub fn remove_from_set_at<K: Sortable, X: Sortable>(
    map: &mut OrderedMap<K, OrderedSet<X>>,
    k: &K,
    x: &X,
)
    ensures
        final(map).map().dom() == old(map).map().dom(),
        forall|j: K::V| #[trigger]
            set_at(final(map)@, j) == (if j == k.deep_view() {
                set_at(old(map)@, j).remove(x.deep_view())
            } else {
                set_at(old(map)@, j)
            }),
        strictly_sorted::<K>(keys_of(final(map)@)),
{
    let ghost before = map@;
    let ghost kv = k.deep_view();
    let ghost xv = x.deep_view();
    let found = map.remove(k);
    let ghost mid = map@;
    match found {
        Some(mut set) => {
            let ghost sv = set@;
            set.remove(x);
            map.insert(k.dup(), set);
            proof {
                assert(map.map().dom() =~= as_map(before).dom());
                assert forall|j: K::V| #[trigger]
                    set_at(map@, j) == (if j == kv {
                        set_at(before, j).remove(xv)
                    } else {
                        set_at(before, j)
                    }) by {
                    assert(has_key(map@, j) == map.map().dom().contains(j));
                    assert(has_key(before, j) == as_map(before).dom().contains(j));
                    if j != kv {
                        if has_key(before, j) {
                            assert(as_map(mid)[j] == as_map(before)[j]);
                            assert(map.map()[j] == as_map(mid)[j]);
                        }
                    } else {
                        assert(map.map()[j].to_set() == sv.to_set().remove(xv));
                    }
                }
            }
        },
        None => {
            proof {
                assert(map@ == before);
                assert forall|j: K::V| #[trigger]
                    set_at(map@, j) == (if j == kv {
                        set_at(before, j).remove(xv)
                    } else {
                        set_at(before, j)
                    }) by {
                    if j == kv {
                        assert(set_at(before, j) =~= set_at(before, j).remove(xv));
                    }
                }
            }
        },
    }
}

} // verus!
