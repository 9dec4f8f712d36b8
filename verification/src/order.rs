//! Total orders on the values that the engine keeps in ordered collections.
//!
//! Every value has a mathematical model (its deep view). An order is a strict
//! total order on models together with an executable three-way comparison.

use vstd::prelude::*;

verus! {

/// The outcome of a three-way comparison.
#[derive(Debug, PartialEq, Eq, Structural, Clone, Copy)]
pub enum Rank {
    Less,
    Equal,
    Greater,
}

/// A value that can be copied without changing its model.
pub trait Value: DeepView + Sized {
    fn dup(&self) -> (r: Self)
        ensures
            r.deep_view() == self.deep_view(),
    ;
}

/// A value whose models are strictly and totally ordered.
pub trait Sortable: Value {
    spec fn before(a: Self::V, b: Self::V) -> bool;

    proof fn lemma_order(a: Self::V, b: Self::V, c: Self::V)
        ensures
            !Self::before(a, a),
            Self::before(a, b) && Self::before(b, c) ==> Self::before(a, c),
            a == b || Self::before(a, b) || Self::before(b, a),
    ;

    fn rank(&self, other: &Self) -> (r: Rank)
        ensures
            r is Less <==> Self::before(self.deep_view(), other.deep_view()),
            r is Equal <==> self.deep_view() == other.deep_view(),
            r is Greater <==> Self::before(other.deep_view(), self.deep_view()),
    ;
}

/// Lexicographic order on sequences: a proper prefix comes first, otherwise
/// the first position at which the two differ decides.
pub open spec fn lex_before<T: Sortable>(a: Seq<T::V>, b: Seq<T::V>) -> bool
    decreases a.len(),
{
    if b.len() == 0 {
        false
    } else if a.len() == 0 {
        true
    } else if T::before(a[0], b[0]) {
        true
    } else if T::before(b[0], a[0]) {
        false
    } else {
        lex_before::<T>(a.drop_first(), b.drop_first())
    }
}

pub proof fn lemma_lex_irreflexive<T: Sortable>(a: Seq<T::V>)
    ensures
        !lex_before::<T>(a, a),
    decreases a.len(),
{
    if a.len() > 0 {
        T::lemma_order(a[0], a[0], a[0]);
        lemma_lex_irreflexive::<T>(a.drop_first());
    }
}

pub proof fn lemma_lex_transitive<T: Sortable>(a: Seq<T::V>, b: Seq<T::V>, c: Seq<T::V>)
    requires
        lex_before::<T>(a, b),
        lex_before::<T>(b, c),
    ensures
        lex_before::<T>(a, c),
    decreases a.len(),
{
    if a.len() > 0 {
        T::lemma_order(a[0], b[0], c[0]);
        T::lemma_order(b[0], a[0], c[0]);
        T::lemma_order(c[0], b[0], a[0]);
        T::lemma_order(b[0], c[0], a[0]);
        T::lemma_order(a[0], c[0], b[0]);
        T::lemma_order(c[0], a[0], b[0]);
        if !T::before(a[0], c[0]) {
            assert(a[0] == b[0] && b[0] == c[0]);
            lemma_lex_transitive::<T>(a.drop_first(), b.drop_first(), c.drop_first());
        }
    }
}

pub proof fn lemma_lex_total<T: Sortable>(a: Seq<T::V>, b: Seq<T::V>)
    ensures
        a == b || lex_before::<T>(a, b) || lex_before::<T>(b, a),
    decreases a.len(),
{
    if a.len() == 0 || b.len() == 0 {
        if a.len() == 0 && b.len() == 0 {
            assert(a =~= b);
        }
    } else {
        T::lemma_order(a[0], b[0], a[0]);
        if !T::before(a[0], b[0]) && !T::before(b[0], a[0]) {
            lemma_lex_total::<T>(a.drop_first(), b.drop_first());
            if a.drop_first() == b.drop_first() {
                assert(a =~= seq![a[0]] + a.drop_first());
                assert(b =~= seq![b[0]] + b.drop_first());
            }
        }
    }
}

pub proof fn lemma_lex_order<T: Sortable>(a: Seq<T::V>, b: Seq<T::V>, c: Seq<T::V>)
    ensures
        !lex_before::<T>(a, a),
        lex_before::<T>(a, b) && lex_before::<T>(b, c) ==> lex_before::<T>(a, c),
        a == b || lex_before::<T>(a, b) || lex_before::<T>(b, a),
{
    lemma_lex_irreflexive::<T>(a);
    lemma_lex_total::<T>(a, b);
    if lex_before::<T>(a, b) && lex_before::<T>(b, c) {
        lemma_lex_transitive::<T>(a, b, c);
    }
}

impl Value for u64 {
    fn dup(&self) -> (r: Self) {
        *self
    }
}

impl Sortable for u64 {
    open spec fn before(a: u64, b: u64) -> bool {
        a < b
    }

    proof fn lemma_order(a: u64, b: u64, c: u64) {
    }

    fn rank(&self, other: &Self) -> (r: Rank) {
        if *self < *other {
            Rank::Less
        } else if *self == *other {
            Rank::Equal
        } else {
            Rank::Greater
        }
    }
}

impl Value for u8 {
    fn dup(&self) -> (r: Self) {
        *self
    }
}

impl Sortable for u8 {
    open spec fn before(a: u8, b: u8) -> bool {
        a < b
    }

    proof fn lemma_order(a: u8, b: u8, c: u8) {
    }

    fn rank(&self, other: &Self) -> (r: Rank) {
        if *self < *other {
            Rank::Less
        } else if *self == *other {
            Rank::Equal
        } else {
            Rank::Greater
        }
    }
}

impl Value for char {
    fn dup(&self) -> (r: Self) {
        *self
    }
}

impl Sortable for char {
    open spec fn before(a: char, b: char) -> bool {
        a < b
    }

    proof fn lemma_order(a: char, b: char, c: char) {
    }

    fn rank(&self, other: &Self) -> (r: Rank) {
        if *self < *other {
            Rank::Less
        } else if *self == *other {
            Rank::Equal
        } else {
            Rank::Greater
        }
    }
}

/// `str`'s `<` of std: strings are ordered lexicographically by their byte
/// values, which orders them by the code points of their characters.
#[verifier::external_body]
fn string_less(a: &String, b: &String) -> (r: bool)
    ensures
        r == lex_before::<char>(a@, b@),
{
    a.as_str() < b.as_str()
}

/// Whether two strings hold the same characters.
fn string_same(a: &String, b: &String) -> (r: bool)
    ensures
        r == (a@ == b@),
{
    *a == *b
}

impl Value for String {
    fn dup(&self) -> (r: Self) {
        self.clone()
    }
}

impl Sortable for String {
    open spec fn before(a: Seq<char>, b: Seq<char>) -> bool {
        lex_before::<char>(a, b)
    }

    proof fn lemma_order(a: Seq<char>, b: Seq<char>, c: Seq<char>) {
        lemma_lex_order::<char>(a, b, c);
    }

    fn rank(&self, other: &Self) -> (r: Rank) {
        proof {
            lemma_lex_order::<char>(self@, other@, self@);
        }
        if string_same(self, other) {
            Rank::Equal
        } else if string_less(self, other) {
            Rank::Less
        } else {
            Rank::Greater
        }
    }
}

impl<T: Value> Value for Option<T> {
    fn dup(&self) -> (r: Self) {
        match self {
            None => None,
            Some(x) => Some(x.dup()),
        }
    }
}

impl<T: Sortable> Sortable for Option<T> {
    open spec fn before(a: Option<T::V>, b: Option<T::V>) -> bool {
        match (a, b) {
            (None, Some(_)) => true,
            (Some(x), Some(y)) => T::before(x, y),
            _ => false,
        }
    }

    proof fn lemma_order(a: Option<T::V>, b: Option<T::V>, c: Option<T::V>) {
        if a is Some && b is Some && c is Some {
            T::lemma_order(a->0, b->0, c->0);
        } else if a is Some && b is Some {
            T::lemma_order(a->0, b->0, b->0);
        } else if a is Some {
            T::lemma_order(a->0, a->0, a->0);
        }
    }

    fn rank(&self, other: &Self) -> (r: Rank) {
        match (self, other) {
            (None, None) => Rank::Equal,
            (None, Some(_)) => Rank::Less,
            (Some(_), None) => Rank::Greater,
            (Some(x), Some(y)) => x.rank(y),
        }
    }
}

impl<T: Value> Value for Vec<T> {
    fn dup(&self) -> (r: Self) {
        let mut out: Vec<T> = Vec::new();
        let mut i: usize = 0;
        while i < self.len()
            invariant
                i <= self.len(),
                out@.len() == i,
                forall|j: int| 0 <= j < i ==> out@[j].deep_view() == self@[j].deep_view(),
            decreases self.len() - i,
        {
            out.push(self[i].dup());
            i = i + 1;
        }
        assert(out.deep_view() =~= self.deep_view());
        out
    }
}

impl<T: Sortable> Sortable for Vec<T> {
    open spec fn before(a: Seq<T::V>, b: Seq<T::V>) -> bool {
        lex_before::<T>(a, b)
    }

    proof fn lemma_order(a: Seq<T::V>, b: Seq<T::V>, c: Seq<T::V>) {
        lemma_lex_order::<T>(a, b, c);
    }

    fn rank(&self, other: &Self) -> (r: Rank) {
        let mut i: usize = 0;
        let ghost a = self.deep_view();
        let ghost b = other.deep_view();
        proof {
            assert(a.skip(0) =~= a);
            assert(b.skip(0) =~= b);
            assert(a.take(0) =~= b.take(0));
        }
        while i < self.len() && i < other.len()
            invariant
                i <= self.len(),
                i <= other.len(),
                a == self.deep_view(),
                b == other.deep_view(),
                a.take(i as int) == b.take(i as int),
                lex_before::<T>(a, b) == lex_before::<T>(a.skip(i as int), b.skip(i as int)),
                lex_before::<T>(b, a) == lex_before::<T>(b.skip(i as int), a.skip(i as int)),
            decreases self.len() - i,
        {
            let r = self[i].rank(&other[i]);
            proof {
                let sa = a.skip(i as int);
                let sb = b.skip(i as int);
                assert(sa[0] == a[i as int]);
                assert(sb[0] == b[i as int]);
                assert(sa.drop_first() =~= a.skip(i + 1));
                assert(sb.drop_first() =~= b.skip(i + 1));
                T::lemma_order(sa[0], sb[0], sa[0]);
                if r is Equal {
                    assert(a.take(i + 1) =~= a.take(i as int).push(a[i as int]));
                    assert(b.take(i + 1) =~= b.take(i as int).push(b[i as int]));
                } else {
                    assert(a.take(i + 1)[i as int] != b.take(i + 1)[i as int]);
                    if a == b {
                        assert(false);
                    }
                }
            }
            match r {
                Rank::Less => {
                    return Rank::Less;
                },
                Rank::Greater => {
                    return Rank::Greater;
                },
                Rank::Equal => {},
            }
            i = i + 1;
        }
        proof {
            let sa = a.skip(i as int);
            let sb = b.skip(i as int);
            assert(sa.len() == a.len() - i);
            assert(sb.len() == b.len() - i);
            if a.len() == b.len() {
                assert(a =~= a.take(i as int));
                assert(b =~= b.take(i as int));
            }
        }
        if self.len() < other.len() {
            Rank::Less
        } else if self.len() == other.len() {
            Rank::Equal
        } else {
            Rank::Greater
        }
    }
}

impl<A: Value, B: Value> Value for (A, B) {
    fn dup(&self) -> (r: Self) {
        (self.0.dup(), self.1.dup())
    }
}

impl<A: Sortable, B: Sortable> Sortable for (A, B) {
    open spec fn before(a: (A::V, B::V), b: (A::V, B::V)) -> bool {
        A::before(a.0, b.0) || (a.0 == b.0 && B::before(a.1, b.1))
    }

    proof fn lemma_order(a: (A::V, B::V), b: (A::V, B::V), c: (A::V, B::V)) {
        A::lemma_order(a.0, b.0, c.0);
        A::lemma_order(a.0, a.0, a.0);
        B::lemma_order(a.1, b.1, c.1);
    }

    fn rank(&self, other: &Self) -> (r: Rank) {
        proof {
            A::lemma_order(self.0.deep_view(), other.0.deep_view(), self.0.deep_view());
            B::lemma_order(self.1.deep_view(), other.1.deep_view(), self.1.deep_view());
        }
        match self.0.rank(&other.0) {
            Rank::Less => Rank::Less,
            Rank::Greater => Rank::Greater,
            Rank::Equal => self.1.rank(&other.1),
        }
    }
}

/// Whether two values have the same model.
pub fn same<T: Sortable>(a: &T, b: &T) -> (r: bool)
    ensures
        r == (a.deep_view() == b.deep_view()),
{
    match a.rank(b) {
        Rank::Equal => true,
        _ => false,
    }
}

} // verus!
