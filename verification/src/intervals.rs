//! The reprocess-interval algebra: the ranges of timestamps whose events have
//! to be looked at again after the edges they depended on have changed.

use crate::graph::{all_begin, Edge, EdgeView};
use vstd::prelude::*;
use vstd::relations::{sorted_by, total_ordering};
use vstd::seq_lib::{
    lemma_seq_union_to_multiset_commutative, lemma_sorted_unique, to_multiset_build,
    to_multiset_insert,
};

verus! {

/// A range of timestamps, from `from` up to and including `to`; without a
/// `to` it never ends.
#[derive(Debug, Clone, Copy, PartialEq, Eq, Structural)]
pub struct ReprocessInterval {
    pub from: u64,
    pub to: Option<u64>,
}

/// The later of two ends, where an absent end is later than any other.
pub open spec fn later_end(a: Option<u64>, b: Option<u64>) -> Option<u64> {
    if a is None || b is None {
        None
    } else if a->0 < b->0 {
        b
    } else {
        a
    }
}

/// Whether a timestamp lies in a range that may be open.
pub open spec fn within(t: int, from: u64, to: Option<u64>) -> bool {
    from <= t && (to is None || t <= to->0)
}

impl ReprocessInterval {
    /// Whether a timestamp lies in the interval.
    pub open spec fn covers(self, t: int) -> bool {
        within(t, self.from, self.to)
    }

    /// The interval does not end before it begins.
    pub open spec fn well_formed(self) -> bool {
        self.to is Some ==> self.from <= self.to->0
    }

    /// Whether the interval and the range from `other_from` to `other_to`
    /// overlap: the one that begins first ends after the other begins.
    pub open spec fn overlaps_spec(self, other_from: u64, other_to: Option<u64>) -> bool {
        (self.from <= other_from && (self.to is None || self.to->0 > other_from)) || (other_from
            <= self.from && (other_to is None || other_to->0 > self.from))
    }

    /// The piece of the interval before `other_from`.
    pub open spec fn left_piece(self, other_from: u64) -> Seq<ReprocessInterval> {
        if self.from < other_from {
            seq![ReprocessInterval { from: self.from, to: Some((other_from - 1) as u64) }]
        } else {
            Seq::empty()
        }
    }

    /// The piece of the interval behind `other_to`.
    pub open spec fn right_piece(self, other_from: u64, other_to: Option<u64>) -> Seq<
        ReprocessInterval,
    > {
        if other_to is None || other_to->0 == u64::MAX {
            Seq::empty()
        } else if self.to is None {
            seq![ReprocessInterval { from: (other_to->0 + 1) as u64, to: None }]
        } else if other_to->0 < self.to->0 && (self.from < other_from || self.from < other_to->0) {
            seq![ReprocessInterval { from: (other_to->0 + 1) as u64, to: self.to }]
        } else {
            Seq::empty()
        }
    }

    /// What is left of the interval without the range from `other_from` to
    /// `other_to`: the piece before it, then the piece behind it.
    pub open spec fn subtract_spec(self, other_from: u64, other_to: Option<u64>) -> Seq<
        ReprocessInterval,
    > {
        self.left_piece(other_from) + self.right_piece(other_from, other_to)
    }

    /// Takes a range out of the interval. Where the two overlap and neither
    /// ends before it begins, the pieces cover the interval without the range
    /// exactly.
    pub fn subtract(&self, other_from: u64, other_to: &Option<u64>) -> (r: Vec<ReprocessInterval>)
        ensures
            r@ == self.subtract_spec(other_from, *other_to),
            r@.len() <= 2,
            self.overlaps_spec(other_from, *other_to) && self.well_formed() && (*other_to is Some
                ==> other_from < other_to->0) ==> forall|t: u64|
                (exists|k: int| 0 <= k < r@.len() && (#[trigger] r@[k]).covers(t as int)) <==> (
                self.covers(t as int) && !within(t as int, other_from, *other_to)),
    {
        let mut result: Vec<ReprocessInterval> = Vec::new();
        if self.from < other_from {
            result.push(ReprocessInterval { from: self.from, to: Some(other_from - 1) });
        }
        let ghost left = result@;
        assert(left =~= self.left_piece(other_from));
        match other_to {
            None => {},
            Some(end) => {
                let end: u64 = *end;
                if end < u64::MAX {
                    match self.to {
                        None => {
                            result.push(ReprocessInterval { from: end + 1, to: None });
                        },
                        Some(own_end) => {
                            if end < own_end && (self.from < other_from || self.from < end) {
                                result.push(ReprocessInterval { from: end + 1, to: self.to });
                            }
                        },
                    }
                }
            },
        }
        proof {
            let right = self.right_piece(other_from, *other_to);
            assert(result@ =~= left + right);
            if self.overlaps_spec(other_from, *other_to) && self.well_formed() && (*other_to is Some
                ==> other_from < other_to->0) {
                let r = result@;
                assert(r.len() == left.len() + right.len());
                assert forall|t: u64|
                    (exists|k: int| 0 <= k < r.len() && (#[trigger] r[k]).covers(t as int)) <==> (
                    self.covers(t as int) && !within(t as int, other_from, *other_to)) by {
                    if self.covers(t as int) && !within(t as int, other_from, *other_to) {
                        if t < other_from {
                            assert(left.len() == 1);
                            assert(r[0] == left[0]);
                            assert(r[0].covers(t as int));
                        } else {
                            assert(right.len() == 1);
                            assert(r[r.len() - 1] == right[0]);
                            assert(r[r.len() - 1].covers(t as int));
                        }
                    }
                    if exists|k: int| 0 <= k < r.len() && (#[trigger] r[k]).covers(t as int) {
                        let k = choose|k: int| 0 <= k < r.len() && (#[trigger] r[k]).covers(t as int);
                        if k < left.len() {
                            assert(r[k] == left[k]);
                        } else {
                            assert(r[k] == right[k - left.len()]);
                        }
                    }
                }
            }
        }
        result
    }

    pub fn overlaps(&self, other_from: u64, other_to: &Option<u64>) -> (r: bool)
        ensures
            r == self.overlaps_spec(other_from, *other_to),
    {
        if self.from <= other_from && (self.to.is_none() || self.to.unwrap() > other_from) {
            return true;
        }
        if other_from <= self.from && (other_to.is_none() || other_to.unwrap() > self.from) {
            return true;
        }
        false
    }
}

/// The order in which intervals are merged: by their beginning and, among
/// those that begin together, by their end, an open end last.
pub open spec fn interval_leq(a: ReprocessInterval, b: ReprocessInterval) -> bool {
    a.from < b.from || (a.from == b.from && (b.to is None || (a.to is Some && a.to->0 <= b.to->0)))
}

pub open spec fn interval_order() -> spec_fn(ReprocessInterval, ReprocessInterval) -> bool {
    |a: ReprocessInterval, b: ReprocessInterval| interval_leq(a, b)
}

pub proof fn lemma_interval_order_total()
    ensures
        total_ordering(interval_order()),
{
    let r = interval_order();
    assert forall|x: ReprocessInterval, y: ReprocessInterval| #[trigger]
        r(x, y) && #[trigger] r(y, x) implies x == y by {
        assert(x.from == y.from);
        assert(x.to == y.to);
    }
}

/// The intervals in the order in which they are merged.
pub open spec fn sorted_intervals(s: Seq<ReprocessInterval>) -> Seq<ReprocessInterval> {
    s.sort_by(interval_order())
}

/// The sorted intervals from position `j` on, merged into `cur` as long as
/// they begin no later than it ends.
pub open spec fn merge_from(cur: ReprocessInterval, s: Seq<ReprocessInterval>, j: int) -> Seq<
    ReprocessInterval,
>
    decreases s.len() - j,
{
    if j < 0 || j >= s.len() || cur.to is None {
        seq![cur]
    } else if s[j].from <= cur.to->0 {
        merge_from(ReprocessInterval { from: cur.from, to: later_end(cur.to, s[j].to) }, s, j + 1)
    } else {
        seq![cur] + merge_from(s[j], s, j + 1)
    }
}

/// Sorted intervals with every two merged of which the second begins no later
/// than the first ends.
pub open spec fn merge_sorted(s: Seq<ReprocessInterval>) -> Seq<ReprocessInterval> {
    if s.len() == 0 {
        s
    } else {
        merge_from(s[0], s, 1)
    }
}

/// The canonical form of a list of intervals: sorted, then merged.
pub open spec fn non_redundant(s: Seq<ReprocessInterval>) -> Seq<ReprocessInterval> {
    merge_sorted(sorted_intervals(s))
}

fn interval_not_after(a: &ReprocessInterval, b: &ReprocessInterval) -> (r: bool)
    ensures
        r == interval_leq(*a, *b),
{
    if a.from < b.from {
        true
    } else if a.from == b.from {
        match b.to {
            None => true,
            Some(y) => match a.to {
                None => false,
                Some(x) => x <= y,
            },
        }
    } else {
        false
    }
}

fn sort_intervals(v: &Vec<ReprocessInterval>) -> (r: Vec<ReprocessInterval>)
    ensures
        r@ == sorted_intervals(v@),
{
    let mut out: Vec<ReprocessInterval> = Vec::new();
    let mut i: usize = 0;
    proof {
        lemma_interval_order_total();
        assert(v@.take(0) =~= Seq::<ReprocessInterval>::empty());
    }
    while i < v.len()
        invariant
            i <= v.len(),
            sorted_by(out@, interval_order()),
            out@.to_multiset() == v@.take(i as int).to_multiset(),
            total_ordering(interval_order()),
        decreases v.len() - i,
    {
        let x = v[i];
        let mut pos: usize = out.len();
        while pos > 0 && !interval_not_after(&out[pos - 1], &x)
            invariant
                pos <= out.len(),
                forall|j: int| pos <= j < out@.len() ==> !interval_leq(#[trigger] out@[j], x),
            decreases pos,
        {
            pos = pos - 1;
        }
        let ghost before = out@;
        out.insert(pos, x);
        proof {
            let r = interval_order();
            assert forall|a: int, b: int| 0 <= a < b < out@.len() implies #[trigger] r(
                out@[a],
                out@[b],
            ) by {
                if b < pos {
                    assert(r(before[a], before[b]));
                } else if b == pos {
                    if a < pos - 1 {
                        assert(r(before[a], before[pos - 1]));
                    }
                    assert(interval_leq(before[pos - 1], x));
                    assert(r(before[pos - 1], x));
                } else if a == pos {
                    assert(!interval_leq(before[b - 1], x));
                } else if a < pos {
                    assert(r(before[a], before[b - 1]));
                } else {
                    assert(r(before[a - 1], before[b - 1]));
                }
            }
            to_multiset_insert(before, pos as int, x);
            to_multiset_build(v@.take(i as int), x);
            assert(v@.take(i + 1) =~= v@.take(i as int).push(x));
        }
        i = i + 1;
    }
    proof {
        assert(v@.take(i as int) =~= v@);
        v@.lemma_sort_by_ensures(interval_order());
        lemma_sorted_unique(out@, v@.sort_by(interval_order()), interval_order());
    }
    out
}

/// Brings a list of intervals into canonical form: sorted by their beginning,
/// and any two merged of which the second begins no later than the first
/// ends; the merged interval ends with the later of the two.
pub fn find_non_redundant_intervals(reprocess_intervals: Vec<ReprocessInterval>) -> (r: Vec<
    ReprocessInterval,
>)
    ensures
        r@ == non_redundant(reprocess_intervals@),
{
    let sorted = sort_intervals(&reprocess_intervals);
    if sorted.len() == 0 {
        return sorted;
    }
    let mut out: Vec<ReprocessInterval> = Vec::new();
    let mut cur = sorted[0];
    let mut j: usize = 1;
    let ghost s = sorted@;
    assert(out@ + merge_from(cur, s, 1) =~= merge_sorted(s));
    while j < sorted.len() && cur.to.is_some()
        invariant
            1 <= j <= sorted.len(),
            s == sorted@,
            out@ + merge_from(cur, s, j as int) == merge_sorted(s),
        decreases sorted.len() - j,
    {
        let next = sorted[j];
        let end = cur.to.unwrap();
        if next.from <= end {
            match next.to {
                None => {
                    cur.to = None;
                },
                Some(e) => {
                    if end < e {
                        cur.to = next.to;
                    }
                },
            }
        } else {
            proof {
                let tail = merge_from(next, s, j + 1);
                assert(out@.push(cur) + tail =~= out@ + (seq![cur] + tail));
            }
            out.push(cur);
            cur = next;
        }
        j = j + 1;
    }
    proof {
        assert(merge_from(cur, s, j as int) == seq![cur]);
        assert(out@.push(cur) =~= out@ + seq![cur]);
    }
    out.push(cur);
    out
}

/// The interval over which an edge is live.
pub open spec fn interval_of(e: EdgeView) -> ReprocessInterval {
    ReprocessInterval { from: e.from_timestamp->0, to: e.to_timestamp }
}

/// The pieces, each one that overlaps the range replaced by what is left of
/// it without the range.
pub open spec fn cut(pieces: Seq<ReprocessInterval>, from: u64, to: Option<u64>) -> Seq<
    ReprocessInterval,
>
    decreases pieces.len(),
{
    if pieces.len() == 0 {
        pieces
    } else {
        cut(pieces.drop_last(), from, to) + (if pieces.last().overlaps_spec(from, to) {
            pieces.last().subtract_spec(from, to)
        } else {
            seq![pieces.last()]
        })
    }
}

/// The pieces after the first `k` of the other edges have been cut out.
pub open spec fn uncovered(pieces: Seq<ReprocessInterval>, others: Seq<EdgeView>, k: int) -> Seq<
    ReprocessInterval,
>
    decreases k,
{
    if k <= 0 {
        pieces
    } else {
        cut(
            uncovered(pieces, others, k - 1),
            others[k - 1].from_timestamp->0,
            others[k - 1].to_timestamp,
        )
    }
}

/// The pieces of the first `n` edges that none of the other edges covers.
pub open spec fn fresh_pieces(edges: Seq<EdgeView>, others: Seq<EdgeView>, n: int) -> Seq<
    ReprocessInterval,
>
    decreases n,
{
    if n <= 0 {
        Seq::empty()
    } else {
        fresh_pieces(edges, others, n - 1) + uncovered(
            seq![interval_of(edges[n - 1])],
            others,
            others.len() as int,
        )
    }
}

/// The intervals to reprocess after the intervals of one edge shape have
/// changed from `existing` to `updated`: what `updated` covers and `existing`
/// did not, and what `existing` covered and `updated` does not, in canonical
/// form.
pub open spec fn intervals_to_reprocess(updated: Seq<EdgeView>, existing: Seq<EdgeView>) -> Seq<
    ReprocessInterval,
> {
    non_redundant(
        fresh_pieces(updated, existing, updated.len() as int) + fresh_pieces(
            existing,
            updated,
            existing.len() as int,
        ),
    )
}

fn cut_pieces(pieces: Vec<ReprocessInterval>, from: u64, to: &Option<u64>) -> (r: Vec<
    ReprocessInterval,
>)
    ensures
        r@ == cut(pieces@, from, *to),
{
    let mut out: Vec<ReprocessInterval> = Vec::new();
    let mut i: usize = 0;
    assert(pieces@.take(0) =~= Seq::<ReprocessInterval>::empty());
    while i < pieces.len()
        invariant
            i <= pieces.len(),
            out@ == cut(pieces@.take(i as int), from, *to),
        decreases pieces.len() - i,
    {
        let piece = pieces[i];
        proof {
            let cur = pieces@.take(i + 1);
            assert(cur.drop_last() =~= pieces@.take(i as int));
            assert(cur.last() == pieces@[i as int]);
        }
        if piece.overlaps(from, to) {
            let mut rest = piece.subtract(from, to);
            let ghost prev = out@;
            let ghost add = rest@;
            out.append(&mut rest);
            assert(out@ =~= prev + add);
        } else {
            let ghost prev = out@;
            out.push(piece);
            assert(out@ =~= prev + seq![piece]);
        }
        i = i + 1;
    }
    assert(pieces@.take(i as int) =~= pieces@);
    out
}

fn collect_fresh_pieces(edges: &Vec<Edge>, others: &Vec<Edge>) -> (r: Vec<ReprocessInterval>)
    requires
        all_begin(edges.deep_view()),
        all_begin(others.deep_view()),
    ensures
        r@ == fresh_pieces(edges.deep_view(), others.deep_view(), edges.len() as int),
{
    let mut out: Vec<ReprocessInterval> = Vec::new();
    let ghost ev = edges.deep_view();
    let ghost ov = others.deep_view();
    let mut i: usize = 0;
    while i < edges.len()
        invariant
            i <= edges.len(),
            ev == edges.deep_view(),
            ov == others.deep_view(),
            all_begin(ev),
            all_begin(ov),
            out@ == fresh_pieces(ev, ov, i as int),
        decreases edges.len() - i,
    {
        let e = &edges[i];
        assert(ev[i as int] == e@);
        let first = ReprocessInterval { from: e.from_timestamp.unwrap(), to: e.to_timestamp };
        let mut pieces: Vec<ReprocessInterval> = Vec::new();
        pieces.push(first);
        assert(pieces@ =~= seq![interval_of(ev[i as int])]);
        let mut k: usize = 0;
        while k < others.len()
            invariant
                k <= others.len(),
                ov == others.deep_view(),
                all_begin(ov),
                pieces@ == uncovered(seq![interval_of(ev[i as int])], ov, k as int),
            decreases others.len() - k,
        {
            let o = &others[k];
            assert(ov[k as int] == o@);
            pieces = cut_pieces(pieces, o.from_timestamp.unwrap(), &o.to_timestamp);
            k = k + 1;
        }
        let ghost prev = out@;
        let ghost add = pieces@;
        out.append(&mut pieces);
        assert(out@ =~= prev + add);
        i = i + 1;
    }
    out
}

/// Finds the intervals to reprocess after the intervals of one edge shape
/// have changed from `existing_edges_with_timestamp` to
/// `updated_edges_with_timestamp`.
pub fn find_intervals_to_reprocess(
    updated_edges_with_timestamp: &Vec<Edge>,
    existing_edges_with_timestamp: &Vec<Edge>,
) -> (r: Vec<ReprocessInterval>)
    requires
        all_begin(updated_edges_with_timestamp.deep_view()),
        all_begin(existing_edges_with_timestamp.deep_view()),
    ensures
        r@ == intervals_to_reprocess(
            updated_edges_with_timestamp.deep_view(),
            existing_edges_with_timestamp.deep_view(),
        ),
{
    let mut added_intervals = collect_fresh_pieces(
        updated_edges_with_timestamp,
        existing_edges_with_timestamp,
    );
    let mut lost_intervals = collect_fresh_pieces(
        existing_edges_with_timestamp,
        updated_edges_with_timestamp,
    );
    let ghost a = added_intervals@;
    let ghost l = lost_intervals@;
    added_intervals.append(&mut lost_intervals);
    assert(added_intervals@ =~= a + l);
    find_non_redundant_intervals(added_intervals)
}

/// The canonical form of a list of intervals does not depend on the order in
/// which the list holds them.
pub proof fn lemma_non_redundant_of_permutation(
    a: Seq<ReprocessInterval>,
    b: Seq<ReprocessInterval>,
)
    requires
        a.to_multiset() == b.to_multiset(),
    ensures
        non_redundant(a) == non_redundant(b),
{
    lemma_interval_order_total();
    a.lemma_sort_by_ensures(interval_order());
    b.lemma_sort_by_ensures(interval_order());
    lemma_sorted_unique(sorted_intervals(a), sorted_intervals(b), interval_order());
}

/// The intervals to reprocess are the same whichever of the two edge lists
/// is called the updated one and whichever the existing one.
pub proof fn lemma_reprocess_symmetric(new: Seq<EdgeView>, old: Seq<EdgeView>)
    ensures
        intervals_to_reprocess(new, old) == intervals_to_reprocess(old, new),
{
    let x = fresh_pieces(new, old, new.len() as int);
    let y = fresh_pieces(old, new, old.len() as int);
    lemma_seq_union_to_multiset_commutative(x, y);
    lemma_non_redundant_of_permutation(x + y, y + x);
}

} // verus!
