//! Chronological order of respondents: what it means for a list to be in
//! submission order, and the stable sort that establishes it.

use crate::respondent::Respondent;
use vstd::prelude::*;

verus! {

/// Submission times never decrease along `s`.
pub open spec fn time_ordered(s: Seq<Respondent>) -> bool {
    forall|i: int, j: int| 0 <= i <= j < s.len() ==> s[i].time() <= s[j].time()
}

/// `s` with `x` put behind every element that is not later than `x`.
pub open spec fn insert_by_time(s: Seq<Respondent>, x: Respondent) -> Seq<Respondent>
    decreases s.len(),
{
    if s.len() == 0 || s.last().time() <= x.time() {
        s.push(x)
    } else {
        insert_by_time(s.drop_last(), x).push(s.last())
    }
}

/// The stable chronological arrangement of `s`: earliest first, and
/// respondents with the same time in the order they have in `s`.
pub open spec fn sort_by_time(s: Seq<Respondent>) -> Seq<Respondent>
    decreases s.len(),
{
    if s.len() == 0 {
        s
    } else {
        insert_by_time(sort_by_time(s.drop_last()), s.last())
    }
}

/// The respondents of `s` that were submitted at time `t`, in their order.
pub open spec fn submitted_at(s: Seq<Respondent>, t: u64) -> Seq<Respondent> {
    s.filter(|r: Respondent| r.time() == t)
}

/// Inserting by time adds exactly `x`, and keeps a chronological list
/// chronological.
pub proof fn lemma_insert_by_time(s: Seq<Respondent>, x: Respondent)
    ensures
        insert_by_time(s, x).len() == s.len() + 1,
        insert_by_time(s, x).to_multiset() == s.to_multiset().insert(x),
        time_ordered(s) ==> time_ordered(insert_by_time(s, x)),
    decreases s.len(),
{
    broadcast use vstd::seq_lib::group_to_multiset_ensures;

    if s.len() == 0 || s.last().time() <= x.time() {
    } else {
        let front = s.drop_last();
        lemma_insert_by_time(front, x);
        assert(front.push(s.last()) =~= s);
        assert(insert_by_time(s, x).to_multiset() =~= s.to_multiset().insert(x));
        if time_ordered(s) {
            assert(time_ordered(front));
            let mid = insert_by_time(front, x);
            let out = mid.push(s.last());
            assert forall|i: int| 0 <= i < mid.len() implies #[trigger] mid[i].time()
                <= s.last().time() by {
                assert(mid.to_multiset().count(mid[i]) > 0);
                if mid[i] != x {
                    assert(front.to_multiset().count(mid[i]) > 0);
                    let k = choose|k: int| 0 <= k < front.len() && front[k] == mid[i];
                    assert(s[k] == front[k]);
                }
            }
            assert(time_ordered(out));
        }
    }
}

/// Sorting keeps the respondents, each as often as it occurs, and puts them
/// in chronological order.
pub proof fn lemma_sort_by_time(s: Seq<Respondent>)
    ensures
        sort_by_time(s).len() == s.len(),
        sort_by_time(s).to_multiset() == s.to_multiset(),
        time_ordered(sort_by_time(s)),
    decreases s.len(),
{
    broadcast use vstd::seq_lib::group_to_multiset_ensures;

    if s.len() > 0 {
        lemma_sort_by_time(s.drop_last());
        lemma_insert_by_time(sort_by_time(s.drop_last()), s.last());
        assert(s.drop_last().push(s.last()) =~= s);
    }
}

/// Sorting is stable in the plainest sense: a list that is already in
/// chronological order is left as it is, ties included.
pub proof fn lemma_sort_keeps_ordered(s: Seq<Respondent>)
    requires
        time_ordered(s),
    ensures
        sort_by_time(s) == s,
    decreases s.len(),
{
    if s.len() > 0 {
        let front = s.drop_last();
        assert(time_ordered(front));
        lemma_sort_keeps_ordered(front);
        if front.len() > 0 {
            assert(front.last() == s[s.len() - 2]);
        }
        assert(front.push(s.last()) =~= s);
    }
}

/// Inserting by time puts `x` behind the respondents of its own time and
/// leaves the respondents of every other time as they were.
pub proof fn lemma_insert_keeps_ties(s: Seq<Respondent>, x: Respondent, t: u64)
    ensures
        submitted_at(insert_by_time(s, x), t) == if x.time() == t {
            submitted_at(s, t).push(x)
        } else {
            submitted_at(s, t)
        },
    decreases s.len(),
{
    let at = |r: Respondent| r.time() == t;
    if s.len() == 0 || s.last().time() <= x.time() {
        s.lemma_filter_push(x, at);
    } else {
        let front = s.drop_last();
        lemma_insert_keeps_ties(front, x, t);
        insert_by_time(front, x).lemma_filter_push(s.last(), at);
        front.lemma_filter_push(s.last(), at);
        assert(front.push(s.last()) =~= s);
    }
}

/// Stability: respondents submitted at the same time stand in the sorted
/// list in the order they had before.
pub proof fn lemma_sort_is_stable(s: Seq<Respondent>, t: u64)
    ensures
        submitted_at(sort_by_time(s), t) == submitted_at(s, t),
    decreases s.len(),
{
    let at = |r: Respondent| r.time() == t;
    if s.len() > 0 {
        let front = s.drop_last();
        lemma_sort_is_stable(front, t);
        lemma_insert_keeps_ties(sort_by_time(front), s.last(), t);
        front.lemma_filter_push(s.last(), at);
        assert(front.push(s.last()) =~= s);
    }
}

/// The respondents submitted at `t` are respondents of the list, all with
/// time `t`, and none with that time is missing.
pub proof fn lemma_submitted_at(s: Seq<Respondent>, t: u64)
    ensures
        forall|i: int|
            0 <= i < submitted_at(s, t).len() ==> (#[trigger] submitted_at(s, t)[i]).time() == t
                && s.contains(submitted_at(s, t)[i]),
        forall|i: int|
            0 <= i < s.len() && s[i].time() == t ==> submitted_at(s, t).contains(#[trigger] s[i]),
{
    let at = |r: Respondent| r.time() == t;
    assert forall|i: int| 0 <= i < submitted_at(s, t).len() implies (#[trigger] submitted_at(
        s,
        t,
    )[i]).time() == t && s.contains(submitted_at(s, t)[i]) by {
        s.lemma_filter_pred(at, i);
        assert(s.filter(at).contains(s.filter(at)[i]));
        s.lemma_filter_contains_rev(at, s.filter(at)[i]);
    }
    assert forall|i: int| 0 <= i < s.len() && s[i].time() == t implies submitted_at(
        s,
        t,
    ).contains(#[trigger] s[i]) by {
        s.lemma_filter_contains(at, i);
    }
}

/// Appending a respondent appends it to the respondents of its own time and
/// to no others.
pub proof fn lemma_submitted_at_push(s: Seq<Respondent>, x: Respondent, t: u64)
    ensures
        submitted_at(s.push(x), t) == if x.time() == t {
            submitted_at(s, t).push(x)
        } else {
            submitted_at(s, t)
        },
{
    s.lemma_filter_push(x, |r: Respondent| r.time() == t);
}

/// There is one stable chronological arrangement: two chronological lists
/// that agree, for every time, on the respondents submitted then and on
/// their order, are the same list.
pub proof fn lemma_stable_order_is_unique(a: Seq<Respondent>, b: Seq<Respondent>)
    requires
        time_ordered(a),
        time_ordered(b),
        forall|t: u64| #[trigger] submitted_at(a, t) == submitted_at(b, t),
    ensures
        a == b,
    decreases a.len(),
{
    if a.len() == 0 {
        if b.len() > 0 {
            let t = b[0].time();
            lemma_submitted_at(b, t);
            assert(submitted_at(b, t).contains(b[0]));
            assert(submitted_at(a, t) == submitted_at(b, t));
            lemma_submitted_at(a, t);
            let k = choose|k: int| 0 <= k < submitted_at(b, t).len() && submitted_at(b, t)[k] == b[0];
            assert(a.contains(submitted_at(a, t)[k]));
        }
        assert(a =~= b);
    } else {
        let t = a.last().time();
        let a0 = a.drop_last();
        assert(a0.push(a.last()) =~= a);
        lemma_submitted_at_push(a0, a.last(), t);
        assert(submitted_at(a, t) == submitted_at(b, t));
        lemma_submitted_at(b, t);
        lemma_submitted_at(a, t);
        let e = submitted_at(b, t)[submitted_at(b, t).len() - 1];
        assert(e == a.last());
        assert(b.contains(submitted_at(b, t)[submitted_at(b, t).len() - 1]));
        assert(b.len() > 0);
        let u = b.last().time();
        let b0 = b.drop_last();
        assert(b0.push(b.last()) =~= b);
        lemma_submitted_at_push(b0, b.last(), u);
        assert(submitted_at(a, u) == submitted_at(b, u));
        lemma_submitted_at(a, u);
        lemma_submitted_at(b, u);
        if u != t {
            // whoever is latest in one list occurs in the other, no later than its last
            let f = submitted_at(a, u)[submitted_at(a, u).len() - 1];
            assert(f == b.last());
            assert(a.contains(submitted_at(a, u)[submitted_at(a, u).len() - 1]));
            let i = choose|i: int| 0 <= i < a.len() && a[i] == f;
            assert(a[i].time() <= a[a.len() - 1].time());
            let j = choose|j: int| 0 <= j < b.len() && b[j] == e;
            assert(b[j].time() <= b[b.len() - 1].time());
            assert(false);
        }
        assert(submitted_at(a0, t).push(a.last()) == submitted_at(b0, t).push(b.last()));
        assert(submitted_at(a0, t).push(a.last()).last() == a.last());
        assert(submitted_at(b0, t).push(b.last()).last() == b.last());
        assert(a.last() == b.last());
        assert forall|w: u64| #[trigger] submitted_at(a0, w) == submitted_at(b0, w) by {
            lemma_submitted_at_push(a0, a.last(), w);
            lemma_submitted_at_push(b0, b.last(), w);
            assert(submitted_at(a, w) == submitted_at(b, w));
            if w == t {
                assert(submitted_at(a0, w) =~= submitted_at(a0, w).push(a.last()).drop_last());
                assert(submitted_at(b0, w) =~= submitted_at(b0, w).push(b.last()).drop_last());
            }
        }
        assert(time_ordered(a0));
        assert(time_ordered(b0));
        lemma_stable_order_is_unique(a0, b0);
    }
}

/// A chronological list that agrees with `s`, for every time, on the
/// respondents submitted then and on their order, is `s` sorted.
pub proof fn lemma_sorted_by_ties(out: Seq<Respondent>, s: Seq<Respondent>)
    requires
        time_ordered(out),
        forall|t: u64| #[trigger] submitted_at(out, t) == submitted_at(s, t),
    ensures
        out == sort_by_time(s),
{
    lemma_sort_by_time(s);
    assert forall|t: u64| #[trigger] submitted_at(out, t) == submitted_at(sort_by_time(s), t) by {
        lemma_sort_is_stable(s, t);
        assert(submitted_at(out, t) == submitted_at(s, t));
    }
    lemma_stable_order_is_unique(out, sort_by_time(s));
}

/// Sorting two parts and then the two sorted parts together is sorting the
/// whole.
pub proof fn lemma_sort_of_sorted_parts(left: Seq<Respondent>, right: Seq<Respondent>)
    ensures
        sort_by_time(sort_by_time(left) + sort_by_time(right)) == sort_by_time(left + right),
{
    let joined = sort_by_time(left) + sort_by_time(right);
    let out = sort_by_time(joined);
    lemma_sort_by_time(joined);
    assert forall|t: u64| #[trigger] submitted_at(out, t) == submitted_at(left + right, t) by {
        let at = |r: Respondent| r.time() == t;
        lemma_sort_is_stable(joined, t);
        lemma_sort_is_stable(left, t);
        lemma_sort_is_stable(right, t);
        Seq::filter_distributes_over_add(sort_by_time(left), sort_by_time(right), at);
        Seq::filter_distributes_over_add(left, right, at);
    }
    lemma_sorted_by_ties(out, left + right);
}

/// Merges two chronological lists into one; where times are equal, the
/// respondents of `a` come before those of `b`.
fn merge_by_time(a: &Vec<Respondent>, b: &Vec<Respondent>) -> (out: Vec<Respondent>)
    requires
        time_ordered(a@),
        time_ordered(b@),
    ensures
        out@ == sort_by_time(a@ + b@),
{
    let mut out: Vec<Respondent> = Vec::new();
    let mut i: usize = 0;
    let mut j: usize = 0;
    proof {
        assert forall|t: u64| #[trigger]
            submitted_at(out@, t) == submitted_at(a@.take(0), t) + submitted_at(b@.take(0), t) by {
            assert(a@.take(0) =~= out@);
            assert(b@.take(0) =~= out@);
            assert(submitted_at(out@, t) =~= submitted_at(out@, t) + submitted_at(out@, t)) by {
                out@.lemma_filter_len(|r: Respondent| r.time() == t);
            }
        }
    }
    while i < a.len() || j < b.len()
        invariant
            i <= a@.len(),
            j <= b@.len(),
            time_ordered(a@),
            time_ordered(b@),
            time_ordered(out@),
            forall|t: u64| #[trigger]
                submitted_at(out@, t) == submitted_at(a@.take(i as int), t) + submitted_at(
                    b@.take(j as int),
                    t,
                ),
            forall|k: int| 0 <= k < out@.len() && i < a@.len() ==> out@[k].time() <= a@[i as int].time(),
            forall|k: int| 0 <= k < out@.len() && j < b@.len() ==> out@[k].time() <= b@[j as int].time(),
            forall|k: int| 0 <= k < j && i < a@.len() ==> b@[k].time() < a@[i as int].time(),
        decreases a@.len() - i + b@.len() - j,
    {
        let ghost before = out@;
        let from_a = if i >= a.len() {
            false
        } else if j >= b.len() {
            true
        } else {
            a[i].get_time() <= b[j].get_time()
        };
        if from_a {
            let x = a[i].clone();
            out.push(x);
            proof {
                let x = a@[i as int];
                assert(a@.take(i + 1) =~= a@.take(i as int).push(x));
                assert forall|t: u64| #[trigger]
                    submitted_at(out@, t) == submitted_at(a@.take(i + 1), t) + submitted_at(
                        b@.take(j as int),
                        t,
                    ) by {
                    let earlier = submitted_at(b@.take(j as int), t);
                    lemma_submitted_at_push(before, x, t);
                    lemma_submitted_at_push(a@.take(i as int), x, t);
                    assert(submitted_at(before, t) == submitted_at(a@.take(i as int), t) + earlier);
                    if x.time() == t {
                        lemma_submitted_at(b@.take(j as int), t);
                        if earlier.len() > 0 {
                            assert(b@.take(j as int).contains(earlier[0]));
                            let k = choose|k: int|
                                0 <= k < b@.take(j as int).len() && b@.take(j as int)[k]
                                    == earlier[0];
                            assert(b@[k].time() < a@[i as int].time());
                        }
                        assert(submitted_at(out@, t) =~= submitted_at(a@.take(i + 1), t) + earlier);
                    }
                }
            }
            i += 1;
        } else {
            let y = b[j].clone();
            out.push(y);
            proof {
                let y = b@[j as int];
                assert(b@.take(j + 1) =~= b@.take(j as int).push(y));
                assert forall|t: u64| #[trigger]
                    submitted_at(out@, t) == submitted_at(a@.take(i as int), t) + submitted_at(
                        b@.take(j + 1),
                        t,
                    ) by {
                    lemma_submitted_at_push(before, y, t);
                    lemma_submitted_at_push(b@.take(j as int), y, t);
                    assert(submitted_at(before, t) == submitted_at(a@.take(i as int), t)
                        + submitted_at(b@.take(j as int), t));
                    if y.time() == t {
                        assert(submitted_at(out@, t) =~= submitted_at(a@.take(i as int), t)
                            + submitted_at(b@.take(j + 1), t));
                    }
                }
            }
            j += 1;
        }
    }
    proof {
        assert(a@.take(i as int) =~= a@);
        assert(b@.take(j as int) =~= b@);
        assert forall|t: u64| #[trigger] submitted_at(out@, t) == submitted_at(a@ + b@, t) by {
            Seq::filter_distributes_over_add(a@, b@, |r: Respondent| r.time() == t);
            assert(submitted_at(out@, t) == submitted_at(a@.take(i as int), t) + submitted_at(
                b@.take(j as int),
                t,
            ));
        }
        lemma_sorted_by_ties(out@, a@ + b@);
    }
    out
}

/// The respondents at positions `lo` up to `hi` of the list, sorted.
fn sort_range(list: &Vec<Respondent>, lo: usize, hi: usize) -> (out: Vec<Respondent>)
    requires
        lo <= hi <= list@.len(),
    ensures
        out@ == sort_by_time(list@.subrange(lo as int, hi as int)),
    decreases hi - lo,
{
    let ghost part = list@.subrange(lo as int, hi as int);
    if hi - lo <= 1 {
        let mut out: Vec<Respondent> = Vec::new();
        if lo < hi {
            out.push(list[lo].clone());
        }
        proof {
            assert(out@ =~= part);
            lemma_sort_keeps_ordered(part);
        }
        out
    } else {
        let mid: usize = lo + (hi - lo) / 2;
        let left = sort_range(list, lo, mid);
        let right = sort_range(list, mid, hi);
        proof {
            let first = list@.subrange(lo as int, mid as int);
            let second = list@.subrange(mid as int, hi as int);
            assert(first + second =~= part);
            lemma_sort_by_time(first);
            lemma_sort_by_time(second);
            lemma_sort_of_sorted_parts(first, second);
        }
        merge_by_time(&left, &right)
    }
}

/// Puts the respondents in chronological order, earliest first; respondents
/// with equal times keep the order they came in.
pub fn sort_chronologically(respondents: &mut Vec<Respondent>)
    ensures
        final(respondents)@ == sort_by_time(old(respondents)@),
{
    let n: usize = respondents.len();
    let sorted = sort_range(respondents, 0, n);
    proof {
        assert(respondents@.subrange(0, n as int) =~= respondents@);
    }
    *respondents = sorted;
}

} // verus!
