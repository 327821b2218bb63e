//! What holds of every allocation: nobody is lost or placed twice, groups keep
//! to their size, every group is in chronological order, and a first choice
//! with room is honored.

use crate::calculator::{
    after_four_rounds, all_valid, allocation, place, place_residue, placement, residual_category,
    run_round, Groups, RoundOutcome,
};
use crate::chronology::{
    insert_by_time, lemma_sort_by_time, lemma_sort_is_stable, lemma_submitted_at,
    lemma_submitted_at_push, sort_by_time, submitted_at, time_ordered,
};
use crate::respondent::{lemma_valid_ranks_every_category, Category, Respondent};
use vstd::multiset::Multiset;
use vstd::prelude::*;

verus! {

/// `longer` starts with `shorter`.
pub open spec fn extends(longer: Seq<Respondent>, shorter: Seq<Respondent>) -> bool {
    &&& shorter.len() <= longer.len()
    &&& forall|i: int| 0 <= i < shorter.len() ==> longer[i] == shorter[i]
}

/// Every group of `after` starts with the group of `before`.
pub open spec fn grown_from(after: Groups, before: Groups) -> bool {
    forall|c: Category| extends(#[trigger] after.get(c), before.get(c))
}

/// Appending a respondent to a group adds that respondent to the members and
/// nothing else.
pub proof fn lemma_put(groups: Groups, c: Category, r: Respondent)
    ensures
        groups.put(c, r).members() == groups.members().insert(r),
        groups.put(c, r).total() == groups.total() + 1,
        groups.put(c, r).get(c) == groups.get(c).push(r),
        forall|d: Category| d != c ==> groups.put(c, r).get(d) == groups.get(d),
        grown_from(groups.put(c, r), groups),
{
    broadcast use vstd::seq_lib::group_to_multiset_ensures;
    broadcast use vstd::multiset::group_multiset_axioms;

    assert(groups.put(c, r).members() =~= groups.members().insert(r));
    assert forall|d: Category| extends(#[trigger] groups.put(c, r).get(d), groups.get(d)) by {}
}

/// A round loses nobody and places nobody twice: the members of the groups
/// and the respondents carried forward are, together, the earlier members and
/// the respondents that entered the round.
pub proof fn lemma_round_conserves(groups: Groups, input: Seq<Respondent>, rank: int, cap: nat)
    ensures
        run_round(groups, input, rank, cap).groups.members().add(
            run_round(groups, input, rank, cap).deferred.to_multiset(),
        ) == groups.members().add(input.to_multiset()),
        run_round(groups, input, rank, cap).groups.total() + run_round(
            groups,
            input,
            rank,
            cap,
        ).deferred.len() == groups.total() + input.len(),
    decreases input.len(),
{
    broadcast use vstd::seq_lib::group_to_multiset_ensures;
    broadcast use vstd::multiset::group_multiset_axioms;

    let out = run_round(groups, input, rank, cap);
    if input.len() == 0 {
        assert(out.groups.members().add(out.deferred.to_multiset()) =~= groups.members().add(
            input.to_multiset(),
        ));
    } else {
        let prev = run_round(groups, input.drop_last(), rank, cap);
        let r = input.last();
        lemma_round_conserves(groups, input.drop_last(), rank, cap);
        lemma_put(prev.groups, r.preference(rank), r);
        assert(input.drop_last().push(r) =~= input);
        assert(input.to_multiset() =~= input.drop_last().to_multiset().insert(r));
        assert(out.groups.members().add(out.deferred.to_multiset()) =~= prev.groups.members().add(
            prev.deferred.to_multiset(),
        ).insert(r));
        assert(out.groups.members().add(out.deferred.to_multiset()) =~= groups.members().add(
            input.to_multiset(),
        ));
    }
}

/// A round only appends to groups, and never beyond the capacity: a group
/// that held at most `cap` before still does, and a full group is unchanged.
pub proof fn lemma_round_grows(groups: Groups, input: Seq<Respondent>, rank: int, cap: nat)
    ensures
        grown_from(run_round(groups, input, rank, cap).groups, groups),
        forall|c: Category|
            groups.get(c).len() <= cap ==> #[trigger] run_round(groups, input, rank, cap).groups.get(
                c,
            ).len() <= cap,
        forall|c: Category|
            groups.get(c).len() >= cap ==> #[trigger] run_round(groups, input, rank, cap).groups.get(
                c,
            ) == groups.get(c),
    decreases input.len(),
{
    let out = run_round(groups, input, rank, cap);
    if input.len() == 0 {
        assert forall|c: Category| extends(#[trigger] out.groups.get(c), groups.get(c)) by {}
    } else {
        let prev = run_round(groups, input.drop_last(), rank, cap);
        let r = input.last();
        lemma_round_grows(groups, input.drop_last(), rank, cap);
        lemma_put(prev.groups, r.preference(rank), r);
        assert forall|c: Category| extends(#[trigger] out.groups.get(c), groups.get(c)) by {
            assert(extends(prev.groups.get(c), groups.get(c)));
            assert(extends(prev.groups.put(r.preference(rank), r).get(c), prev.groups.get(c)));
        }
        assert forall|c: Category| groups.get(c).len() <= cap implies #[trigger] out.groups.get(
            c,
        ).len() <= cap by {
            assert(prev.groups.get(c).len() <= cap);
        }
        assert forall|c: Category| groups.get(c).len() >= cap implies #[trigger] out.groups.get(c)
            == groups.get(c) by {
            assert(prev.groups.get(c) == groups.get(c));
        }
    }
}

/// Whoever a round carries forward entered the round, and the group they
/// asked for is full when the round ends.
pub proof fn lemma_round_defers_from_full(
    groups: Groups,
    input: Seq<Respondent>,
    rank: int,
    cap: nat,
)
    ensures
        forall|r: Respondent| #[trigger]
            run_round(groups, input, rank, cap).deferred.contains(r) ==> input.contains(r)
                && run_round(groups, input, rank, cap).groups.get(r.preference(rank)).len() >= cap,
    decreases input.len(),
{
    let out = run_round(groups, input, rank, cap);
    if input.len() > 0 {
        let front = input.drop_last();
        let prev = run_round(groups, front, rank, cap);
        let last = input.last();
        lemma_round_defers_from_full(groups, front, rank, cap);
        lemma_put(prev.groups, last.preference(rank), last);
        assert forall|r: Respondent| #[trigger] out.deferred.contains(r) implies input.contains(r)
            && out.groups.get(r.preference(rank)).len() >= cap by {
            let i = choose|i: int| 0 <= i < out.deferred.len() && out.deferred[i] == r;
            if i < prev.deferred.len() {
                assert(prev.deferred[i] == r);
                assert(prev.deferred.contains(r));
                let k = choose|k: int| 0 <= k < front.len() && front[k] == r;
                assert(input[k] == r);
                assert(extends(out.groups.get(r.preference(rank)), prev.groups.get(r.preference(rank))))
                    by {
                    assert(extends(
                        prev.groups.put(last.preference(rank), last).get(r.preference(rank)),
                        prev.groups.get(r.preference(rank)),
                    ));
                }
            } else {
                assert(r == last);
                assert(input[input.len() - 1] == r);
            }
        }
    }
}

/// A round over respondents in chronological order carries them forward in
/// chronological order, and what it appends to a group is in chronological
/// order too. Everyone it handles entered the round.
pub proof fn lemma_round_keeps_order(groups: Groups, input: Seq<Respondent>, rank: int, cap: nat)
    requires
        time_ordered(input),
    ensures
        time_ordered(run_round(groups, input, rank, cap).deferred),
        forall|c: Category|
            time_ordered(
                #[trigger] run_round(groups, input, rank, cap).groups.get(c).skip(
                    groups.get(c).len() as int,
                ),
            ),
        forall|c: Category, i: int|
            groups.get(c).len() <= i < run_round(groups, input, rank, cap).groups.get(c).len()
                ==> input.contains(#[trigger] run_round(groups, input, rank, cap).groups.get(c)[i]),
    decreases input.len(),
{
    let out = run_round(groups, input, rank, cap);
    lemma_round_grows(groups, input, rank, cap);
    if input.len() > 0 {
        let front = input.drop_last();
        let prev = run_round(groups, front, rank, cap);
        let last = input.last();
        assert(time_ordered(front));
        lemma_round_keeps_order(groups, front, rank, cap);
        lemma_round_defers_from_full(groups, front, rank, cap);
        lemma_round_grows(groups, front, rank, cap);
        lemma_put(prev.groups, last.preference(rank), last);
        assert forall|r: Respondent| front.contains(r) implies r.time() <= last.time() by {
            let k = choose|k: int| 0 <= k < front.len() && front[k] == r;
            assert(input[k] == r);
        }
        assert forall|r: Respondent| front.contains(r) implies input.contains(r) by {
            let k = choose|k: int| 0 <= k < front.len() && front[k] == r;
            assert(input[k] == r);
        }
        assert(input[input.len() - 1] == last);
        assert(time_ordered(out.deferred)) by {
            assert forall|i: int| 0 <= i < prev.deferred.len() implies prev.deferred[i].time()
                <= last.time() by {
                assert(prev.deferred.contains(prev.deferred[i]));
            }
        }
        assert forall|c: Category, i: int|
            groups.get(c).len() <= i < out.groups.get(c).len() implies input.contains(
            #[trigger] out.groups.get(c)[i],
        ) by {
            assert(extends(prev.groups.get(c), groups.get(c)));
            if i < prev.groups.get(c).len() {
                assert(front.contains(prev.groups.get(c)[i]));
            }
        }
        assert forall|c: Category|
            time_ordered(#[trigger] out.groups.get(c).skip(groups.get(c).len() as int)) by {
            let base = groups.get(c).len() as int;
            let was = prev.groups.get(c);
            let now = out.groups.get(c);
            assert(extends(was, groups.get(c)));
            assert(time_ordered(was.skip(base)));
            if now != was {
                assert(now == was.push(last));
                assert forall|i: int, j: int| 0 <= i <= j < now.skip(base).len() implies now.skip(
                    base,
                )[i].time() <= now.skip(base)[j].time() by {
                    if j < was.skip(base).len() {
                        assert(now.skip(base)[i] == was.skip(base)[i]);
                        assert(now.skip(base)[j] == was.skip(base)[j]);
                    } else if i < was.skip(base).len() {
                        assert(now.skip(base)[i] == was[base + i]);
                        assert(front.contains(prev.groups.get(c)[base + i]));
                    }
                }
            }
        }
    } else {
        assert forall|c: Category|
            time_ordered(#[trigger] out.groups.get(c).skip(groups.get(c).len() as int)) by {}
    }
}

/// Placing the unplaced remainder loses nobody, only appends to groups, and
/// keeps to the capacity rule with its one exception.
pub proof fn lemma_residue(groups: Groups, input: Seq<Respondent>, cap: nat)
    ensures
        place_residue(groups, input, cap).members() == groups.members().add(input.to_multiset()),
        place_residue(groups, input, cap).total() == groups.total() + input.len(),
        grown_from(place_residue(groups, input, cap), groups),
        groups.respects(cap) ==> place_residue(groups, input, cap).respects(cap),
        input.len() == 0 ==> place_residue(groups, input, cap) == groups,
    decreases input.len(),
{
    broadcast use vstd::seq_lib::group_to_multiset_ensures;
    broadcast use vstd::multiset::group_multiset_axioms;

    let out = place_residue(groups, input, cap);
    if input.len() == 0 {
        assert(out.members() =~= groups.members().add(input.to_multiset()));
        assert forall|c: Category| extends(#[trigger] out.get(c), groups.get(c)) by {}
    } else {
        let prev = place_residue(groups, input.drop_last(), cap);
        let r = input.last();
        let c = residual_category(prev, cap);
        lemma_residue(groups, input.drop_last(), cap);
        lemma_put(prev, c, r);
        assert(input.drop_last().push(r) =~= input);
        assert(input.to_multiset() =~= input.drop_last().to_multiset().insert(r));
        assert(out.members() =~= groups.members().add(input.to_multiset()));
        assert forall|d: Category| extends(#[trigger] out.get(d), groups.get(d)) by {
            assert(extends(prev.get(d), groups.get(d)));
            assert(extends(prev.put(c, r).get(d), prev.get(d)));
        }
    }
}

/// Four rounds lose nobody, and leave every group within the capacity.
pub proof fn lemma_four_rounds(ordered: Seq<Respondent>, cap: nat)
    ensures
        after_four_rounds(ordered, cap).groups.members().add(
            after_four_rounds(ordered, cap).deferred.to_multiset(),
        ) == ordered.to_multiset(),
        after_four_rounds(ordered, cap).groups.total() + after_four_rounds(
            ordered,
            cap,
        ).deferred.len() == ordered.len(),
        after_four_rounds(ordered, cap).groups.within(cap),
        grown_from(
            after_four_rounds(ordered, cap).groups,
            run_round(Groups::empty(), ordered, 0, cap).groups,
        ),
{
    broadcast use vstd::seq_lib::group_to_multiset_ensures;
    broadcast use vstd::multiset::group_multiset_axioms;

    let start = Groups::empty();
    let first = run_round(start, ordered, 0, cap);
    let second = run_round(first.groups, first.deferred, 1, cap);
    let third = run_round(second.groups, second.deferred, 2, cap);
    let fourth = run_round(third.groups, third.deferred, 3, cap);
    lemma_round_conserves(start, ordered, 0, cap);
    lemma_round_conserves(first.groups, first.deferred, 1, cap);
    lemma_round_conserves(second.groups, second.deferred, 2, cap);
    lemma_round_conserves(third.groups, third.deferred, 3, cap);
    lemma_round_grows(start, ordered, 0, cap);
    lemma_round_grows(first.groups, first.deferred, 1, cap);
    lemma_round_grows(second.groups, second.deferred, 2, cap);
    lemma_round_grows(third.groups, third.deferred, 3, cap);
    assert(start.members() =~= Multiset::<Respondent>::empty());
    assert(first.groups.members().add(first.deferred.to_multiset()) =~= ordered.to_multiset());
    assert(second.groups.members().add(second.deferred.to_multiset()) =~= ordered.to_multiset());
    assert(third.groups.members().add(third.deferred.to_multiset()) =~= ordered.to_multiset());
    assert(fourth.groups.members().add(fourth.deferred.to_multiset()) =~= ordered.to_multiset());
    assert forall|c: Category| #[trigger] fourth.groups.get(c).len() <= cap by {
        assert(start.get(c).len() <= cap);
        assert(first.groups.get(c).len() <= cap);
        assert(second.groups.get(c).len() <= cap);
        assert(third.groups.get(c).len() <= cap);
    }
    assert forall|c: Category| extends(#[trigger] fourth.groups.get(c), first.groups.get(c)) by {
        assert(extends(second.groups.get(c), first.groups.get(c)));
        assert(extends(third.groups.get(c), second.groups.get(c)));
    }
}

/// With valid preferences and room for everyone (`4 * cap` exceeds the number
/// of respondents), the four rounds place every respondent: a respondent left
/// over would have found all four groups full.
pub proof fn lemma_four_rounds_place_everyone(ordered: Seq<Respondent>, cap: nat)
    requires
        all_valid(ordered),
        ordered.len() < 4 * cap,
    ensures
        after_four_rounds(ordered, cap).deferred.len() == 0,
{
    let start = Groups::empty();
    let first = run_round(start, ordered, 0, cap);
    let second = run_round(first.groups, first.deferred, 1, cap);
    let third = run_round(second.groups, second.deferred, 2, cap);
    let fourth = run_round(third.groups, third.deferred, 3, cap);
    lemma_four_rounds(ordered, cap);
    if fourth.deferred.len() > 0 {
        let r = fourth.deferred[0];
        assert(fourth.deferred.contains(r));
        lemma_round_defers_from_full(third.groups, third.deferred, 3, cap);
        assert(third.deferred.contains(r));
        lemma_round_defers_from_full(second.groups, second.deferred, 2, cap);
        assert(second.deferred.contains(r));
        lemma_round_defers_from_full(first.groups, first.deferred, 1, cap);
        assert(first.deferred.contains(r));
        lemma_round_defers_from_full(start, ordered, 0, cap);
        assert(ordered.contains(r));
        let k = choose|k: int| 0 <= k < ordered.len() && ordered[k] == r;
        assert(ordered[k].has_valid_preferences());
        lemma_round_grows(first.groups, first.deferred, 1, cap);
        lemma_round_grows(second.groups, second.deferred, 2, cap);
        lemma_round_grows(third.groups, third.deferred, 3, cap);
        assert forall|c: Category| #[trigger] fourth.groups.get(c).len() >= cap by {
            lemma_valid_ranks_every_category(r, c);
            let rank = choose|rank: int| 0 <= rank < 4 && #[trigger] r.preference(rank) == c;
            assert(extends(second.groups.get(c), first.groups.get(c)));
            assert(extends(third.groups.get(c), second.groups.get(c)));
            assert(extends(fourth.groups.get(c), third.groups.get(c)));
        }
        assert(fourth.groups.get(Category::Greens).len() >= cap);
        assert(fourth.groups.get(Category::Blues).len() >= cap);
        assert(fourth.groups.get(Category::Reds).len() >= cap);
        assert(fourth.groups.get(Category::Purples).len() >= cap);
        assert(false);
    }
}

/// A round over a longer list continues the round over any front part of it:
/// every group of the shorter round is the start of the same group of the
/// longer one.
pub proof fn lemma_round_continues(
    groups: Groups,
    input: Seq<Respondent>,
    rank: int,
    cap: nat,
    k: int,
)
    requires
        0 <= k <= input.len(),
    ensures
        grown_from(
            run_round(groups, input, rank, cap).groups,
            run_round(groups, input.take(k), rank, cap).groups,
        ),
    decreases input.len(),
{
    let out = run_round(groups, input, rank, cap);
    let part = run_round(groups, input.take(k), rank, cap);
    if k == input.len() {
        assert(input.take(k) =~= input);
        assert forall|c: Category| extends(#[trigger] out.groups.get(c), part.groups.get(c)) by {}
    } else {
        let front = input.drop_last();
        let prev = run_round(groups, front, rank, cap);
        let last = input.last();
        assert(front.take(k) =~= input.take(k));
        lemma_round_continues(groups, front, rank, cap, k);
        lemma_put(prev.groups, last.preference(rank), last);
        assert forall|c: Category| extends(#[trigger] out.groups.get(c), part.groups.get(c)) by {
            assert(extends(prev.groups.get(c), part.groups.get(c)));
            assert(extends(prev.groups.put(last.preference(rank), last).get(c), prev.groups.get(c)));
        }
    }
}

/// Sorting keeps every respondent's preferences valid.
pub proof fn lemma_sort_keeps_validity(input: Seq<Respondent>)
    requires
        all_valid(input),
    ensures
        all_valid(sort_by_time(input)),
{
    broadcast use vstd::seq_lib::group_to_multiset_ensures;

    let ordered = sort_by_time(input);
    lemma_sort_by_time(input);
    assert forall|i: int| 0 <= i < ordered.len() implies (#[trigger] ordered[i]).has_valid_preferences() by {
        assert(ordered.to_multiset().count(ordered[i]) > 0);
        assert(input.to_multiset().count(ordered[i]) > 0);
        let k = choose|k: int| 0 <= k < input.len() && input[k] == ordered[i];
        assert(input[k].has_valid_preferences());
    }
}

/// The four groups, in order of placement, hold exactly the respondents that
/// were given, each as often as it was given.
pub proof fn lemma_placement_is_partition(input: Seq<Respondent>, cap: nat)
    ensures
        placement(input, cap).members() == input.to_multiset(),
        placement(input, cap).total() == input.len(),
{
    broadcast use vstd::multiset::group_multiset_axioms;

    let ordered = sort_by_time(input);
    let last = after_four_rounds(ordered, cap);
    lemma_sort_by_time(input);
    lemma_four_rounds(ordered, cap);
    lemma_residue(last.groups, last.deferred, cap);
}

/// Placement keeps to the capacity rule with its one exception.
pub proof fn lemma_placement_respects_capacity(input: Seq<Respondent>, cap: nat)
    ensures
        placement(input, cap).respects(cap),
{
    let ordered = sort_by_time(input);
    let last = after_four_rounds(ordered, cap);
    lemma_four_rounds(ordered, cap);
    assert(last.groups.get(Category::Greens).len() <= cap);
    assert(last.groups.get(Category::Blues).len() <= cap);
    assert(last.groups.get(Category::Reds).len() <= cap);
    assert(last.groups.get(Category::Purples).len() <= cap);
    lemma_residue(last.groups, last.deferred, cap);
}

/// With valid preferences and room for everyone (`4 * cap` exceeds the number
/// of respondents) the placement is what the four rounds give, nobody is
/// left for the last resort, and every group keeps within the capacity.
pub proof fn lemma_placement_within_capacity(input: Seq<Respondent>, cap: nat)
    requires
        all_valid(input),
        input.len() < 4 * cap,
    ensures
        placement(input, cap) == after_four_rounds(sort_by_time(input), cap).groups,
        after_four_rounds(sort_by_time(input), cap).deferred.len() == 0,
        placement(input, cap).within(cap),
{
    let ordered = sort_by_time(input);
    let last = after_four_rounds(ordered, cap);
    lemma_sort_by_time(input);
    lemma_sort_keeps_validity(input);
    lemma_four_rounds(ordered, cap);
    lemma_four_rounds_place_everyone(ordered, cap);
    lemma_residue(last.groups, last.deferred, cap);
}

/// Priority within a round: when a respondent's turn comes and the group of
/// their preference at the round's rank has room, they are appended to that
/// group then and there, are not carried forward, and stand in that group at
/// the end of the round at the place they were given.
pub proof fn lemma_round_honors_preference(
    groups: Groups,
    input: Seq<Respondent>,
    rank: int,
    cap: nat,
    i: int,
)
    requires
        0 <= i < input.len(),
        run_round(groups, input.take(i), rank, cap).groups.get(input[i].preference(rank)).len()
            < cap,
    ensures
        ({
            let x = input[i];
            let c = x.preference(rank);
            let before = run_round(groups, input.take(i), rank, cap);
            let place_given = before.groups.get(c).len() as int;
            &&& run_round(groups, input.take(i + 1), rank, cap) == (RoundOutcome {
                groups: before.groups.put(c, x),
                deferred: before.deferred,
            })
            &&& place_given < run_round(groups, input, rank, cap).groups.get(c).len()
            &&& run_round(groups, input, rank, cap).groups.get(c)[place_given] == x
        }),
{
    let x = input[i];
    let c = x.preference(rank);
    let before = run_round(groups, input.take(i), rank, cap);
    let after = run_round(groups, input.take(i + 1), rank, cap);
    assert(input.take(i + 1).drop_last() =~= input.take(i));
    assert(input.take(i + 1).last() == x);
    assert(after == place(before, x, rank, cap));
    lemma_put(before.groups, c, x);
    lemma_round_continues(groups, input, rank, cap, i + 1);
    assert(extends(run_round(groups, input, rank, cap).groups.get(c), after.groups.get(c)));
}

/// Priority of the first choice: when the turn of the respondent at position
/// `i` of the chronological order comes in the first round and the group of
/// their first preference has room, they are placed in that group then and
/// there, never carried forward, and are a member of that group of the
/// allocation.
pub proof fn lemma_first_choice_honored(input: Seq<Respondent>, cap: nat, i: int)
    requires
        0 <= i < input.len(),
        run_round(Groups::empty(), sort_by_time(input).take(i), 0, cap).groups.get(
            sort_by_time(input)[i].preference(0),
        ).len() < cap,
    ensures
        ({
            let ordered = sort_by_time(input);
            let x = ordered[i];
            let c = x.preference(0);
            let before = run_round(Groups::empty(), ordered.take(i), 0, cap);
            &&& run_round(Groups::empty(), ordered.take(i + 1), 0, cap) == (RoundOutcome {
                groups: before.groups.put(c, x),
                deferred: before.deferred,
            })
            &&& allocation(input, cap).get(c).contains(x)
        }),
{
    broadcast use vstd::seq_lib::group_to_multiset_ensures;

    let ordered = sort_by_time(input);
    lemma_sort_by_time(input);
    let x = ordered[i];
    let c = x.preference(0);
    let first = run_round(Groups::empty(), ordered, 0, cap);
    let given = run_round(Groups::empty(), ordered.take(i), 0, cap).groups.get(c).len() as int;
    lemma_round_honors_preference(Groups::empty(), ordered, 0, cap, i);
    lemma_four_rounds(ordered, cap);
    let last = after_four_rounds(ordered, cap);
    lemma_residue(last.groups, last.deferred, cap);
    assert(extends(last.groups.get(c), first.groups.get(c)));
    let placed = placement(input, cap).get(c);
    assert(extends(placed, last.groups.get(c)));
    assert(placed[given] == x);
    assert(placed.contains(x));
    lemma_in_time_order(placement(input, cap));
    lemma_sort_by_time(placed);
    assert(allocation(input, cap).get(c) == sort_by_time(placed));
    assert(sort_by_time(placed).to_multiset().count(x) > 0);
}

/// Putting groups in chronological order keeps every group's members, each
/// as often as it is placed, and so the size of every group; afterwards
/// every group is in chronological order, and respondents of one group with
/// equal times keep the order in which they were placed.
pub proof fn lemma_in_time_order(groups: Groups)
    ensures
        forall|c: Category| #[trigger] groups.in_time_order().get(c) == sort_by_time(groups.get(c)),
        forall|c: Category| time_ordered(#[trigger] groups.in_time_order().get(c)),
        forall|c: Category| #[trigger]
            groups.in_time_order().get(c).to_multiset() == groups.get(c).to_multiset(),
        forall|c: Category| #[trigger] groups.in_time_order().get(c).len() == groups.get(c).len(),
        groups.in_time_order().members() == groups.members(),
        groups.in_time_order().total() == groups.total(),
        forall|cap: nat| groups.respects(cap) ==> #[trigger] groups.in_time_order().respects(cap),
        forall|cap: nat| groups.within(cap) ==> #[trigger] groups.in_time_order().within(cap),
{
    lemma_sort_by_time(groups.greens);
    lemma_sort_by_time(groups.blues);
    lemma_sort_by_time(groups.reds);
    lemma_sort_by_time(groups.purples);
    let after = groups.in_time_order();
    assert forall|c: Category| #[trigger] after.get(c) == sort_by_time(groups.get(c)) by {}
    assert forall|cap: nat| groups.within(cap) implies #[trigger] after.within(cap) by {
        assert forall|c: Category| #[trigger] after.get(c).len() <= cap by {
            assert(groups.get(c).len() <= cap);
        }
    }
}

/// Completeness: the four groups of an allocation hold exactly the
/// respondents that were given, each as often as it was given. Nobody is
/// lost, nobody is placed twice.
pub proof fn lemma_allocation_is_partition(input: Seq<Respondent>, cap: nat)
    ensures
        allocation(input, cap).members() == input.to_multiset(),
        allocation(input, cap).total() == input.len(),
{
    lemma_placement_is_partition(input, cap);
    lemma_in_time_order(placement(input, cap));
}

/// The capacity rule: no group but the first ever exceeds the capacity, and
/// the first exceeds it only while every other group holds exactly the
/// capacity, that is, when all four are full.
pub proof fn lemma_allocation_respects_capacity(input: Seq<Respondent>, cap: nat)
    ensures
        allocation(input, cap).respects(cap),
{
    lemma_placement_respects_capacity(input, cap);
    lemma_in_time_order(placement(input, cap));
}

/// With valid preferences and room for everyone (`4 * cap` exceeds the number
/// of respondents) every group keeps within the capacity: the four rounds
/// place everyone and nobody is left for the last resort.
pub proof fn lemma_allocation_within_capacity(input: Seq<Respondent>, cap: nat)
    requires
        all_valid(input),
        input.len() < 4 * cap,
    ensures
        allocation(input, cap) == after_four_rounds(sort_by_time(input), cap).groups.in_time_order(),
        allocation(input, cap).within(cap),
{
    lemma_placement_within_capacity(input, cap);
    lemma_in_time_order(placement(input, cap));
}

/// Chronological order within groups: in every group of an allocation the
/// submission times never decrease.
pub proof fn lemma_allocation_ordered(input: Seq<Respondent>, cap: nat)
    ensures
        forall|c: Category| time_ordered(#[trigger] allocation(input, cap).get(c)),
{
    lemma_in_time_order(placement(input, cap));
}

/// Determinism: the allocation is a function of the list of respondents and
/// the capacity. The same respondents in the same order, ties included, give
/// the same four groups.
pub proof fn lemma_allocation_deterministic(a: Seq<Respondent>, b: Seq<Respondent>, cap: nat)
    requires
        a.len() == b.len(),
        forall|i: int| 0 <= i < a.len() ==> a[i] == b[i],
    ensures
        allocation(a, cap) == allocation(b, cap),
{
    assert(a =~= b);
}

/// No respondents, no members: the allocation of an empty list is four empty
/// groups, whatever the capacity.
pub proof fn lemma_empty_allocation(cap: nat)
    ensures
        allocation(Seq::<Respondent>::empty(), cap) == Groups::empty(),
{
    let none = Seq::<Respondent>::empty();
    assert(sort_by_time(none) == none);
    let first = run_round(Groups::empty(), none, 0, cap);
    assert(first.deferred == none);
    let second = run_round(first.groups, first.deferred, 1, cap);
    assert(second.deferred == none);
    let third = run_round(second.groups, second.deferred, 2, cap);
    assert(third.deferred == none);
    assert(placement(none, cap) == Groups::empty());
}

/// No two respondents of `s` were submitted at the same time.
pub open spec fn distinct_times(s: Seq<Respondent>) -> bool {
    forall|i: int, j: int| 0 <= i < j < s.len() ==> s[i].time() != s[j].time()
}

/// Whether a respondent has `c` as first preference.
pub open spec fn first_choice_is(c: Category) -> spec_fn(Respondent) -> bool {
    |y: Respondent| y.preference(0) == c
}

/// Whether a respondent has `c` as first preference and was submitted before
/// time `t`.
pub open spec fn is_earlier_rival(c: Category, t: u64) -> spec_fn(Respondent) -> bool {
    |y: Respondent| y.preference(0) == c && y.time() < t
}

/// How many respondents of `s` have `c` as first preference and were
/// submitted before time `t`.
pub open spec fn earlier_rivals(s: Seq<Respondent>, c: Category, t: u64) -> nat {
    s.filter(is_earlier_rival(c, t)).len()
}

/// Two tests that agree on every element of a list select the same elements.
pub proof fn lemma_filter_agree(
    s: Seq<Respondent>,
    p: spec_fn(Respondent) -> bool,
    q: spec_fn(Respondent) -> bool,
)
    requires
        forall|k: int| 0 <= k < s.len() ==> p(s[k]) == q(s[k]),
    ensures
        s.filter(p) == s.filter(q),
    decreases s.len(),
{
    if s.len() == 0 {
        s.lemma_filter_len(p);
        s.lemma_filter_len(q);
        assert(s.filter(p) =~= s.filter(q));
    } else {
        let front = s.drop_last();
        assert forall|k: int| 0 <= k < front.len() implies p(front[k]) == q(front[k]) by {
            assert(front[k] == s[k]);
        }
        lemma_filter_agree(front, p, q);
        front.lemma_filter_push(s.last(), p);
        front.lemma_filter_push(s.last(), q);
        assert(front.push(s.last()) =~= s);
    }
}

/// A test that no element of a list passes selects nothing.
pub proof fn lemma_filter_none(s: Seq<Respondent>, p: spec_fn(Respondent) -> bool)
    requires
        forall|k: int| 0 <= k < s.len() ==> !p(s[k]),
    ensures
        s.filter(p).len() == 0,
{
    if s.filter(p).len() > 0 {
        s.lemma_filter_pred(p, 0);
        assert(s.filter(p).contains(s.filter(p)[0]));
        s.lemma_filter_contains_rev(p, s.filter(p)[0]);
    }
}

/// Inserting by time adds one to the number of respondents that pass a test
/// if the inserted one passes, and nothing otherwise.
pub proof fn lemma_insert_keeps_count(
    s: Seq<Respondent>,
    x: Respondent,
    p: spec_fn(Respondent) -> bool,
)
    ensures
        insert_by_time(s, x).filter(p).len() == s.filter(p).len() + if p(x) {
            1int
        } else {
            0int
        },
    decreases s.len(),
{
    if s.len() == 0 || s.last().time() <= x.time() {
        s.lemma_filter_push(x, p);
    } else {
        let front = s.drop_last();
        lemma_insert_keeps_count(front, x, p);
        insert_by_time(front, x).lemma_filter_push(s.last(), p);
        front.lemma_filter_push(s.last(), p);
        assert(front.push(s.last()) =~= s);
    }
}

/// Sorting does not change how many respondents pass a test.
pub proof fn lemma_sort_keeps_count(s: Seq<Respondent>, p: spec_fn(Respondent) -> bool)
    ensures
        sort_by_time(s).filter(p).len() == s.filter(p).len(),
    decreases s.len(),
{
    if s.len() > 0 {
        let front = s.drop_last();
        lemma_sort_keeps_count(front, p);
        lemma_insert_keeps_count(sort_by_time(front), s.last(), p);
        front.lemma_filter_push(s.last(), p);
        assert(front.push(s.last()) =~= s);
    }
}

/// Times are pairwise distinct exactly when no time has two respondents.
pub proof fn lemma_distinct_times(s: Seq<Respondent>)
    ensures
        distinct_times(s) <==> forall|t: u64| #[trigger] submitted_at(s, t).len() <= 1,
    decreases s.len(),
{
    if s.len() == 0 {
        assert forall|t: u64| #[trigger] submitted_at(s, t).len() <= 1 by {
            s.lemma_filter_len(|r: Respondent| r.time() == t);
        }
    } else {
        let front = s.drop_last();
        let last = s.last();
        lemma_distinct_times(front);
        assert(front.push(last) =~= s);
        if distinct_times(s) {
            assert(distinct_times(front)) by {
                assert forall|i: int, j: int| 0 <= i < j < front.len() implies front[i].time()
                    != front[j].time() by {
                    assert(front[i] == s[i] && front[j] == s[j]);
                }
            }
            assert forall|t: u64| #[trigger] submitted_at(s, t).len() <= 1 by {
                lemma_submitted_at_push(front, last, t);
                assert(submitted_at(front, t).len() <= 1);
                if last.time() == t && submitted_at(front, t).len() > 0 {
                    lemma_submitted_at(front, t);
                    let e = submitted_at(front, t)[0];
                    assert(front.contains(e));
                    let k = choose|k: int| 0 <= k < front.len() && front[k] == e;
                    assert(s[k].time() != s[s.len() - 1].time());
                }
            }
        }
        if forall|t: u64| #[trigger] submitted_at(s, t).len() <= 1 {
            assert forall|t: u64| #[trigger] submitted_at(front, t).len() <= 1 by {
                lemma_submitted_at_push(front, last, t);
                assert(submitted_at(s, t).len() <= 1);
            }
            assert forall|i: int, j: int| 0 <= i < j < s.len() implies s[i].time()
                != s[j].time() by {
                if j < front.len() {
                    assert(front[i] == s[i] && front[j] == s[j]);
                } else if s[i].time() == last.time() {
                    let t = last.time();
                    lemma_submitted_at_push(front, last, t);
                    lemma_submitted_at(front, t);
                    assert(front[i] == s[i]);
                    assert(submitted_at(front, t).contains(front[i]));
                    assert(submitted_at(s, t).len() <= 1);
                }
            }
        }
    }
}

/// In the first round a group fills with those who chose it first, up to the
/// capacity.
pub proof fn lemma_first_round_fill(s: Seq<Respondent>, c: Category, cap: nat)
    ensures
        run_round(Groups::empty(), s, 0, cap).groups.get(c).len() == if s.filter(
            first_choice_is(c),
        ).len() < cap {
            s.filter(first_choice_is(c)).len()
        } else {
            cap
        },
    decreases s.len(),
{
    if s.len() == 0 {
        s.lemma_filter_len(first_choice_is(c));
    } else {
        let front = s.drop_last();
        let last = s.last();
        let prev = run_round(Groups::empty(), front, 0, cap);
        lemma_first_round_fill(front, c, cap);
        lemma_first_round_fill(front, last.preference(0), cap);
        lemma_put(prev.groups, last.preference(0), last);
        front.lemma_filter_push(last, first_choice_is(c));
        assert(front.push(last) =~= s);
    }
}

/// Priority of the first choice, by counting: among respondents with
/// pairwise distinct times, a respondent is a member of the group of their
/// first preference if fewer than `cap` respondents with the same first
/// preference were submitted earlier. With valid preferences and room for
/// everyone (`4 * cap` exceeds the number of respondents) the converse holds
/// too: with `cap` or more such earlier respondents they are not a member.
pub proof fn lemma_first_choice_by_count(input: Seq<Respondent>, cap: nat, m: int)
    requires
        distinct_times(input),
        0 <= m < input.len(),
    ensures
        earlier_rivals(input, input[m].preference(0), input[m].time()) < cap ==> allocation(
            input,
            cap,
        ).get(input[m].preference(0)).contains(input[m]),
        all_valid(input) && input.len() < 4 * cap && earlier_rivals(
            input,
            input[m].preference(0),
            input[m].time(),
        ) >= cap ==> !allocation(input, cap).get(input[m].preference(0)).contains(input[m]),
{
    broadcast use vstd::seq_lib::group_to_multiset_ensures;

    let x = input[m];
    let c = x.preference(0);
    let t = x.time();
    let ordered = sort_by_time(input);
    lemma_sort_by_time(input);
    // where x stands in the chronological order
    assert(input.to_multiset().count(x) > 0);
    assert(ordered.to_multiset().count(x) > 0);
    let i = choose|i: int| 0 <= i < ordered.len() && ordered[i] == x;
    // times stay distinct under sorting, so the order is strict
    lemma_distinct_times(input);
    assert forall|u: u64| #[trigger] submitted_at(ordered, u).len() <= 1 by {
        lemma_sort_is_stable(input, u);
        assert(submitted_at(input, u).len() <= 1);
    }
    lemma_distinct_times(ordered);
    let early = ordered.take(i);
    let late = ordered.skip(i);
    assert(early + late =~= ordered);
    assert forall|k: int| 0 <= k < early.len() implies (#[trigger] early[k]).time() < t by {
        assert(ordered[k].time() <= ordered[i].time());
        assert(ordered[k].time() != ordered[i].time());
    }
    assert forall|k: int| 0 <= k < late.len() implies (#[trigger] late[k]).time() >= t by {
        assert(ordered[i].time() <= ordered[i + k].time());
    }
    // the earlier rivals are those of the same first choice before x
    let rival = is_earlier_rival(c, t);
    let chooser = first_choice_is(c);
    lemma_sort_keeps_count(input, rival);
    Seq::filter_distributes_over_add(early, late, rival);
    lemma_filter_none(late, rival);
    lemma_filter_agree(early, rival, chooser);
    assert(earlier_rivals(input, c, t) == early.filter(chooser).len());
    lemma_first_round_fill(early, c, cap);
    let before = run_round(Groups::empty(), early, 0, cap);
    if earlier_rivals(input, c, t) < cap {
        lemma_first_choice_honored(input, cap, i);
    } else if all_valid(input) && input.len() < 4 * cap {
        let first = run_round(Groups::empty(), ordered, 0, cap);
        let last = after_four_rounds(ordered, cap);
        let placed = placement(input, cap).get(c);
        assert(before.groups.get(c).len() == cap);
        lemma_round_continues(Groups::empty(), ordered, 0, cap, i);
        lemma_round_grows(Groups::empty(), ordered, 0, cap);
        lemma_four_rounds(ordered, cap);
        lemma_placement_within_capacity(input, cap);
        assert(extends(first.groups.get(c), before.groups.get(c)));
        assert(Groups::empty().get(c).len() <= cap);
        assert(first.groups.get(c).len() <= cap);
        assert(extends(last.groups.get(c), first.groups.get(c)));
        assert(last.groups.get(c).len() <= cap);
        assert(placed =~= before.groups.get(c));
        assert(time_ordered(early));
        lemma_round_keeps_order(Groups::empty(), early, 0, cap);
        assert forall|k: int| 0 <= k < placed.len() implies placed[k] != x by {
            assert(Groups::empty().get(c).len() == 0);
            assert(early.contains(before.groups.get(c)[k]));
            let j = choose|j: int| 0 <= j < early.len() && early[j] == placed[k];
            assert(early[j].time() < t);
        }
        lemma_in_time_order(placement(input, cap));
        lemma_sort_by_time(placed);
        let result = allocation(input, cap).get(c);
        assert(result == sort_by_time(placed));
        if result.contains(x) {
            assert(result.to_multiset().count(x) > 0);
            assert(placed.to_multiset().count(x) > 0);
            assert(placed.contains(x));
            assert(false);
        }
    }
}

} // verus!
