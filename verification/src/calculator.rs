//! The allocation itself: four rounds over the respondents in chronological
//! order, one per preference rank, into four groups of bounded size.
//!
//! In each round every respondent who is still unplaced asks for the group of
//! their preference at that rank. Whoever finds it full is carried to the next
//! round, in the same order. Whoever is still unplaced after the fourth round
//! goes to the first group with room, or to the first group of all. At the
//! end every group is put in chronological order.

use crate::chronology::{sort_by_time, sort_chronologically, time_ordered};
use crate::guarantees::{
    lemma_allocation_is_partition, lemma_allocation_ordered, lemma_allocation_respects_capacity,
    lemma_allocation_within_capacity,
};
use crate::respondent::{AllocationError, Category, Respondent};
use vstd::multiset::Multiset;
use vstd::prelude::*;

verus! {

/// How many groups the respondents are spread over.
pub const NUMBER_OF_GROUPS: usize = 4;

/// The four groups as lists of respondents, each in order of placement.
pub struct Groups {
    pub greens: Seq<Respondent>,
    pub blues: Seq<Respondent>,
    pub reds: Seq<Respondent>,
    pub purples: Seq<Respondent>,
}

impl Groups {
    /// Four groups without members.
    pub open spec fn empty() -> Groups {
        Groups { greens: Seq::empty(), blues: Seq::empty(), reds: Seq::empty(), purples: Seq::empty() }
    }

    /// The group of category `c`.
    pub open spec fn get(self, c: Category) -> Seq<Respondent> {
        match c {
            Category::Greens => self.greens,
            Category::Blues => self.blues,
            Category::Reds => self.reds,
            Category::Purples => self.purples,
        }
    }

    /// These groups with `r` appended to the group of category `c`.
    pub open spec fn put(self, c: Category, r: Respondent) -> Groups {
        match c {
            Category::Greens => Groups { greens: self.greens.push(r), ..self },
            Category::Blues => Groups { blues: self.blues.push(r), ..self },
            Category::Reds => Groups { reds: self.reds.push(r), ..self },
            Category::Purples => Groups { purples: self.purples.push(r), ..self },
        }
    }

    /// All members of the four groups, each as often as it is placed.
    pub open spec fn members(self) -> Multiset<Respondent> {
        self.greens.to_multiset().add(self.blues.to_multiset()).add(
            self.reds.to_multiset(),
        ).add(self.purples.to_multiset())
    }

    /// How many respondents are placed.
    pub open spec fn total(self) -> nat {
        self.greens.len() + self.blues.len() + self.reds.len() + self.purples.len()
    }

    /// These groups, each put in chronological order; respondents of one
    /// group with equal times keep the order they have in it.
    pub open spec fn in_time_order(self) -> Groups {
        Groups {
            greens: sort_by_time(self.greens),
            blues: sort_by_time(self.blues),
            reds: sort_by_time(self.reds),
            purples: sort_by_time(self.purples),
        }
    }

    /// No group holds more than `cap` respondents.
    pub open spec fn within(self, cap: nat) -> bool {
        forall|c: Category| #[trigger] self.get(c).len() <= cap
    }

    /// The capacity rule with its one exception: no group but the first holds
    /// more than `cap` respondents, and the first does so only while every
    /// other group holds exactly `cap`.
    pub open spec fn respects(self, cap: nat) -> bool {
        &&& self.blues.len() <= cap
        &&& self.reds.len() <= cap
        &&& self.purples.len() <= cap
        &&& (self.greens.len() > cap ==> self.blues.len() == cap && self.reds.len() == cap
            && self.purples.len() == cap)
    }
}

/// Where a round stands: the groups as filled so far, and the respondents
/// carried forward because the group they asked for was full.
pub struct RoundOutcome {
    pub groups: Groups,
    pub deferred: Seq<Respondent>,
}

/// The size that no group may exceed when `n` respondents are allocated.
pub open spec fn capacity_for(n: nat) -> nat {
    n / 4 + 1
}

/// One respondent's turn in the round for `rank`: placed in the group of their
/// preference at that rank if it has room, carried forward otherwise.
pub open spec fn place(state: RoundOutcome, r: Respondent, rank: int, cap: nat) -> RoundOutcome {
    let c = r.preference(rank);
    if state.groups.get(c).len() < cap {
        RoundOutcome { groups: state.groups.put(c, r), deferred: state.deferred }
    } else {
        RoundOutcome { groups: state.groups, deferred: state.deferred.push(r) }
    }
}

/// The round for `rank` over `input`, front to back, starting from `groups`.
pub open spec fn run_round(groups: Groups, input: Seq<Respondent>, rank: int, cap: nat) -> RoundOutcome
    decreases input.len(),
{
    if input.len() == 0 {
        RoundOutcome { groups, deferred: Seq::empty() }
    } else {
        place(run_round(groups, input.drop_last(), rank, cap), input.last(), rank, cap)
    }
}

/// Where a respondent goes who is unplaced after all four rounds: the first
/// group in enumeration order with room, or the first group if none has.
pub open spec fn residual_category(groups: Groups, cap: nat) -> Category {
    if groups.greens.len() < cap {
        Category::Greens
    } else if groups.blues.len() < cap {
        Category::Blues
    } else if groups.reds.len() < cap {
        Category::Reds
    } else if groups.purples.len() < cap {
        Category::Purples
    } else {
        Category::Greens
    }
}

/// The groups after every respondent of `input`, front to back, has been
/// placed by the rule for the unplaced remainder.
pub open spec fn place_residue(groups: Groups, input: Seq<Respondent>, cap: nat) -> Groups
    decreases input.len(),
{
    if input.len() == 0 {
        groups
    } else {
        let before = place_residue(groups, input.drop_last(), cap);
        before.put(residual_category(before, cap), input.last())
    }
}

/// What is left unplaced after the four rounds over `ordered`.
pub open spec fn after_four_rounds(ordered: Seq<Respondent>, cap: nat) -> RoundOutcome {
    let first = run_round(Groups::empty(), ordered, 0, cap);
    let second = run_round(first.groups, first.deferred, 1, cap);
    let third = run_round(second.groups, second.deferred, 2, cap);
    run_round(third.groups, third.deferred, 3, cap)
}

/// Who goes to which group, in order of placement: sort chronologically, run
/// the four rounds, place the remainder.
pub open spec fn placement(input: Seq<Respondent>, cap: nat) -> Groups {
    let last = after_four_rounds(sort_by_time(input), cap);
    place_residue(last.groups, last.deferred, cap)
}

/// The allocation of `input` with group size `cap`: the groups that placement
/// gives, each in chronological order.
pub open spec fn allocation(input: Seq<Respondent>, cap: nat) -> Groups {
    placement(input, cap).in_time_order()
}

/// Every respondent's preferences are a permutation of the four categories.
pub open spec fn all_valid(s: Seq<Respondent>) -> bool {
    forall|i: int| 0 <= i < s.len() ==> (#[trigger] s[i]).has_valid_preferences()
}

/// The four lists of an allocation, read as groups.
pub open spec fn groups_of(
    lists: (Vec<Respondent>, Vec<Respondent>, Vec<Respondent>, Vec<Respondent>),
) -> Groups {
    Groups { greens: lists.0@, blues: lists.1@, reds: lists.2@, purples: lists.3@ }
}

/// Appends the respondent to the group unless the group already holds
/// `max_respondents`; says whether it did.
pub fn try_placement(
    group: &mut Vec<Respondent>,
    respondent: &Respondent,
    max_respondents: usize,
) -> (placed: bool)
    ensures
        placed == (old(group)@.len() < max_respondents),
        final(group)@ == if placed {
            old(group)@.push(*respondent)
        } else {
            old(group)@
        },
{
    if group.len() >= max_respondents {
        return false;
    }
    group.push(respondent.clone());
    true
}

/// One round: every respondent of `input`, front to back, is placed in the
/// group of their preference at rank `phase` (0 to 3) if it has room. Returns
/// those who found it full, in the order they have in `input`.
pub fn calculate_iteration(
    green: &mut Vec<Respondent>,
    blue: &mut Vec<Respondent>,
    red: &mut Vec<Respondent>,
    purple: &mut Vec<Respondent>,
    max_respondents: usize,
    input: &Vec<Respondent>,
    phase: u8,
) -> (next_iter: Vec<Respondent>)
    requires
        phase < 4,
    ensures
        (RoundOutcome {
            groups: Groups {
                greens: final(green)@,
                blues: final(blue)@,
                reds: final(red)@,
                purples: final(purple)@,
            },
            deferred: next_iter@,
        }) == run_round(
            Groups { greens: old(green)@, blues: old(blue)@, reds: old(red)@, purples: old(purple)@ },
            input@,
            phase as int,
            max_respondents as nat,
        ),
{
    let ghost start = Groups {
        greens: old(green)@,
        blues: old(blue)@,
        reds: old(red)@,
        purples: old(purple)@,
    };
    let mut next_iter: Vec<Respondent> = Vec::new();
    let n: usize = input.len();
    let mut i: usize = 0;
    while i < n
        invariant
            i <= n,
            n == input@.len(),
            phase < 4,
            (RoundOutcome {
                groups: Groups { greens: green@, blues: blue@, reds: red@, purples: purple@ },
                deferred: next_iter@,
            }) == run_round(start, input@.take(i as int), phase as int, max_respondents as nat),
        decreases n - i,
    {
        let respondent = &input[i];
        let color = respondent.get_color(phase);
        proof {
            assert(input@.take(i + 1).drop_last() =~= input@.take(i as int));
            assert(input@.take(i + 1).last() == *respondent);
        }
        let placed = match color {
            Category::Greens => try_placement(green, respondent, max_respondents),
            Category::Blues => try_placement(blue, respondent, max_respondents),
            Category::Reds => try_placement(red, respondent, max_respondents),
            Category::Purples => try_placement(purple, respondent, max_respondents),
        };
        if !placed {
            next_iter.push(respondent.clone());
        }
        i += 1;
    }
    proof {
        assert(input@.take(n as int) =~= input@);
    }
    next_iter
}

/// Places every respondent of `input`, front to back, in the first group in
/// enumeration order that holds fewer than `max_respondents`, or in the first
/// group if none does.
pub fn place_remaining(
    green: &mut Vec<Respondent>,
    blue: &mut Vec<Respondent>,
    red: &mut Vec<Respondent>,
    purple: &mut Vec<Respondent>,
    max_respondents: usize,
    input: &Vec<Respondent>,
)
    ensures
        (Groups {
            greens: final(green)@,
            blues: final(blue)@,
            reds: final(red)@,
            purples: final(purple)@,
        }) == place_residue(
            Groups { greens: old(green)@, blues: old(blue)@, reds: old(red)@, purples: old(purple)@ },
            input@,
            max_respondents as nat,
        ),
{
    let ghost start = Groups {
        greens: old(green)@,
        blues: old(blue)@,
        reds: old(red)@,
        purples: old(purple)@,
    };
    let n: usize = input.len();
    let mut i: usize = 0;
    while i < n
        invariant
            i <= n,
            n == input@.len(),
            (Groups { greens: green@, blues: blue@, reds: red@, purples: purple@ })
                == place_residue(start, input@.take(i as int), max_respondents as nat),
        decreases n - i,
    {
        let respondent = &input[i];
        proof {
            assert(input@.take(i + 1).drop_last() =~= input@.take(i as int));
            assert(input@.take(i + 1).last() == *respondent);
        }
        if green.len() < max_respondents {
            green.push(respondent.clone());
        } else if blue.len() < max_respondents {
            blue.push(respondent.clone());
        } else if red.len() < max_respondents {
            red.push(respondent.clone());
        } else if purple.len() < max_respondents {
            purple.push(respondent.clone());
        } else {
            green.push(respondent.clone());
        }
        i += 1;
    }
    proof {
        assert(input@.take(n as int) =~= input@);
    }
}

/// Whether every respondent's preferences are a permutation of the four
/// categories.
pub fn check_preferences(respondents: &Vec<Respondent>) -> (r: Result<(), AllocationError>)
    ensures
        r == if all_valid(respondents@) {
            Ok::<(), AllocationError>(())
        } else {
            Err::<(), AllocationError>(AllocationError::InvalidPreferenceSet)
        },
{
    let n: usize = respondents.len();
    let mut i: usize = 0;
    while i < n
        invariant
            i <= n,
            n == respondents@.len(),
            all_valid(respondents@.take(i as int)),
        decreases n - i,
    {
        if !respondents[i].is_valid() {
            return Err(AllocationError::InvalidPreferenceSet);
        }
        proof {
            assert forall|k: int| 0 <= k < i + 1 implies (#[trigger] respondents@.take(
                i + 1,
            )[k]).has_valid_preferences() by {
                if k < i {
                    assert(respondents@.take(i as int)[k] == respondents@[k]);
                }
            }
        }
        i += 1;
    }
    proof {
        assert(respondents@.take(n as int) =~= respondents@);
    }
    Ok(())
}

/// Allocates the respondents to the four groups with the given group size.
///
/// The respondents are taken in chronological order through four rounds, one
/// per preference rank, and whoever is then still unplaced goes to the first
/// group with room, or to the first group. Every group is returned in
/// chronological order. No respondent is allocated if any has preferences
/// that are not a permutation of the four categories.
pub fn calculate_with_capacity(respondents: Vec<Respondent>, max_respondents: usize) -> (r: Result<
    (Vec<Respondent>, Vec<Respondent>, Vec<Respondent>, Vec<Respondent>),
    AllocationError,
>)
    ensures
        all_valid(respondents@) ==> r is Ok && groups_of(r->Ok_0) == allocation(
            respondents@,
            max_respondents as nat,
        ),
        !all_valid(respondents@) ==> r == Err::<
            (Vec<Respondent>, Vec<Respondent>, Vec<Respondent>, Vec<Respondent>),
            AllocationError,
        >(AllocationError::InvalidPreferenceSet),
        r is Ok ==> groups_of(r->Ok_0).members() == respondents@.to_multiset(),
        r is Ok ==> groups_of(r->Ok_0).respects(max_respondents as nat),
        r is Ok && respondents@.len() < 4 * max_respondents ==> groups_of(r->Ok_0).within(
            max_respondents as nat,
        ),
        r is Ok ==> forall|c: Category| time_ordered(#[trigger] groups_of(r->Ok_0).get(c)),
{
    if check_preferences(&respondents).is_err() {
        return Err(AllocationError::InvalidPreferenceSet);
    }
    proof {
        lemma_allocation_is_partition(respondents@, max_respondents as nat);
        lemma_allocation_respects_capacity(respondents@, max_respondents as nat);
        if respondents@.len() < 4 * max_respondents {
            lemma_allocation_within_capacity(respondents@, max_respondents as nat);
        }
        lemma_allocation_ordered(respondents@, max_respondents as nat);
    }
    let mut respondents = respondents;
    sort_chronologically(&mut respondents);

    let mut green: Vec<Respondent> = Vec::new();
    let mut blue: Vec<Respondent> = Vec::new();
    let mut red: Vec<Respondent> = Vec::new();
    let mut purple: Vec<Respondent> = Vec::new();

    let next_iter = calculate_iteration(
        &mut green,
        &mut blue,
        &mut red,
        &mut purple,
        max_respondents,
        &respondents,
        0,
    );
    let next_iter = calculate_iteration(
        &mut green,
        &mut blue,
        &mut red,
        &mut purple,
        max_respondents,
        &next_iter,
        1,
    );
    let next_iter = calculate_iteration(
        &mut green,
        &mut blue,
        &mut red,
        &mut purple,
        max_respondents,
        &next_iter,
        2,
    );
    let next_iter = calculate_iteration(
        &mut green,
        &mut blue,
        &mut red,
        &mut purple,
        max_respondents,
        &next_iter,
        3,
    );
    place_remaining(&mut green, &mut blue, &mut red, &mut purple, max_respondents, &next_iter);
    sort_chronologically(&mut green);
    sort_chronologically(&mut blue);
    sort_chronologically(&mut red);
    sort_chronologically(&mut purple);
    Ok((green, blue, red, purple))
}

/// Allocates the respondents to the four groups, none of which may hold more
/// than a quarter of the respondents, rounded down, plus one.
///
/// Returns the groups in enumeration order, each in chronological order.
/// The respondents are taken in chronological order through four rounds, one
/// per preference rank; with this group size the rounds place everyone. No respondent is allocated if
/// any has preferences that are not a permutation of the four categories.
pub fn calculate_colors(respondents: Vec<Respondent>) -> (r: Result<
    (Vec<Respondent>, Vec<Respondent>, Vec<Respondent>, Vec<Respondent>),
    AllocationError,
>)
    ensures
        all_valid(respondents@) ==> r is Ok && groups_of(r->Ok_0) == allocation(
            respondents@,
            capacity_for(respondents@.len()),
        ),
        !all_valid(respondents@) ==> r == Err::<
            (Vec<Respondent>, Vec<Respondent>, Vec<Respondent>, Vec<Respondent>),
            AllocationError,
        >(AllocationError::InvalidPreferenceSet),
        r is Ok ==> groups_of(r->Ok_0) == after_four_rounds(
            sort_by_time(respondents@),
            capacity_for(respondents@.len()),
        ).groups.in_time_order(),
        r is Ok ==> forall|c: Category| time_ordered(#[trigger] groups_of(r->Ok_0).get(c)),
        r is Ok ==> groups_of(r->Ok_0).members() == respondents@.to_multiset(),
        r is Ok ==> groups_of(r->Ok_0).within(capacity_for(respondents@.len())),
{
    let max_respondents: usize = respondents.len() / NUMBER_OF_GROUPS + 1;
    proof {
        if all_valid(respondents@) {
            lemma_allocation_within_capacity(respondents@, max_respondents as nat);
        }
    }
    calculate_with_capacity(respondents, max_respondents)
}

} // verus!
