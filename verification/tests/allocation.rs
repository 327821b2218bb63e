use color_groups::calculator::{
    calculate_colors, calculate_iteration, calculate_with_capacity, check_preferences,
    place_remaining, try_placement, NUMBER_OF_GROUPS,
};
use color_groups::respondent::{AllocationError, Category, Respondent};

use Category::{Blues, Greens, Purples, Reds};

fn person(time: u64, name: &str, c1: Category, c2: Category, c3: Category) -> Respondent {
    Respondent::new(
        time,
        format!("{}@example.org", name),
        name.to_string(),
        format!("555-{}", time),
        c1,
        c2,
        c3,
    )
}

fn names(group: &Vec<Respondent>) -> Vec<String> {
    group.iter().map(|r| r.get_name()).collect()
}

fn times(group: &Vec<Respondent>) -> Vec<u64> {
    group.iter().map(|r| r.get_time()).collect()
}

fn eight_who_want_green() -> Vec<Respondent> {
    vec![
        person(5, "e", Greens, Blues, Purples),
        person(1, "a", Greens, Blues, Reds),
        person(8, "h", Greens, Reds, Blues),
        person(3, "c", Greens, Reds, Blues),
        person(2, "b", Greens, Blues, Reds),
        person(7, "g", Greens, Blues, Reds),
        person(4, "d", Greens, Blues, Reds),
        person(6, "f", Greens, Blues, Reds),
    ]
}

#[test]
fn number_of_groups_is_four() {
    assert_eq!(NUMBER_OF_GROUPS, 4);
}

#[test]
fn empty_input_gives_four_empty_groups() {
    let (green, blue, red, purple) = calculate_colors(vec![]).unwrap();
    assert!(green.is_empty());
    assert!(blue.is_empty());
    assert!(red.is_empty());
    assert!(purple.is_empty());
}

#[test]
fn duplicate_preference_is_rejected() {
    let mut odd = person(1, "odd", Greens, Blues, Reds);
    odd.set_color4(Greens);
    assert_eq!(calculate_colors(vec![odd]), Err(AllocationError::InvalidPreferenceSet));
}

#[test]
fn one_invalid_respondent_rejects_the_batch() {
    let mut odd = person(2, "odd", Greens, Blues, Reds);
    odd.set_color4(Greens);
    let batch = vec![person(1, "a", Greens, Blues, Reds), odd, person(3, "c", Reds, Blues, Greens)];
    assert_eq!(check_preferences(&batch), Err(AllocationError::InvalidPreferenceSet));
    assert_eq!(calculate_colors(batch.clone()), Err(AllocationError::InvalidPreferenceSet));
    assert_eq!(calculate_with_capacity(batch, 5), Err(AllocationError::InvalidPreferenceSet));
}

#[test]
fn repeated_first_three_preferences_are_rejected() {
    let twice = person(1, "twice", Greens, Greens, Blues);
    assert_eq!(twice.get_color4(), Purples);
    assert_eq!(calculate_colors(vec![twice]), Err(AllocationError::InvalidPreferenceSet));
}

#[test]
fn valid_batch_passes_the_preference_check() {
    assert_eq!(check_preferences(&eight_who_want_green()), Ok(()));
    assert_eq!(check_preferences(&vec![]), Ok(()));
}

#[test]
fn eight_respondents_all_wanting_green() {
    let (green, blue, red, purple) = calculate_colors(eight_who_want_green()).unwrap();
    assert_eq!(names(&green), vec!["a", "b", "c"]);
    assert_eq!(names(&blue), vec!["d", "e", "f"]);
    // h is placed in the second round and g in the third; the group is
    // returned in chronological order.
    assert_eq!(names(&red), vec!["g", "h"]);
    assert_eq!(times(&red), vec![7, 8]);
    assert!(purple.is_empty());
}

#[test]
fn later_round_does_not_break_chronological_order() {
    let a = person(1, "a", Greens, Blues, Reds);
    let b = person(2, "b", Greens, Blues, Reds);
    let c = person(3, "c", Greens, Blues, Reds);
    let d = person(4, "d", Blues, Greens, Reds);
    let result = calculate_colors(vec![a.clone(), b.clone(), c.clone(), d.clone()]);
    assert_eq!(result, Ok((vec![a, b], vec![c, d], vec![], vec![])));
}

#[test]
fn every_group_is_chronological() {
    let mut input = Vec::new();
    let orders = [
        (Greens, Blues, Reds),
        (Greens, Reds, Blues),
        (Blues, Greens, Purples),
        (Greens, Purples, Blues),
        (Reds, Greens, Blues),
    ];
    for t in 0..37u64 {
        let (c1, c2, c3) = orders[(t % 5) as usize];
        input.push(person((t * 17) % 37, "n", c1, c2, c3));
    }
    for capacity in [0usize, 1, 3, 9, 10, 40] {
        let (green, blue, red, purple) = calculate_with_capacity(input.clone(), capacity).unwrap();
        assert_eq!(green.len() + blue.len() + red.len() + purple.len(), 37);
        for group in [&green, &blue, &red, &purple] {
            assert!(times(group).windows(2).all(|w| w[0] <= w[1]));
        }
        assert!(blue.len() <= capacity && red.len() <= capacity && purple.len() <= capacity);
    }
    let (green, blue, red, purple) = calculate_colors(input).unwrap();
    for group in [&green, &blue, &red, &purple] {
        assert!(group.len() <= 37 / 4 + 1);
        assert!(times(group).windows(2).all(|w| w[0] <= w[1]));
    }
}

#[test]
fn first_round_of_eight_carries_five_forward() {
    let mut sorted = eight_who_want_green();
    sorted.sort_by_key(|r| r.get_time());
    let (mut green, mut blue, mut red, mut purple) = (vec![], vec![], vec![], vec![]);
    let carried =
        calculate_iteration(&mut green, &mut blue, &mut red, &mut purple, 3, &sorted, 0);
    assert_eq!(times(&green), vec![1, 2, 3]);
    assert!(blue.is_empty() && red.is_empty() && purple.is_empty());
    assert_eq!(times(&carried), vec![4, 5, 6, 7, 8]);

    let carried =
        calculate_iteration(&mut green, &mut blue, &mut red, &mut purple, 3, &carried, 1);
    assert_eq!(times(&green), vec![1, 2, 3]);
    assert_eq!(times(&blue), vec![4, 5, 6]);
    assert_eq!(times(&red), vec![8]);
    assert!(purple.is_empty());
    assert_eq!(times(&carried), vec![7]);

    let carried =
        calculate_iteration(&mut green, &mut blue, &mut red, &mut purple, 3, &carried, 2);
    assert_eq!(times(&red), vec![8, 7]);
    assert!(carried.is_empty());
}

#[test]
fn fourth_round_uses_the_fourth_preference() {
    let input = vec![person(1, "a", Greens, Blues, Reds), person(2, "b", Blues, Reds, Purples)];
    let (mut green, mut blue, mut red, mut purple) = (vec![], vec![], vec![], vec![]);
    let carried = calculate_iteration(&mut green, &mut blue, &mut red, &mut purple, 1, &input, 3);
    assert_eq!(names(&purple), vec!["a"]);
    assert_eq!(names(&green), vec!["b"]);
    assert!(blue.is_empty() && red.is_empty());
    assert!(carried.is_empty());
}

#[test]
fn try_placement_fills_up_to_the_limit() {
    let mut group = vec![];
    let a = person(1, "a", Greens, Blues, Reds);
    let b = person(2, "b", Greens, Blues, Reds);
    let c = person(3, "c", Greens, Blues, Reds);
    assert!(try_placement(&mut group, &a, 2));
    assert!(try_placement(&mut group, &b, 2));
    assert!(!try_placement(&mut group, &c, 2));
    assert_eq!(group, vec![a.clone(), b]);
    let mut none = vec![];
    assert!(!try_placement(&mut none, &a, 0));
    assert!(none.is_empty());
}

#[test]
fn capacity_is_a_quarter_plus_one() {
    // Four respondents: each group may hold 4 / 4 + 1 = 2.
    let four = vec![
        person(1, "a", Reds, Blues, Greens),
        person(2, "b", Reds, Blues, Greens),
        person(3, "c", Reds, Blues, Greens),
        person(4, "d", Reds, Greens, Blues),
    ];
    let (green, blue, red, purple) = calculate_colors(four).unwrap();
    assert_eq!(names(&red), vec!["a", "b"]);
    assert_eq!(names(&blue), vec!["c"]);
    assert_eq!(names(&green), vec!["d"]);
    assert!(purple.is_empty());

    // Three respondents: each group may hold 3 / 4 + 1 = 1.
    let three = vec![
        person(1, "a", Reds, Blues, Greens),
        person(2, "b", Reds, Blues, Greens),
        person(3, "c", Reds, Blues, Greens),
    ];
    let (green, blue, red, purple) = calculate_colors(three).unwrap();
    assert_eq!(names(&red), vec!["a"]);
    assert_eq!(names(&blue), vec!["b"]);
    assert_eq!(names(&green), vec!["c"]);
    assert!(purple.is_empty());
}

#[test]
fn single_respondent_gets_first_choice() {
    let (green, blue, red, purple) =
        calculate_colors(vec![person(9, "solo", Purples, Reds, Blues)]).unwrap();
    assert_eq!(names(&purple), vec!["solo"]);
    assert!(green.is_empty() && blue.is_empty() && red.is_empty());
}

#[test]
fn earlier_submission_wins_a_contested_place() {
    let input = vec![
        person(30, "late", Blues, Greens, Reds),
        person(10, "early", Blues, Reds, Greens),
        person(20, "middle", Blues, Purples, Greens),
    ];
    let (green, blue, red, purple) = calculate_colors(input).unwrap();
    assert_eq!(names(&blue), vec!["early"]);
    assert_eq!(names(&purple), vec!["middle"]);
    assert_eq!(names(&green), vec!["late"]);
    assert!(red.is_empty());
}

#[test]
fn equal_times_keep_input_order() {
    let input = vec![
        person(7, "first", Reds, Blues, Greens),
        person(7, "second", Reds, Blues, Greens),
        person(7, "third", Reds, Greens, Blues),
    ];
    let (green, blue, red, purple) = calculate_colors(input).unwrap();
    assert_eq!(names(&red), vec!["first"]);
    assert_eq!(names(&blue), vec!["second"]);
    assert_eq!(names(&green), vec!["third"]);
    assert!(purple.is_empty());
}

#[test]
fn every_respondent_is_placed_exactly_once() {
    let input = eight_who_want_green();
    let (green, blue, red, purple) = calculate_colors(input.clone()).unwrap();
    let mut placed: Vec<u64> = Vec::new();
    placed.extend(times(&green));
    placed.extend(times(&blue));
    placed.extend(times(&red));
    placed.extend(times(&purple));
    placed.sort();
    let mut given = times(&input);
    given.sort();
    assert_eq!(placed, given);
}

#[test]
fn identical_respondents_are_placed_independently() {
    let twin = person(1, "twin", Greens, Blues, Reds);
    let (green, blue, red, purple) = calculate_colors(vec![twin.clone(), twin.clone()]).unwrap();
    assert_eq!(green, vec![twin.clone()]);
    assert_eq!(blue, vec![twin]);
    assert!(red.is_empty() && purple.is_empty());
}

#[test]
fn no_group_exceeds_the_capacity() {
    let mut input = Vec::new();
    for t in 0..23u64 {
        input.push(person(100 - t, "x", Purples, Greens, Reds));
    }
    let (green, blue, red, purple) = calculate_colors(input).unwrap();
    // 23 / 4 + 1 = 6
    assert_eq!(purple.len(), 6);
    assert_eq!(green.len(), 6);
    assert_eq!(red.len(), 6);
    assert_eq!(blue.len(), 5);
    assert_eq!(times(&purple), vec![78, 79, 80, 81, 82, 83]);
    assert_eq!(times(&blue), vec![96, 97, 98, 99, 100]);
}

#[test]
fn groups_filled_in_the_first_round_are_chronological() {
    let input = vec![
        person(4, "d", Greens, Blues, Reds),
        person(2, "b", Blues, Greens, Reds),
        person(3, "c", Greens, Blues, Reds),
        person(1, "a", Blues, Greens, Reds),
        person(5, "e", Reds, Blues, Greens),
    ];
    let (green, blue, red, purple) = calculate_colors(input).unwrap();
    assert_eq!(times(&green), vec![3, 4]);
    assert_eq!(times(&blue), vec![1, 2]);
    assert_eq!(times(&red), vec![5]);
    assert!(purple.is_empty());
}

#[test]
fn same_input_gives_same_groups() {
    let once = calculate_colors(eight_who_want_green());
    let again = calculate_colors(eight_who_want_green());
    assert_eq!(once, again);
    let tied = vec![
        person(1, "p", Greens, Blues, Reds),
        person(1, "q", Greens, Blues, Reds),
        person(1, "r", Greens, Blues, Reds),
    ];
    assert_eq!(calculate_colors(tied.clone()), calculate_colors(tied));
}

#[test]
fn given_capacity_bounds_each_group() {
    let (green, blue, red, purple) =
        calculate_with_capacity(eight_who_want_green(), 2).unwrap();
    assert_eq!(names(&green), vec!["a", "b"]);
    assert_eq!(names(&blue), vec!["d", "e"]);
    assert_eq!(names(&red), vec!["c", "h"]);
    assert_eq!(names(&purple), vec!["f", "g"]);
}

#[test]
fn overflow_goes_to_the_first_group_when_all_are_full() {
    let (green, blue, red, purple) =
        calculate_with_capacity(eight_who_want_green(), 1).unwrap();
    // Rounds: a takes green; b takes blue; c takes red; e takes purple.
    assert_eq!(names(&blue), vec!["b"]);
    assert_eq!(names(&red), vec!["c"]);
    assert_eq!(names(&purple), vec!["e"]);
    // Every group is full, so the rest overflow into the first, in order.
    assert_eq!(names(&green), vec!["a", "d", "f", "g", "h"]);
}

#[test]
fn zero_capacity_puts_everyone_in_the_first_group() {
    let (green, blue, red, purple) =
        calculate_with_capacity(eight_who_want_green(), 0).unwrap();
    assert_eq!(times(&green), vec![1, 2, 3, 4, 5, 6, 7, 8]);
    assert!(blue.is_empty() && red.is_empty() && purple.is_empty());
}

#[test]
fn remainder_goes_to_the_first_group_with_room() {
    let a = person(1, "a", Greens, Blues, Reds);
    let b = person(2, "b", Greens, Blues, Reds);
    let c = person(3, "c", Greens, Blues, Reds);
    let d = person(4, "d", Greens, Blues, Reds);
    let mut green = vec![a.clone()];
    let mut blue = vec![a.clone()];
    let mut red = vec![];
    let mut purple = vec![];
    place_remaining(&mut green, &mut blue, &mut red, &mut purple, 1, &vec![b, c, d]);
    assert_eq!(names(&green), vec!["a", "d"]);
    assert_eq!(names(&blue), vec!["a"]);
    assert_eq!(names(&red), vec!["b"]);
    assert_eq!(names(&purple), vec!["c"]);
}

#[test]
fn first_choice_goes_to_those_with_few_earlier_rivals() {
    let orders = [
        (Greens, Blues, Reds),
        (Greens, Reds, Blues),
        (Blues, Greens, Purples),
        (Greens, Purples, Blues),
        (Reds, Greens, Blues),
        (Greens, Blues, Purples),
    ];
    let mut input = Vec::new();
    for t in 0..29u64 {
        let (c1, c2, c3) = orders[(t % 6) as usize];
        input.push(person((t * 11) % 29, "n", c1, c2, c3));
    }
    let capacity = 29 / 4 + 1;
    let (green, blue, red, purple) = calculate_colors(input.clone()).unwrap();
    for x in input.iter() {
        let rivals = input
            .iter()
            .filter(|y| y.get_color1() == x.get_color1() && y.get_time() < x.get_time())
            .count();
        let group = match x.get_color1() {
            Greens => &green,
            Blues => &blue,
            Reds => &red,
            Purples => &purple,
        };
        assert_eq!(group.contains(x), rivals < capacity);
    }
}

#[test]
fn equal_times_in_one_group_keep_order_of_placement() {
    let z1 = person(1, "z1", Greens, Blues, Reds);
    let z2 = person(2, "z2", Greens, Blues, Reds);
    let a = person(5, "a", Greens, Blues, Reds);
    let b = person(5, "b", Blues, Greens, Reds);
    let (green, blue, red, purple) = calculate_colors(vec![z1, z2, a, b]).unwrap();
    assert_eq!(names(&green), vec!["z1", "z2"]);
    assert_eq!(names(&blue), vec!["b", "a"]);
    assert!(red.is_empty() && purple.is_empty());
}
