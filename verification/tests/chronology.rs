use color_groups::chronology::sort_chronologically;
use color_groups::respondent::{Category, Respondent};

fn at(time: u64, name: &str) -> Respondent {
    Respondent::new(
        time,
        String::new(),
        name.to_string(),
        String::new(),
        Category::Greens,
        Category::Blues,
        Category::Reds,
    )
}

fn names_of(list: &Vec<Respondent>) -> Vec<String> {
    list.iter().map(|r| r.get_name()).collect()
}

#[test]
fn sorts_earliest_first() {
    let mut list = vec![at(30, "c"), at(10, "a"), at(40, "d"), at(20, "b")];
    sort_chronologically(&mut list);
    assert_eq!(names_of(&list), vec!["a", "b", "c", "d"]);
}

#[test]
fn sort_keeps_ties_in_input_order() {
    let mut list = vec![at(5, "x1"), at(3, "y1"), at(5, "x2"), at(3, "y2"), at(5, "x3"), at(1, "z")];
    sort_chronologically(&mut list);
    assert_eq!(names_of(&list), vec!["z", "y1", "y2", "x1", "x2", "x3"]);
}

#[test]
fn sort_of_empty_and_single() {
    let mut none: Vec<Respondent> = vec![];
    sort_chronologically(&mut none);
    assert!(none.is_empty());
    let mut one = vec![at(u64::MAX, "only")];
    sort_chronologically(&mut one);
    assert_eq!(names_of(&one), vec!["only"]);
}

#[test]
fn sort_leaves_sorted_input_alone() {
    let mut list = vec![at(0, "a"), at(0, "b"), at(1, "c"), at(u64::MAX, "d")];
    let before = list.clone();
    sort_chronologically(&mut list);
    assert_eq!(list, before);
}

#[test]
fn sort_reverses_descending_input() {
    let mut list: Vec<Respondent> = (0..50u64).rev().map(|t| at(t, "n")).collect();
    sort_chronologically(&mut list);
    let times: Vec<u64> = list.iter().map(|r| r.get_time()).collect();
    assert_eq!(times, (0..50u64).collect::<Vec<u64>>());
}
