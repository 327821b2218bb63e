use color_groups::respondent::{
    AllocationError, Category, Respondent, BLUES, GREENS, PURPLES, REDS,
};

fn sample() -> Respondent {
    Respondent::new(
        1234,
        "ada@example.org".to_string(),
        "Ada".to_string(),
        "555-0100".to_string(),
        Category::Reds,
        Category::Greens,
        Category::Purples,
    )
}

#[test]
fn getters_return_what_was_given() {
    let r = sample();
    assert_eq!(r.get_time(), 1234);
    assert_eq!(r.get_email(), "ada@example.org");
    assert_eq!(r.get_name(), "Ada");
    assert_eq!(r.get_phone_number(), "555-0100");
    assert_eq!(r.get_color1(), Category::Reds);
    assert_eq!(r.get_color2(), Category::Greens);
    assert_eq!(r.get_color3(), Category::Purples);
}

#[test]
fn fourth_preference_is_the_category_left_over() {
    assert_eq!(sample().get_color4(), Category::Blues);
    let all = [Category::Greens, Category::Blues, Category::Reds, Category::Purples];
    for a in all {
        for b in all {
            for c in all {
                if a == b || a == c || b == c {
                    continue;
                }
                let r = Respondent::new(0, String::new(), String::new(), String::new(), a, b, c);
                let d = r.get_color4();
                assert!(d != a && d != b && d != c);
                assert!(r.is_valid());
                assert_eq!(r.validate(), Ok(()));
            }
        }
    }
}

#[test]
fn fourth_preference_of_repeated_choices_is_the_last_one_absent() {
    let r = Respondent::new(
        0,
        String::new(),
        String::new(),
        String::new(),
        Category::Purples,
        Category::Purples,
        Category::Greens,
    );
    assert_eq!(r.get_color4(), Category::Reds);
    let r = Respondent::new(
        0,
        String::new(),
        String::new(),
        String::new(),
        Category::Purples,
        Category::Reds,
        Category::Reds,
    );
    assert_eq!(r.get_color4(), Category::Blues);
    assert!(!r.is_valid());
    assert_eq!(r.validate(), Err(AllocationError::InvalidPreferenceSet));
}

#[test]
fn get_color_reads_each_rank() {
    let r = sample();
    assert_eq!(r.get_color(0), Category::Reds);
    assert_eq!(r.get_color(1), Category::Greens);
    assert_eq!(r.get_color(2), Category::Purples);
    assert_eq!(r.get_color(3), Category::Blues);
}

#[test]
fn explicit_fourth_preference_replaces_the_derived_one() {
    let mut r = sample();
    r.set_color4(Category::Reds);
    assert_eq!(r.get_color4(), Category::Reds);
    assert_eq!(r.get_color1(), Category::Reds);
    assert_eq!(r.get_name(), "Ada");
    assert!(!r.is_valid());
    assert_eq!(r.validate(), Err(AllocationError::InvalidPreferenceSet));
    r.set_remaining_color();
    assert_eq!(r.get_color4(), Category::Blues);
    assert!(r.is_valid());
    assert_eq!(r, sample());
}

#[test]
fn clone_is_equal() {
    let r = sample();
    assert_eq!(r.clone(), r);
}

#[test]
fn labels_are_the_record_spellings() {
    assert_eq!(Category::Greens.label(), "Greens");
    assert_eq!(Category::Blues.label(), "Blues");
    assert_eq!(Category::Reds.label(), "Reds + Oranges");
    assert_eq!(Category::Purples.label(), "Pinks + Purples");
}

#[test]
fn labels_are_read_back() {
    for c in [Category::Greens, Category::Blues, Category::Reds, Category::Purples] {
        assert_eq!(Category::from_label(&c.label()), Some(c));
    }
    assert_eq!(Category::from_label(&"greens".to_string()), None);
    assert_eq!(Category::from_label(&"Reds".to_string()), None);
    assert_eq!(Category::from_label(&String::new()), None);
}

#[test]
fn label_constants_spell_the_categories() {
    assert_eq!(GREENS, "Greens");
    assert_eq!(BLUES, "Blues");
    assert_eq!(REDS, "Reds + Oranges");
    assert_eq!(PURPLES, "Pinks + Purples");
    assert_eq!(Category::from_label(&GREENS.to_string()), Some(Category::Greens));
    assert_eq!(Category::from_label(&BLUES.to_string()), Some(Category::Blues));
    assert_eq!(Category::from_label(&REDS.to_string()), Some(Category::Reds));
    assert_eq!(Category::from_label(&PURPLES.to_string()), Some(Category::Purples));
}
