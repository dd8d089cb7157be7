use arborium::resolver::plan_expansion;

#[test]
fn range_of_a_language_that_is_not_served_stays_plain() {
    assert_eq!(plan_expansion(None, false, true, &vec![false, false]), None);
    assert_eq!(plan_expansion(None, true, true, &vec![true, false]), None);
}

#[test]
fn whole_text_is_not_entered_twice_by_one_language() {
    assert_eq!(plan_expansion(Some(0), true, true, &vec![true, false]), None);
    assert_eq!(plan_expansion(Some(1), true, true, &vec![true, true]), None);
}

#[test]
fn whole_text_is_entered_by_another_language_with_both_marked() {
    assert_eq!(
        plan_expansion(Some(1), true, true, &vec![true, false, false]),
        Some((1, vec![true, true, false]))
    );
}

#[test]
fn smaller_range_starts_over_with_its_language_marked_alone() {
    assert_eq!(
        plan_expansion(Some(0), false, true, &vec![true, true, false]),
        Some((0, vec![true, false, false]))
    );
    assert_eq!(
        plan_expansion(Some(2), false, true, &vec![true, false, false]),
        Some((2, vec![false, false, true]))
    );
}

#[test]
fn range_off_a_character_boundary_stays_plain() {
    assert_eq!(plan_expansion(Some(1), false, false, &vec![true, false]), None);
    assert_eq!(plan_expansion(Some(1), true, false, &vec![true, false]), None);
}

#[test]
fn place_beyond_the_marks_stays_plain() {
    assert_eq!(plan_expansion(Some(2), false, true, &vec![true, false]), None);
}
