//! The fuzzy category matcher.

use receqif::matcher::filter_categories;

fn cats(names: &[&str]) -> Vec<String> {
    names.iter().map(|s| s.to_string()).collect()
}

#[test]
fn test_filter_categories_basic_matching() {
    let categories = cats(&["seg1:seg2:seg3", "seg1:segX:seg3", "segA:seg2:segB"]);

    let filtered = filter_categories(&categories, "seg1:seg2");
    assert_eq!(filtered, vec![categories[0].clone()]);
    let filtered = filter_categories(&categories, "segx:seg3");
    assert_eq!(filtered, vec![categories[1].clone()]);
}

#[test]
fn test_filter_categories_partial_match() {
    let categories = cats(&["seg1:seg2:seg3", "seg1:seg2X:seg3", "seg1:seg2"]);

    let filtered = filter_categories(&categories, "seg1:seg2");
    assert_eq!(
        filtered,
        vec![
            categories[0].clone(),
            categories[1].clone(),
            categories[2].clone()
        ]
    );
}

#[test]
fn test_filter_categories_empty_input() {
    let categories = cats(&["seg1:seg2:seg3", "seg4:seg5:seg6"]);

    let filtered = filter_categories(&categories, "");
    assert!(filtered.is_empty());
}

#[test]
fn test_filter_categories_no_match() {
    let categories = cats(&["seg1:seg2:seg3", "seg4:seg5:seg6"]);

    let filtered = filter_categories(&categories, "segX:segY");
    assert!(filtered.is_empty());
}

#[test]
fn test_filter_categories_single_segment_input() {
    let categories = cats(&["seg1:seg2:seg3", "seg1:seg4:seg5", "segX:segY:segZ"]);

    let filtered = filter_categories(&categories, "seg1");
    assert_eq!(filtered, vec![categories[0].clone(), categories[1].clone()]);
}

#[test]
fn test_grocery_example() {
    // The matcher narrows a chart of accounts from a partial query,
    // case-insensitively; a blank query matches nothing.
    let categories = cats(&[
        "Expenses:Groceries:Produce",
        "Expenses:Groceries:Dairy",
        "Expenses:Alcohol:Wine",
    ]);
    let filtered = filter_categories(&categories, "groc");
    assert_eq!(
        filtered,
        vec![categories[0].clone(), categories[1].clone()]
    );
    assert!(filter_categories(&categories, "").is_empty());
    let filtered = filter_categories(&categories, "alc:win");
    assert_eq!(filtered, vec![categories[2].clone()]);
}

#[test]
fn test_case_insensitive_both_sides() {
    // Candidate and query are both folded to lowercase before matching,
    // so case never decides a match in either direction.
    let categories = cats(&["EXPENSES:GROCERIES", "Expenses:Games"]);
    let filtered = filter_categories(&categories, "exp:groc");
    assert_eq!(filtered, vec![categories[0].clone()]);
    let filtered = filter_categories(&categories, "EXP:GAM");
    assert_eq!(filtered, vec![categories[1].clone()]);
}
