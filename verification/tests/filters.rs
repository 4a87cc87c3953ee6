//! Line filters for cleaning up receipt item names.

use receqif::filters::LineFilter;

#[test]
fn test_new() {
    let filter = LineFilter::new();
    assert_eq!(filter.build().apply("Hello"), "Hello");
}

#[test]
fn test_numfilter() {
    let filter = LineFilter::new().numfilter();
    assert_eq!(filter.build().apply("123Hello"), "Hello");
}

#[test]
fn test_perekrestok_filter() {
    let filter = LineFilter::new().perekrestok_filter();
    assert_eq!(filter.build().apply("123: *Hello"), "Hello");
}

#[test]
fn test_chaining() {
    let filter = LineFilter::new().numfilter().perekrestok_filter();
    assert_eq!(filter.build().apply("123: *Hello"), "Hello");
}

#[test]
fn test_trim_no_unit() {
    let filter = LineFilter::new().trim_units_from_end().build();
    assert_eq!(filter.apply("Apple Juice"), "Apple Juice");
}

#[test]
fn test_trim_kg() {
    let filter = LineFilter::new().trim_units_from_end().build();
    assert_eq!(filter.apply("Oranges 2кг"), "Oranges");
}

#[test]
fn test_trim_g() {
    let filter = LineFilter::new().trim_units_from_end().build();
    assert_eq!(filter.apply("Salt 500 г"), "Salt");
}

#[test]
fn test_trim_ml() {
    let filter = LineFilter::new().trim_units_from_end().build();
    assert_eq!(filter.apply("Water 150мл"), "Water");
}

#[test]
fn test_trim_l() {
    let filter = LineFilter::new().trim_units_from_end().build();
    assert_eq!(filter.apply("Milk 2 л"), "Milk");
}

#[test]
fn test_trim_multiple_spaces() {
    let filter = LineFilter::new().trim_units_from_end().build();
    assert_eq!(filter.apply("Honey   100  г"), "Honey");
}

#[test]
fn test_trim_with_other_text() {
    let filter = LineFilter::new().trim_units_from_end().build();
    assert_eq!(filter.apply("Bread 300г Extra"), "Bread 300г Extra");
}

#[test]
fn test_free_filters() {
    assert_eq!(receqif::filters::numfilter("  42 Apples"), "Apples");
    assert_eq!(receqif::filters::perekrestok_filter("12 34Hello"), "Hello");
    assert_eq!(receqif::filters::nofilter("12 Hello"), "12 Hello");
}
