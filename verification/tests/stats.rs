//! Category statistics: ranking, assignment and lookups.

use receqif::categories::{
    assign_category, cat_stats_entries, cat_stats_get, cat_stats_new, get_top_category,
    update_stat, CatStat,
};

#[test]
fn test_update_stat() {
    let mut stat: Vec<CatStat> = Vec::new();
    update_stat("test", &mut stat);
    assert_eq!(stat[0].hits(), 1);
    assert_eq!(stat[0].category().as_str(), "test");
    update_stat("test", &mut stat);
    assert_eq!(stat[0].hits(), 2);
    update_stat("test2", &mut stat);
    assert_eq!(stat[1].category().as_str(), "test2");
    assert_eq!(stat[1].hits(), 1);
    update_stat("test2", &mut stat);
    update_stat("test2", &mut stat);
    assert_eq!(stat[0].category().as_str(), "test2");
    assert_eq!(stat[0].hits(), 3);
    assert_eq!(stat[1].hits(), 2);
    assert_eq!(stat[1].category().as_str(), "test");
}

#[test]
fn test_assign_category() {
    let mut cm = cat_stats_new();
    assign_category("item", "category", &mut cm);
    let stats = cat_stats_get(&cm, "item").unwrap();
    assert_eq!(stats[0].category().as_str(), "category");
    assert_eq!(stats[0].hits(), 1);
    let topcat = get_top_category("item", &cm).unwrap();
    assert_eq!(topcat, "category");
}

#[test]
fn test_ranking_after_each_assignment() {
    // Ranking invariant on a concrete history: sorted by hits
    // descending after every call, and the hit counts total the number
    // of assignments for the item.
    let mut cm = cat_stats_new();
    let calls = [
        ("Milk", "Dairy"),
        ("Milk", "Dairy"),
        ("Milk", "Breakfast"),
        ("Milk", "Dairy"),
        ("Bread", "Bakery"),
        ("Milk", "Breakfast"),
    ];
    let mut milk_assigns = 0i64;
    for (item, cat) in calls {
        assign_category(item, cat, &mut cm);
        if item == "Milk" {
            milk_assigns += 1;
        }
        let stats = cat_stats_get(&cm, "Milk");
        if let Some(stats) = stats {
            let mut total = 0i64;
            for w in stats.windows(2) {
                assert!(w[0].hits() >= w[1].hits());
            }
            for s in &stats {
                total += s.hits();
            }
            assert_eq!(total, milk_assigns);
        }
    }
    let milk = cat_stats_get(&cm, "Milk").unwrap();
    assert_eq!(milk[0].category().as_str(), "Dairy");
    assert_eq!(milk[0].hits(), 3);
    assert_eq!(milk[1].category().as_str(), "Breakfast");
    assert_eq!(milk[1].hits(), 2);
}

#[test]
fn test_top_category_is_first_entry() {
    // Lookup consistency: the top category is the first element of the
    // stored list, or nothing for an unknown item.
    let mut cm = cat_stats_new();
    assert!(get_top_category("Juice", &cm).is_none());
    assign_category("Juice", "Drinks", &mut cm);
    assign_category("Juice", "Breakfast", &mut cm);
    assign_category("Juice", "Drinks", &mut cm);
    let stats = cat_stats_get(&cm, "Juice").unwrap();
    let top = get_top_category("Juice", &cm).unwrap();
    assert_eq!(top.as_str(), stats[0].category().as_str());
    assert_eq!(top, "Drinks");
}

#[test]
fn test_tie_break_keeps_first_assigned() {
    // Equal hit counts keep the order in which the categories reached
    // that count: the re-sort is stable.
    let mut stat: Vec<CatStat> = Vec::new();
    update_stat("alpha", &mut stat);
    update_stat("beta", &mut stat);
    assert_eq!(stat[0].category().as_str(), "alpha");
    assert_eq!(stat[1].category().as_str(), "beta");
}

#[test]
fn test_entries_dump_round_trip() {
    let mut cm = cat_stats_new();
    assign_category("a", "x", &mut cm);
    assign_category("b", "y", &mut cm);
    let mut entries = cat_stats_entries(&cm);
    entries.sort_by(|l, r| l.0.cmp(&r.0));
    assert_eq!(entries.len(), 2);
    assert_eq!(entries[0].0, "a");
    assert_eq!(entries[0].1[0].category().as_str(), "x");
    assert_eq!(entries[1].0, "b");
    assert_eq!(entries[1].1[0].hits(), 1);
}
