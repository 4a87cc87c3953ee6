//! Items, purchases and the generated ledger transaction.

use qif_generator::account::{Account, AccountType};
use receqif::conv::{finalize, ConvertError, DecisionList};
use receqif::convert::{convert, gen_splits, gen_trans};
use receqif::filters::LineFilter;
use receqif::receipt::{Item, Purchase, PurchaseDate};
use receqif::user::User;

fn date() -> PurchaseDate {
    PurchaseDate {
        year: 2021,
        month: 3,
        day: 24,
        hour: 17,
        minute: 42,
        second: 0,
    }
}

fn account() -> Account {
    Account::new()
        .name("Wallet")
        .account_type(AccountType::Cash)
        .build()
}

#[test]
fn display() {
    let it = Item {
        name: "test".to_string(),
        sum: 1000,
    };
    let line = it.to_text();
    assert_eq!(line, "test:1000");
}

#[test]
fn test_item_text_negative() {
    let it = Item {
        name: "refund".to_string(),
        sum: -205,
    };
    assert_eq!(it.to_text(), "refund:-205");
}

#[test]
fn test_date_validity() {
    assert!(date().valid());
    let bad = PurchaseDate {
        year: 2021,
        month: 2,
        day: 29,
        hour: 0,
        minute: 0,
        second: 0,
    };
    assert!(!bad.valid());
    let leap = PurchaseDate {
        year: 2020,
        month: 2,
        day: 29,
        hour: 0,
        minute: 0,
        second: 0,
    };
    assert!(leap.valid());
}

#[test]
fn test_convert_matches_total() {
    let purchase = Purchase::new(
        300,
        date(),
        vec![
            Item {
                name: "  1 Tea 100 г".to_string(),
                sum: 100,
            },
            Item {
                name: "Cake".to_string(),
                sum: 200,
            },
        ],
    );
    let acc = account();
    let filter = LineFilter::new()
        .numfilter()
        .trim_units_from_end()
        .build();
    let cats = vec![
        "Expenses:Tea".to_string(),
        "Expenses:Sweets".to_string(),
    ];
    let t = convert(&purchase, "shopping", &acc, &filter, &cats).unwrap();
    let text = t.to_string();
    assert!(text.contains("SExpenses:Tea\nETea\n$-1.00"));
    assert!(text.contains("SExpenses:Sweets\nECake\n$-2.00"));
    assert!(text.contains("T-3.00"));
}

#[test]
fn test_convert_rejects_wrong_total() {
    let purchase = Purchase::new(
        999,
        date(),
        vec![Item {
            name: "Tea".to_string(),
            sum: 100,
        }],
    );
    let acc = account();
    let filter = LineFilter::new().build();
    let cats = vec!["Expenses:Tea".to_string()];
    let e = convert(&purchase, "m", &acc, &filter, &cats).unwrap_err();
    assert_eq!(e, "Total sum is wrong. Expected: 999 Got: -100");
}

#[test]
fn test_gen_trans_error_message() {
    let items = vec![Item {
        name: "Tea".to_string(),
        sum: 150,
    }];
    let cats = vec!["Expenses:Tea".to_string()];
    let filter = LineFilter::new().build();
    let splits = gen_splits(&items, &cats, &filter);
    let acc = account();
    let e = gen_trans(&acc, date(), 100, "m", &splits).unwrap_err();
    assert_eq!(e, "Total sum is wrong. Expected: 100 Got: -150");
}

#[test]
fn test_finalize_missing_category() {
    let purchase = Purchase::new(
        100,
        date(),
        vec![Item {
            name: "Tea".to_string(),
            sum: 100,
        }],
    );
    let mut user = User::new(9);
    let decided = DecisionList::new();
    let acc = account();
    let filter = LineFilter::new().build();
    match finalize(&purchase, "m", &decided, &mut user, &acc, &filter) {
        Err(ConvertError::MissingCategory { item }) => assert_eq!(item, "Tea"),
        other => panic!("unexpected result {:?}", other),
    }
}

#[test]
fn test_finalize_empty_category() {
    // An empty decided category aborts before anything is recorded:
    // even the decisions listed earlier leave no trace in the store.
    let purchase = Purchase::new(
        300,
        date(),
        vec![
            Item {
                name: "Tea".to_string(),
                sum: 100,
            },
            Item {
                name: "Cake".to_string(),
                sum: 200,
            },
        ],
    );
    let mut user = User::new(9);
    let mut decided = DecisionList::new();
    decided.insert("Tea".to_string(), "Expenses:Tea".to_string());
    decided.insert("Cake".to_string(), String::new());
    let acc = account();
    let filter = LineFilter::new().build();
    match finalize(&purchase, "m", &decided, &mut user, &acc, &filter) {
        Err(ConvertError::EmptyCategory { item }) => assert_eq!(item, "Cake"),
        other => panic!("unexpected result {:?}", other),
    }
    assert!(receqif::categories::cat_stats_get(&user.catmap, "Tea").is_none());
}

#[test]
fn test_finalize_wrong_total_fails_build() {
    let purchase = Purchase::new(
        150,
        date(),
        vec![Item {
            name: "Tea".to_string(),
            sum: 100,
        }],
    );
    let mut user = User::new(9);
    let mut decided = DecisionList::new();
    decided.insert("Tea".to_string(), "Expenses:Tea".to_string());
    let acc = account();
    let filter = LineFilter::new().build();
    match finalize(&purchase, "m", &decided, &mut user, &acc, &filter) {
        Err(ConvertError::BuildFailed { message }) => {
            assert_eq!(message, "Total sum is wrong. Expected: 150 Got: -100");
        }
        other => panic!("unexpected result {:?}", other),
    }
}
