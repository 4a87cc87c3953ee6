//! The conversation state machine, end to end.

use qif_generator::account::{Account, AccountType};
use receqif::categories::assign_category;
use receqif::conv::{conv_step, finalize, Action, Event, State};
use receqif::filters::LineFilter;
use receqif::receipt::{Item, Purchase, PurchaseDate};
use receqif::user::User;

fn march_date() -> PurchaseDate {
    PurchaseDate {
        year: 2021,
        month: 3,
        day: 24,
        hour: 17,
        minute: 42,
        second: 0,
    }
}

fn demo_user() -> User {
    let mut user = User::new(7);
    user.accounts(vec![
        "Expenses:Groceries:Produce".to_string(),
        "Expenses:Groceries:Dairy".to_string(),
        "Expenses:Alcohol:Wine".to_string(),
    ]);
    assign_category("Milk", "Expenses:Groceries:Dairy", &mut user.catmap);
    user
}

#[test]
fn test_cancel_is_idempotent() {
    // Cancel in any state goes to Idle; a second cancel changes
    // nothing.
    let user = demo_user();
    let state = State::AwaitingFile {
        filename: "r.json".to_string(),
    };
    let (s1, acts) = conv_step(state, Event::Cancel, &user);
    assert!(matches!(s1, State::Idle));
    assert!(matches!(acts[0], Action::ResetNotice));
    let (s2, _) = conv_step(s1, Event::Cancel, &user);
    assert!(matches!(s2, State::Idle));
}

#[test]
fn test_upload_prompt_from_idle() {
    let user = demo_user();
    let (s1, acts) = conv_step(
        State::Idle,
        Event::Text {
            text: "hello".to_string(),
        },
        &user,
    );
    assert!(matches!(s1, State::AwaitingFile { .. }));
    assert!(matches!(acts[0], Action::AskUpload));
}

#[test]
fn test_stale_click_in_idle_is_noop() {
    // A button click that arrives after the conversation was reset is a
    // stale result: the state stays Idle and nothing is sent.
    let user = demo_user();
    let (s1, acts) = conv_step(
        State::Idle,
        Event::Button {
            payload: "Expenses:Alcohol:Wine".to_string(),
        },
        &user,
    );
    assert!(matches!(s1, State::Idle));
    assert!(acts.is_empty());
}

#[test]
fn test_parse_failure_reprompts() {
    let user = demo_user();
    let state = State::AwaitingFile {
        filename: String::new(),
    };
    let (s1, acts) = conv_step(state, Event::FileFailed, &user);
    assert!(matches!(s1, State::AwaitingFile { .. }));
    assert!(matches!(acts[0], Action::ParseFailedNotice));
}

#[test]
fn test_end_to_end_scenario() {
    // A receipt with Milk (already known) and Wine (unknown): one
    // interactive cycle decides Wine, then the memo finalizes both.
    let mut user = demo_user();
    let state = State::AwaitingFile {
        filename: String::new(),
    };
    let event = Event::FileParsed {
        filename: "receipt.json".to_string(),
        items: vec!["Milk".to_string(), "Wine".to_string()],
    };
    let (s1, acts) = conv_step(state, event, &user);
    // Wine is the one uncategorized item.
    match &s1 {
        State::SelectingCategory {
            item, items_left, decided, ..
        } => {
            assert_eq!(item, "Wine");
            assert!(items_left.is_empty());
            assert_eq!(
                decided.get("Milk").unwrap(),
                "Expenses:Groceries:Dairy".to_string()
            );
            assert_eq!(decided.len(), 1);
        }
        other => panic!("unexpected state {:?}", other),
    }
    assert!(matches!(&acts[0], Action::AskCategory { item } if item == "Wine"));

    // The user types a partial category.
    let (s2, acts) = conv_step(
        s1,
        Event::Text {
            text: "wine".to_string(),
        },
        &user,
    );
    assert!(matches!(s2, State::SelectingSubcategory { .. }));
    match &acts[0] {
        Action::ShowCategoryButtons { item, options } => {
            assert_eq!(item, "Wine");
            assert_eq!(options.len(), 1);
            assert_eq!(options[0].0, "Alcohol:Wine");
            assert_eq!(options[0].1, "Expenses:Alcohol:Wine");
        }
        other => panic!("unexpected action {:?}", other),
    }

    // The user clicks the button carrying the full category.
    let (s3, acts) = conv_step(
        s2,
        Event::Button {
            payload: "Expenses:Alcohol:Wine".to_string(),
        },
        &user,
    );
    let decided = match &s3 {
        State::Ready { decided, .. } => {
            assert_eq!(decided.len(), 2);
            assert_eq!(
                decided.get("Milk").unwrap(),
                "Expenses:Groceries:Dairy".to_string()
            );
            assert_eq!(
                decided.get("Wine").unwrap(),
                "Expenses:Alcohol:Wine".to_string()
            );
            decided.clone()
        }
        other => panic!("unexpected state {:?}", other),
    };
    assert!(matches!(&acts[0], Action::ItemReady { item, .. } if item == "Wine"));
    assert!(matches!(&acts[1], Action::LastItemNotice));
    match &acts[2] {
        Action::ShowSummary { buttons } => {
            assert_eq!(buttons.len(), 2);
            assert_eq!(buttons[0].0, "Milk: E:G:Dairy");
            assert_eq!(buttons[0].1, "edit_0");
            assert_eq!(buttons[1].0, "Wine: E:A:Wine");
            assert_eq!(buttons[1].1, "edit_1");
        }
        other => panic!("unexpected action {:?}", other),
    }

    // The memo line requests finalization.
    let (s4, acts) = conv_step(
        s3,
        Event::Text {
            text: "weekly shopping".to_string(),
        },
        &user,
    );
    assert!(matches!(s4, State::Ready { .. }));
    match &acts[0] {
        Action::Finalize { filename, memo } => {
            assert_eq!(filename, "receipt.json");
            assert_eq!(memo, "weekly shopping");
        }
        other => panic!("unexpected action {:?}", other),
    }

    // Finalize against the parsed purchase.
    let purchase = Purchase::new(
        1700,
        march_date(),
        vec![
            Item {
                name: "Milk".to_string(),
                sum: 200,
            },
            Item {
                name: "Wine".to_string(),
                sum: 1500,
            },
        ],
    );
    let acc = Account::new()
        .name("Reiffeisen")
        .account_type(AccountType::Bank)
        .build();
    let filter = LineFilter::new().build();
    let t = finalize(
        &purchase,
        "weekly shopping",
        &decided,
        &mut user,
        &acc,
        &filter,
    )
    .unwrap();
    let text = t.to_string();
    assert!(text.contains("D03/24/2021"));
    assert!(text.contains("Mweekly shopping"));
    assert!(text.contains("SExpenses:Groceries:Dairy\nEMilk\n$-2.00"));
    assert!(text.contains("SExpenses:Alcohol:Wine\nEWine\n$-15.00"));
    assert!(text.contains("T-17.00"));

    // Both assignments were recorded.
    let milk = receqif::categories::cat_stats_get(&user.catmap, "Milk").unwrap();
    assert_eq!(milk[0].hits(), 2);
    let wine = receqif::categories::cat_stats_get(&user.catmap, "Wine").unwrap();
    assert_eq!(wine[0].category().as_str(), "Expenses:Alcohol:Wine");
    assert_eq!(wine[0].hits(), 1);

    // The finalize outcome moves the conversation on to the next file.
    let (s5, acts) = conv_step(s4, Event::FinalizeDone { ok: true }, &user);
    assert!(matches!(s5, State::AwaitingFile { .. }));
    assert!(matches!(acts[0], Action::LedgerReadyNotice));
}

#[test]
fn test_n_items_take_n_cycles() {
    // Termination: three unknown items need exactly three
    // select-and-click cycles before Ready, and the decided map then
    // holds exactly those three items.
    let mut user = User::new(1);
    user.accounts(vec!["Expenses:X".to_string()]);
    let (mut state, _) = conv_step(
        State::AwaitingFile {
            filename: String::new(),
        },
        Event::FileParsed {
            filename: "r".to_string(),
            items: vec!["a".to_string(), "b".to_string(), "c".to_string()],
        },
        &user,
    );
    let mut cycles = 0;
    loop {
        match state {
            State::Ready { ref decided, .. } => {
                assert_eq!(cycles, 3);
                assert_eq!(decided.len(), 3);
                for key in ["a", "b", "c"] {
                    assert_eq!(decided.get(key).unwrap(), "Expenses:X".to_string());
                }
                break;
            }
            State::SelectingCategory { .. } => {
                let (s, _) = conv_step(
                    state,
                    Event::Text {
                        text: "x".to_string(),
                    },
                    &user,
                );
                assert!(matches!(s, State::SelectingSubcategory { .. }));
                let (s, _) = conv_step(
                    s,
                    Event::Button {
                        payload: "Expenses:X".to_string(),
                    },
                    &user,
                );
                cycles += 1;
                state = s;
            }
            other => panic!("unexpected state {:?}", other),
        }
        assert!(cycles <= 3);
    }
}

#[test]
fn test_edit_reopens_item() {
    let user = demo_user();
    let mut decided = receqif::conv::DecisionList::new();
    decided.insert("Milk".to_string(), "Expenses:Groceries:Dairy".to_string());
    decided.insert("Wine".to_string(), "Expenses:Alcohol:Wine".to_string());
    let state = State::Ready {
        filename: "f".to_string(),
        decided,
    };
    let (s1, acts) = conv_step(
        state,
        Event::Button {
            payload: "edit_1".to_string(),
        },
        &user,
    );
    match &s1 {
        State::SelectingCategory {
            item, items_left, ..
        } => {
            assert_eq!(item, "Wine");
            assert!(items_left.is_empty());
        }
        other => panic!("unexpected state {:?}", other),
    }
    assert!(matches!(&acts[0], Action::EditNotice { item } if item == "Wine"));
}

#[test]
fn test_bad_edit_index_ignored() {
    let user = demo_user();
    let mut decided = receqif::conv::DecisionList::new();
    decided.insert("Milk".to_string(), "Expenses:Groceries:Dairy".to_string());
    let state = State::Ready {
        filename: "f".to_string(),
        decided,
    };
    let (s1, acts) = conv_step(
        state,
        Event::Button {
            payload: "edit_9".to_string(),
        },
        &user,
    );
    assert!(matches!(s1, State::Ready { .. }));
    assert!(acts.is_empty());
    let (s2, acts) = conv_step(
        s1,
        Event::Button {
            payload: "edit_x".to_string(),
        },
        &user,
    );
    assert!(matches!(s2, State::Ready { .. }));
    assert!(acts.is_empty());
}

#[test]
fn test_summary_abbreviates_lowercase_segments() {
    // Labels shorten every leading segment to its first character,
    // uppercased.
    let user = User::new(2);
    let state = State::SelectingSubcategory {
        filename: "f".to_string(),
        item: "thing".to_string(),
        category_prefix: "misc".to_string(),
        items_left: Vec::new(),
        decided: receqif::conv::DecisionList::new(),
    };
    let (_, acts) = conv_step(
        state,
        Event::Button {
            payload: "misc:stuff:deep".to_string(),
        },
        &user,
    );
    match &acts[2] {
        Action::ShowSummary { buttons } => {
            assert_eq!(buttons[0].0, "thing: M:S:deep");
            assert_eq!(buttons[0].1, "edit_0");
        }
        other => panic!("unexpected action {:?}", other),
    }
}
