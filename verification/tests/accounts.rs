//! User records, accounts, chat commands and the single-writer manager.

use receqif::conv::{handle_command, parse_command, Command, CommandOutcome};
use receqif::import::select_expense_accounts;
use receqif::manager::{ManagerReply, TgManagerCommand, UserManager};
use receqif::ui::CatCompleter;
use receqif::user::User;

#[test]
fn test_new_account_added_once() {
    let mut user = User::new(3);
    user.new_account("Expenses:Books".to_string());
    user.new_account("Expenses:Books".to_string());
    assert!(user.has_account("Expenses:Books"));
    assert_eq!(user.accounts_list().len(), 1);
}

#[test]
fn test_account_listing_sorted_and_stripped() {
    let mut user = User::new(3);
    user.accounts(vec![
        "Expenses:Pets".to_string(),
        "Income:Salary".to_string(),
        "Expenses:Books".to_string(),
    ]);
    let names = user.expense_account_names();
    assert_eq!(names, vec!["Books".to_string(), "Pets".to_string()]);
}

#[test]
fn test_parse_commands() {
    assert!(matches!(parse_command("/help"), Some(Command::Help)));
    assert!(matches!(parse_command("/cancel"), Some(Command::Cancel)));
    assert!(matches!(parse_command("/accounts"), Some(Command::Accounts)));
    match parse_command("/newaccount Expenses:Tea") {
        Some(Command::NewAccount { account }) => assert_eq!(account, "Expenses:Tea"),
        other => panic!("unexpected parse {:?}", other),
    }
    assert!(parse_command("hello").is_none());
    assert!(parse_command("/unknown").is_none());
}

#[test]
fn test_command_new_account() {
    let mut user = User::new(4);
    let outcome = handle_command(
        Command::NewAccount {
            account: "  Expenses:Tea  ".to_string(),
        },
        &mut user,
    );
    assert!(matches!(outcome, CommandOutcome::AccountAdded));
    assert!(user.has_account("Expenses:Tea"));

    let outcome = handle_command(
        Command::NewAccount {
            account: "   ".to_string(),
        },
        &mut user,
    );
    assert!(matches!(outcome, CommandOutcome::NoAccountName));
    assert_eq!(user.accounts_list().len(), 1);
}

#[test]
fn test_command_accounts_listing() {
    let mut user = User::new(4);
    user.accounts(vec![
        "Expenses:Tea".to_string(),
        "Expenses:Coffee".to_string(),
        "Assets:Bank".to_string(),
    ]);
    match handle_command(Command::Accounts, &mut user) {
        CommandOutcome::AccountsListing { lines } => {
            assert_eq!(lines, vec!["Coffee".to_string(), "Tea".to_string()]);
        }
        other => panic!("unexpected outcome {:?}", other),
    }
}

#[test]
fn test_manager_serves_users_in_isolation() {
    // Two users' records never mix, and an update for one leaves the
    // other exactly as it was.
    let mut mgr = UserManager::new();
    match mgr.handle_command(TgManagerCommand::Get { user_id: 1 }) {
        ManagerReply::NeedLoad { user_id } => assert_eq!(user_id, 1),
        _ => panic!("a missing record must ask for a load"),
    }
    mgr.install(User::new(1));
    mgr.install(User::new(2));
    let mut u1 = match mgr.handle_command(TgManagerCommand::Get { user_id: 1 }) {
        ManagerReply::User(u) => u,
        _ => panic!("record 1 must be served"),
    };
    u1.new_account("Expenses:One".to_string());
    match mgr.handle_command(TgManagerCommand::Update { user: u1 }) {
        ManagerReply::Persist { user } => {
            assert_eq!(user.uid, 1);
            assert!(user.has_account("Expenses:One"));
        }
        _ => panic!("an update must be persisted"),
    }
    // The same user id sees both mutations applied in order.
    let mut u1 = match mgr.handle_command(TgManagerCommand::Get { user_id: 1 }) {
        ManagerReply::User(u) => u,
        _ => panic!("record 1 must be served"),
    };
    assert!(u1.has_account("Expenses:One"));
    u1.new_account("Expenses:Two".to_string());
    match mgr.handle_command(TgManagerCommand::Update { user: u1 }) {
        ManagerReply::Persist { user } => {
            assert!(user.has_account("Expenses:One"));
            assert!(user.has_account("Expenses:Two"));
        }
        _ => panic!("an update must be persisted"),
    }
    // The other user observed nothing.
    match mgr.handle_command(TgManagerCommand::Get { user_id: 2 }) {
        ManagerReply::User(u) => {
            assert_eq!(u.uid, 2);
            assert_eq!(u.accounts_list().len(), 0);
        }
        _ => panic!("record 2 must be served"),
    }
}

#[test]
fn test_select_expense_accounts() {
    let rows = vec![
        vec!["Type".to_string(), "Name".to_string()],
        vec!["EXPENSE".to_string(), "Coffee".to_string()],
        vec!["INCOME".to_string(), "Salary".to_string()],
        vec!["EXPENSE".to_string(), "Books".to_string()],
        vec!["ASSET".to_string(), "Bank".to_string()],
    ];
    let accounts = select_expense_accounts(&rows);
    assert_eq!(accounts, vec!["Coffee".to_string(), "Books".to_string()]);
}

#[test]
fn test_completer_offers_containing() {
    let completer = CatCompleter::new(vec![
        "Expenses:Groceries".to_string(),
        "Expenses:Games".to_string(),
        "Income:Salary".to_string(),
    ]);
    let found = completer.complete("G");
    assert_eq!(
        found,
        vec!["Expenses:Groceries".to_string(), "Expenses:Games".to_string()]
    );
}
