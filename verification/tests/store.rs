use cryptlib::json::Account;
use cryptlib::json::AccountManager;
use cryptlib::json::PasswordManagerError;

fn record(username: &str, email: Option<&str>, password: &str) -> Account {
    Account {
        user_id: None,
        email: email.map(|e| e.to_owned()),
        username: username.to_owned(),
        password: password.to_owned(),
    }
}

#[test]
fn default_store_is_empty() {
    let mgr = AccountManager::default();
    assert_eq!(mgr.list().len(), 0);
}

#[test]
fn add_assigns_sequential_ids() {
    let mut mgr = AccountManager::default();
    mgr.add(record("a", None, "h1")).unwrap();
    mgr.add(record("b", Some("b@x.com"), "h2")).unwrap();
    mgr.add(record("c", None, "h3")).unwrap();
    let accounts = mgr.list();
    assert_eq!(accounts.len(), 3);
    assert_eq!(accounts[0].user_id, Some(0));
    assert_eq!(accounts[1].user_id, Some(1));
    assert_eq!(accounts[2].user_id, Some(2));
    assert_eq!(accounts[0].username, "a");
    assert_eq!(accounts[1].username, "b");
    assert_eq!(accounts[2].username, "c");
    assert_eq!(accounts[1].email.as_deref(), Some("b@x.com"));
}

#[test]
fn remove_shifts_later_positions_down() {
    let mut mgr = AccountManager::default();
    mgr.add(record("first", None, "h1")).unwrap();
    mgr.add(record("second", None, "h2")).unwrap();
    mgr.add(record("third", None, "h3")).unwrap();
    mgr.remove(1).unwrap();
    let accounts = mgr.list();
    assert_eq!(accounts.len(), 2);
    assert_eq!(accounts[0].username, "first");
    assert_eq!(accounts[1].username, "third");
    assert_eq!(accounts[0].user_id, Some(0));
    assert_eq!(accounts[1].user_id, Some(2));
}

#[test]
fn remove_out_of_range_fails_and_changes_nothing() {
    let mut mgr = AccountManager::default();
    mgr.add(record("only", None, "h")).unwrap();
    let r = mgr.remove(1);
    assert!(matches!(r, Err(PasswordManagerError::NoAccounts(_))));
    assert_eq!(mgr.list().len(), 1);
    assert_eq!(mgr.list()[0].username, "only");
}

#[test]
fn edit_replaces_content_and_keeps_id() {
    let mut mgr = AccountManager::default();
    mgr.add(record("before", Some("old@x.com"), "h1")).unwrap();
    mgr.edit(record("after", None, "h2"), 0).unwrap();
    let accounts = mgr.list();
    assert_eq!(accounts.len(), 1);
    assert_eq!(accounts[0].user_id, Some(0));
    assert_eq!(accounts[0].username, "after");
    assert_eq!(accounts[0].email, None);
    assert_eq!(accounts[0].password, "h2");
}

#[test]
fn edit_absent_position_fails_with_no_accounts() {
    let mut mgr = AccountManager::default();
    mgr.add(record("kept", Some("kept@x.com"), "h")).unwrap();
    let r = mgr.edit(record("ignored", None, "x"), 5);
    assert!(matches!(r, Err(PasswordManagerError::NoAccounts(_))));
    let accounts = mgr.list();
    assert_eq!(accounts.len(), 1);
    assert_eq!(accounts[0].username, "kept");
    assert_eq!(accounts[0].email.as_deref(), Some("kept@x.com"));
    assert_eq!(accounts[0].password, "h");
}

#[test]
fn to_hasmap_files_records_under_their_ids() {
    let mut mgr = AccountManager::default();
    mgr.add(record("a", None, "h1")).unwrap();
    mgr.add(record("b", None, "h2")).unwrap();
    let map = mgr.to_hasmap();
    assert_eq!(map.len(), 2);
    assert_eq!(map.get(&0).unwrap().username, "a");
    assert_eq!(map.get(&1).unwrap().username, "b");
}

#[test]
fn to_hasmap_later_record_wins_on_equal_key() {
    let mgr = AccountManager {
        accounts: vec![record("early", None, "h1"), record("late", None, "h2")],
    };
    let map = mgr.to_hasmap();
    assert_eq!(map.len(), 1);
    assert_eq!(map.get(&0).unwrap().username, "late");
}
