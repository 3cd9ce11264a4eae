use cryptlib::json::Account;
use cryptlib::json::AccountManager;
use cryptlib::json::PasswordManagerError;

fn record(username: &str, email: Option<&str>, password: &str) -> Account {
    Account {
        user_id: None,
        email: email.map(|e| e.to_owned()),
        username: username.to_owned(),
        password: password.to_owned(),
    }
}

#[test]
fn save_produces_the_expected_text() {
    let mut mgr = AccountManager::default();
    mgr.add(record("alice", Some("a@x.com"), "h")).unwrap();
    assert_eq!(
        mgr.save(),
        "[{\"user_id\":0,\"email\":\"a@x.com\",\"username\":\"alice\",\"password\":\"h\"}]"
    );
}

#[test]
fn save_of_an_empty_store_is_an_empty_listing() {
    let mgr = AccountManager::default();
    assert_eq!(mgr.save(), "[]");
}

#[test]
fn save_then_read_preserves_order_and_fields() {
    let mut mgr = AccountManager::default();
    mgr.add(record("alice", Some("a@x.com"), "hash-one")).unwrap();
    mgr.add(record("bob", None, "hash-two")).unwrap();
    mgr.add(record("carol", Some("c@x.com"), "hash-three")).unwrap();
    let text = mgr.save();

    let mut reloaded = AccountManager::default();
    reloaded.read(&text).unwrap();
    let before = mgr.list();
    let after = reloaded.list();
    assert_eq!(after.len(), before.len());
    for i in 0..before.len() {
        assert_eq!(after[i].user_id, before[i].user_id);
        assert_eq!(after[i].email, before[i].email);
        assert_eq!(after[i].username, before[i].username);
        assert_eq!(after[i].password, before[i].password);
    }
}

#[test]
fn quotes_and_backslashes_survive_the_round_trip() {
    let mut mgr = AccountManager::default();
    mgr.add(record("qu\"ote\\back", Some("odd\"@x.com"), "h\\\"h")).unwrap();
    let text = mgr.save();

    let mut reloaded = AccountManager::default();
    reloaded.read(&text).unwrap();
    assert_eq!(reloaded.list()[0].username, "qu\"ote\\back");
    assert_eq!(reloaded.list()[0].email.as_deref(), Some("odd\"@x.com"));
    assert_eq!(reloaded.list()[0].password, "h\\\"h");
}

#[test]
fn saved_text_is_well_formed_json() {
    let mut mgr = AccountManager::default();
    mgr.add(record("qu\"ote", Some("a@x.com"), "h\\h")).unwrap();
    let text = mgr.save();
    let value: serde_json::Value = serde_json::from_str(&text).unwrap();
    let list = value.as_array().unwrap();
    assert_eq!(list.len(), 1);
    assert_eq!(list[0]["user_id"], 0);
    assert_eq!(list[0]["email"], "a@x.com");
    assert_eq!(list[0]["username"], "qu\"ote");
    assert_eq!(list[0]["password"], "h\\h");
}

#[test]
fn read_accepts_null_id_and_null_email() {
    let mut mgr = AccountManager::default();
    mgr.read("[{\"user_id\":null,\"email\":null,\"username\":\"u\",\"password\":\"p\"}]").unwrap();
    let accounts = mgr.list();
    assert_eq!(accounts.len(), 1);
    assert_eq!(accounts[0].user_id, None);
    assert_eq!(accounts[0].email, None);
    assert_eq!(accounts[0].username, "u");
    assert_eq!(accounts[0].password, "p");
}

#[test]
fn read_rejects_malformed_text_and_keeps_the_store() {
    let mut mgr = AccountManager::default();
    mgr.add(record("kept", None, "h")).unwrap();
    let r = mgr.read("not an account listing");
    assert!(matches!(r, Err(PasswordManagerError::SerdeJson(_))));
    assert_eq!(mgr.list().len(), 1);
    assert_eq!(mgr.list()[0].username, "kept");
}

#[test]
fn read_rejects_trailing_text() {
    let mut mgr = AccountManager::default();
    let r = mgr.read("[]x");
    assert!(matches!(r, Err(PasswordManagerError::SerdeJson(_))));
}

#[test]
fn read_rejects_a_leading_zero_id() {
    let mut mgr = AccountManager::default();
    let r = mgr.read("[{\"user_id\":01,\"email\":null,\"username\":\"u\",\"password\":\"p\"}]");
    assert!(matches!(r, Err(PasswordManagerError::SerdeJson(_))));
}

#[test]
fn read_rejects_an_id_too_large_for_u32() {
    let mut mgr = AccountManager::default();
    let too_big = "[{\"user_id\":4294967296,\"email\":null,\"username\":\"u\",\"password\":\"p\"}]";
    assert!(matches!(mgr.read(too_big), Err(PasswordManagerError::SerdeJson(_))));
    let largest = "[{\"user_id\":4294967295,\"email\":null,\"username\":\"u\",\"password\":\"p\"}]";
    mgr.read(largest).unwrap();
    assert_eq!(mgr.list()[0].user_id, Some(u32::MAX));
}

#[test]
fn close_on_an_empty_store_fails_with_no_accounts() {
    let mgr = AccountManager::default();
    assert!(matches!(mgr.close(), Err(PasswordManagerError::NoAccounts(_))));
}

#[test]
fn close_on_a_non_empty_store_yields_the_saved_text() {
    let mut mgr = AccountManager::default();
    mgr.add(record("alice", None, "h")).unwrap();
    assert_eq!(mgr.close().unwrap(), mgr.save());
}
