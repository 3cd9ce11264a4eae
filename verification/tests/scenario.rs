use cryptlib::encode::Encoder;
use cryptlib::json::Account;
use cryptlib::json::AccountManager;

#[test]
fn one_session_from_empty_store_to_reload() {
    // Start empty.
    let mut mgr = AccountManager::default();
    assert_eq!(mgr.list().len(), 0);

    // Hash the plaintext, then add the record.
    let encoder = Encoder { text: "secret".to_owned(), hash_cost: 4 };
    let hashed = encoder.hash().unwrap();
    mgr.add(Account {
        user_id: None,
        email: Some("a@x.com".to_owned()),
        username: "alice".to_owned(),
        password: hashed,
    })
    .unwrap();

    // One record, id 0, with a hash that verifies but is not the plaintext.
    let accounts = mgr.list();
    assert_eq!(accounts.len(), 1);
    assert_eq!(accounts[0].user_id, Some(0));
    assert_eq!(accounts[0].username, "alice");
    assert_eq!(accounts[0].email.as_deref(), Some("a@x.com"));
    assert_ne!(accounts[0].password, "secret");
    assert!(encoder.verify(&accounts[0].password));

    // Save, reload into a fresh store, and compare the listings.
    let text = mgr.save();
    let mut reloaded = AccountManager::default();
    reloaded.read(&text).unwrap();
    let before = mgr.list();
    let after = reloaded.list();
    assert_eq!(after.len(), before.len());
    for i in 0..before.len() {
        assert_eq!(after[i].user_id, before[i].user_id);
        assert_eq!(after[i].email, before[i].email);
        assert_eq!(after[i].username, before[i].username);
        assert_eq!(after[i].password, before[i].password);
    }
    assert!(encoder.verify(&after[0].password));
}
