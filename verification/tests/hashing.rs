use cryptlib::encode::Encoder;
use cryptlib::json::PasswordManagerError;

fn encoder(text: &str, cost: u32) -> Encoder {
    Encoder { text: text.to_owned(), hash_cost: cost }
}

#[test]
fn default_encoder_has_empty_text_and_default_cost() {
    let e = Encoder::default();
    assert_eq!(e.text, "");
    assert_eq!(e.hash_cost, 12);
}

#[test]
fn hash_verifies_against_its_own_plaintext() {
    let e = encoder("secret", 4);
    let h = e.hash().unwrap();
    assert_ne!(h, "secret");
    assert!(e.verify(&h));
}

#[test]
fn a_different_plaintext_does_not_verify() {
    let e = encoder("secret", 4);
    let h = e.hash().unwrap();
    let other = encoder("not the secret", 4);
    assert!(!other.verify(&h));
}

#[test]
fn out_of_range_costs_are_rejected() {
    for cost in [0u32, 3, 32, 1000] {
        let e = encoder("secret", cost);
        assert!(matches!(e.hash(), Err(PasswordManagerError::HashingAlgorithmNotSupported(_))));
    }
}

#[test]
fn boundary_costs_are_accepted() {
    let e = encoder("secret", 4);
    assert!(e.hash().is_ok());
}

#[test]
fn a_malformed_hash_never_verifies() {
    let e = encoder("secret", 4);
    assert!(!e.verify("not a stored hash"));
    assert!(!e.verify(""));
}

#[test]
fn two_hashes_of_one_plaintext_differ_yet_both_verify() {
    let e = encoder("secret", 4);
    let h1 = e.hash().unwrap();
    let h2 = e.hash().unwrap();
    assert_ne!(h1, h2);
    assert!(e.verify(&h1));
    assert!(e.verify(&h2));
}

#[test]
fn set_text_replaces_only_the_text() {
    let mut e = encoder("first", 4);
    e.set_text("second");
    assert_eq!(e.text, "second");
    assert_eq!(e.hash_cost, 4);
}
