//! Registry behaviour: create, lookup, rename, delete, and the empty-set
//! signal, over an in-memory store.

use rustotpony::databases::Database;
use rustotpony::generators::TOTP;
use rustotpony::RegistryError;
use rustotpony::RusTOTPony;

struct EmptyDb;

impl Database for EmptyDb {
    fn get_applications(&self) -> Vec<TOTP> {
        Vec::new()
    }

    fn save_applications(&self, _applications: &Vec<TOTP>) {}
}

#[test]
fn from_loaded_holds_exactly_the_loaded_entries() {
    let e = TOTP::new_base32("a", "u", "JBSWY3DP").unwrap();
    let app = RusTOTPony::from_loaded(EmptyDb, vec![e]);
    assert_eq!(app.get_applications().unwrap().len(), 1);
    assert_eq!(app.get_application("a").unwrap().get_username(), "u");
}

#[test]
fn from_loaded_empty_store_reports_empty_registry() {
    let app = RusTOTPony::from_loaded(EmptyDb, Vec::new());
    assert_eq!(app.get_applications().unwrap_err(), RegistryError::EmptyRegistry);
}

#[test]
fn empty_registry_signal() {
    let app = RusTOTPony::new(EmptyDb);
    assert_eq!(app.get_applications().unwrap_err(), RegistryError::EmptyRegistry);
}

#[test]
fn duplicate_create() {
    let mut app = RusTOTPony::new(EmptyDb);
    app.create_application("github", "me", "JBSWY3DPEHPK3PXP").unwrap();
    let second = app.create_application("github", "other", "JBSWY3DP");
    assert_eq!(second.unwrap_err(), RegistryError::DuplicateName);
    let t = app.get_application("github").unwrap();
    assert_eq!(t.get_username(), "me");
    assert_eq!(t.get_secret(), "JBSWY3DPEHPK3PXP");
}

#[test]
fn delete_then_get_misses() {
    let mut app = RusTOTPony::new(EmptyDb);
    app.create_application("a", "u", "JBSWY3DPEHPK3PXP").unwrap();
    app.delete_application("a").unwrap();
    assert_eq!(app.get_application("a").unwrap_err(), RegistryError::NotFound);
}

#[test]
fn delete_missing_is_not_found() {
    let mut app = RusTOTPony::new(EmptyDb);
    assert_eq!(app.delete_application("nope").unwrap_err(), RegistryError::NotFound);
}

#[test]
fn invalid_secret_is_rejected() {
    let mut app = RusTOTPony::new(EmptyDb);
    // '1' is outside the RFC 4648 alphabet.
    let r = app.create_application("x", "u", "1");
    assert_eq!(r.unwrap_err(), RegistryError::InvalidSecretEncoding);
    // The empty secret decodes to empty key material, which is refused too.
    let r = app.create_application("x", "u", "");
    assert_eq!(r.unwrap_err(), RegistryError::InvalidSecretEncoding);
    assert_eq!(app.get_application("x").unwrap_err(), RegistryError::NotFound);
}

#[test]
fn rename_rekeys_the_entry() {
    let mut app = RusTOTPony::new(EmptyDb);
    app.create_application("old", "u", "JBSWY3DPEHPK3PXP").unwrap();
    app.rename_application("old", "new").unwrap();
    assert_eq!(app.get_application("old").unwrap_err(), RegistryError::NotFound);
    let t = app.get_application("new").unwrap();
    assert_eq!(t.get_name(), "new");
    assert_eq!(t.get_username(), "u");
}

#[test]
fn rename_to_taken_name_is_refused() {
    let mut app = RusTOTPony::new(EmptyDb);
    app.create_application("a", "u", "JBSWY3DPEHPK3PXP").unwrap();
    app.create_application("b", "v", "JBSWY3DP").unwrap();
    assert_eq!(app.rename_application("a", "b").unwrap_err(), RegistryError::DuplicateName);
    assert_eq!(app.get_application("a").unwrap().get_username(), "u");
    // Renaming an entry onto its own name is a permitted no-op rename.
    app.rename_application("a", "a").unwrap();
}

#[test]
fn rename_missing_is_not_found() {
    let mut app = RusTOTPony::new(EmptyDb);
    assert_eq!(app.rename_application("a", "b").unwrap_err(), RegistryError::NotFound);
}

#[test]
fn delete_all_empties_the_registry() {
    let mut app = RusTOTPony::new(EmptyDb);
    app.create_application("a", "u", "JBSWY3DPEHPK3PXP").unwrap();
    app.create_application("b", "v", "JBSWY3DP").unwrap();
    app.delete_all_applications();
    assert_eq!(app.get_applications().unwrap_err(), RegistryError::EmptyRegistry);
}

#[test]
fn listing_returns_all_entries() {
    let mut app = RusTOTPony::new(EmptyDb);
    app.create_application("a", "u", "JBSWY3DPEHPK3PXP").unwrap();
    app.create_application("b", "v", "JBSWY3DP").unwrap();
    let v = app.get_applications().unwrap();
    assert_eq!(v.len(), 2);
    app.flush();
}
