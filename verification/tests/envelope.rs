//! The cipher envelope and the schema codec: round trips, exact document
//! text, and the failure cases.

use rustotpony::databases::json::JsonDatabase;
use rustotpony::databases::schema::deserialize_document;
use rustotpony::databases::schema::serialize_document;
use rustotpony::databases::StoreError;
use rustotpony::databases::Database;
use rustotpony::generators::TOTP;
use rustotpony::RusTOTPony;

struct EmptyDb;

impl Database for EmptyDb {
    fn get_applications(&self) -> Vec<TOTP> {
        Vec::new()
    }

    fn save_applications(&self, _applications: &Vec<TOTP>) {}
}

fn sample_entries() -> Vec<TOTP> {
    let mut app = RusTOTPony::new(EmptyDb);
    app.create_application("github", "me", "JBSWY3DPEHPK3PXP").unwrap();
    app.create_application("mail", "you", "JBSWY3DP").unwrap();
    app.get_applications().unwrap().clone()
}

#[test]
fn key_derivation_is_sha256() {
    // SHA-256 of the empty string starts e3 b0 c4 42.
    let key = JsonDatabase::form_secret_key("");
    assert_eq!(key.len(), 32);
    assert_eq!(&key[..4], &[0xe3, 0xb0, 0xc4, 0x42]);
    // Deterministic, and sensitive to the passphrase.
    assert_eq!(JsonDatabase::form_secret_key("pw"), JsonDatabase::form_secret_key("pw"));
    assert_ne!(JsonDatabase::form_secret_key("pw"), JsonDatabase::form_secret_key("pw2"));
}

#[test]
fn serialized_document_is_exact() {
    let mut app = RusTOTPony::new(EmptyDb);
    // JBSWY3DP decodes to the bytes of "Hello".
    app.create_application("a", "u", "JBSWY3DP").unwrap();
    let doc = serialize_document(app.get_applications().unwrap());
    assert_eq!(
        doc,
        "{\"version\":1,\"content\":{\"applications\":{\"a\":{\"name\":\"a\",\"secret\":\"JBSWY3DP\",\"username\":\"u\",\"secret_bytes\":[72,101,108,108,111]}}}}"
    );
}

#[test]
fn empty_document_is_exact() {
    let doc = serialize_document(&Vec::new());
    assert_eq!(doc, "{\"version\":1,\"content\":{\"applications\":{}}}");
    let back = deserialize_document(&doc).unwrap();
    assert_eq!(back.len(), 0);
}

#[test]
fn document_round_trip() {
    let entries = sample_entries();
    let doc = serialize_document(&entries);
    let back = deserialize_document(&doc).unwrap();
    assert_eq!(back.len(), entries.len());
    for (a, b) in entries.iter().zip(back.iter()) {
        assert_eq!(a.get_name(), b.get_name());
        assert_eq!(a.get_secret(), b.get_secret());
        assert_eq!(a.get_username(), b.get_username());
    }
}

#[test]
fn document_round_trip_with_awkward_strings() {
    let mut app = RusTOTPony::new(EmptyDb);
    app.create_application("quote\"back\\slash", "tab\tand \u{1F512} lock", "JBSWY3DP").unwrap();
    let entries = app.get_applications().unwrap();
    let doc = serialize_document(entries);
    let back = deserialize_document(&doc).unwrap();
    assert_eq!(back.len(), 1);
    assert_eq!(back[0].get_name(), "quote\"back\\slash");
    assert_eq!(back[0].get_username(), "tab\tand \u{1F512} lock");
}

#[test]
fn malformed_documents_are_schema_errors() {
    assert_eq!(deserialize_document("garbage").unwrap_err(), StoreError::SchemaError);
    assert_eq!(deserialize_document("").unwrap_err(), StoreError::SchemaError);
    // A version this codec does not understand is a hard failure.
    assert_eq!(
        deserialize_document("{\"version\":2,\"content\":{\"applications\":{}}}").unwrap_err(),
        StoreError::SchemaError
    );
    // Trailing bytes after the document.
    assert_eq!(
        deserialize_document("{\"version\":1,\"content\":{\"applications\":{}}} ").unwrap_err(),
        StoreError::SchemaError
    );
    // Two entries under one name.
    let dup = "{\"version\":1,\"content\":{\"applications\":{\"a\":{\"name\":\"a\",\"secret\":\"JBSWY3DP\",\"username\":\"u\",\"secret_bytes\":[72]},\"a\":{\"name\":\"a\",\"secret\":\"JBSWY3DP\",\"username\":\"v\",\"secret_bytes\":[72]}}}}";
    assert_eq!(deserialize_document(dup).unwrap_err(), StoreError::SchemaError);
    // A member key that contradicts the entry's own name field.
    let skew = "{\"version\":1,\"content\":{\"applications\":{\"a\":{\"name\":\"b\",\"secret\":\"JBSWY3DP\",\"username\":\"u\",\"secret_bytes\":[72]}}}}";
    assert_eq!(deserialize_document(skew).unwrap_err(), StoreError::SchemaError);
    // A byte above the byte range.
    let big = "{\"version\":1,\"content\":{\"applications\":{\"a\":{\"name\":\"a\",\"secret\":\"JBSWY3DP\",\"username\":\"u\",\"secret_bytes\":[256]}}}}";
    assert_eq!(deserialize_document(big).unwrap_err(), StoreError::SchemaError);
}

#[test]
fn blob_layout_and_padding() {
    let key = JsonDatabase::form_secret_key("pw");
    let blob = JsonDatabase::encrypt_data("0123456789abcdef", &key);
    // 16 bytes of IV, one block of data, one block of padding.
    assert_eq!(blob.len(), 16 + 32);
    let blob2 = JsonDatabase::encrypt_data("short", &key);
    assert_eq!(blob2.len(), 16 + 16);
}

#[test]
fn two_encryptions_differ_but_decrypt_alike() {
    let key = JsonDatabase::form_secret_key("pw");
    let b1 = JsonDatabase::encrypt_data("the same text", &key);
    let b2 = JsonDatabase::encrypt_data("the same text", &key);
    // A fresh random IV on every call: the blobs differ.
    assert_ne!(b1, b2);
    assert_ne!(&b1[..16], &b2[..16]);
    assert_eq!(JsonDatabase::decrypt_data(&b1, &key).unwrap(), "the same text");
    assert_eq!(JsonDatabase::decrypt_data(&b2, &key).unwrap(), "the same text");
}

#[test]
fn wrong_key_fails_to_decrypt() {
    let key = JsonDatabase::form_secret_key("right horse battery staple");
    let other = JsonDatabase::form_secret_key("wrong horse battery staple");
    let blob = JsonDatabase::encrypt_data("attack at dawn", &key);
    assert_eq!(JsonDatabase::decrypt_data(&blob, &other).unwrap_err(), StoreError::DecryptionError);
}

#[test]
fn short_and_ragged_blobs_fail_to_decrypt() {
    let key = JsonDatabase::form_secret_key("pw");
    assert_eq!(JsonDatabase::decrypt_data(&[1, 2, 3], &key).unwrap_err(), StoreError::DecryptionError);
    // 16 bytes of IV and a ciphertext that is no whole number of blocks.
    let ragged = vec![0u8; 16 + 17];
    assert_eq!(JsonDatabase::decrypt_data(&ragged, &key).unwrap_err(), StoreError::DecryptionError);
    // An IV with no ciphertext at all holds no padded plaintext.
    let bare = vec![0u8; 16];
    assert_eq!(JsonDatabase::decrypt_data(&bare, &key).unwrap_err(), StoreError::DecryptionError);
}

#[test]
fn missing_file_yields_empty_document() {
    let key = JsonDatabase::form_secret_key("pw");
    let schema = JsonDatabase::read_database_content(None, &key).unwrap();
    assert_eq!(schema.version, 1);
    assert_eq!(schema.content.applications.len(), 0);
}

#[test]
fn store_round_trip() {
    let key = JsonDatabase::form_secret_key("a passphrase");
    let mut schema = JsonDatabase::get_empty_schema();
    schema.content.applications = sample_entries();
    let blob = JsonDatabase::render_database_file(&schema, &key);
    let back = JsonDatabase::read_database_content(Some(&blob), &key).unwrap();
    assert_eq!(back.version, 1);
    let apps = back.content.applications;
    assert_eq!(apps.len(), 2);
    assert_eq!(apps[0].get_name(), "github");
    assert_eq!(apps[0].get_username(), "me");
    assert_eq!(apps[0].get_secret(), "JBSWY3DPEHPK3PXP");
    assert_eq!(apps[1].get_name(), "mail");
    let wrong = JsonDatabase::form_secret_key("another passphrase");
    assert!(JsonDatabase::read_database_content(Some(&blob), &wrong).is_err());
}

#[test]
fn tampered_blob_is_rejected() {
    let key = JsonDatabase::form_secret_key("pw");
    let schema = JsonDatabase::get_empty_schema();
    let mut blob = JsonDatabase::render_database_file(&schema, &key);
    let last = blob.len() - 1;
    blob[last] ^= 0xff;
    assert!(JsonDatabase::read_database_content(Some(&blob), &key).is_err());
}
