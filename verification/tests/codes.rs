//! TOTP code computation: determinism inside a time window and the
//! published RFC 6238 SHA-1 vectors, reduced to six digits.

use rustotpony::generators::TOTP;

// GEZDGNBVGY3TQOJQGEZDGNBVGY3TQOJQ is the base32 spelling of the ASCII key
// "12345678901234567890" used by the RFC 6238 test vectors.
const RFC_SECRET: &str = "GEZDGNBVGY3TQOJQGEZDGNBVGY3TQOJQ";

#[test]
fn rfc6238_vectors_reduced_to_six_digits() {
    let t = TOTP::new_base32("rfc", "tester", RFC_SECRET).unwrap();
    assert_eq!(t.get_code_at(59), 287082);
    assert_eq!(t.get_code_at(1111111109), 81804);
    assert_eq!(t.get_code_at(1111111111), 50471);
    assert_eq!(t.get_code_at(1234567890), 5924);
    assert_eq!(t.get_code_at(2000000000), 279037);
    assert_eq!(t.get_code_at(20000000000), 353130);
}

#[test]
fn code_is_stable_within_a_window() {
    let t = TOTP::new_base32("x", "y", "JBSWY3DPEHPK3PXP").unwrap();
    // 60 and 89 fall in the same 30 second window; 90 starts the next one.
    assert_eq!(t.get_code_at(60), t.get_code_at(89));
    let c = t.get_code_at(60);
    assert_eq!(c, t.get_code_at(60));
    assert!(c < 1_000_000);
    assert!(t.get_code() < 1_000_000);
}

#[test]
fn different_secrets_give_different_codes() {
    let a = TOTP::new_base32("a", "u", "JBSWY3DPEHPK3PXP").unwrap();
    let b = TOTP::new_base32("b", "u", "JBSWY3DP").unwrap();
    assert_ne!(a.get_code_at(59), b.get_code_at(59));
}

#[test]
fn entry_accessors_round_trip() {
    let mut t = TOTP::new_base32("name", "user", "JBSWY3DP").unwrap();
    assert_eq!(t.get_name(), "name");
    assert_eq!(t.get_username(), "user");
    assert_eq!(t.get_secret(), "JBSWY3DP");
    t.set_name("renamed");
    assert_eq!(t.get_name(), "renamed");
}
