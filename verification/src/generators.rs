//! TOTP generator entries: one registered account with its name, username,
//! secret in its original base32 spelling, and the decoded key bytes.

use vstd::prelude::*;

use crate::RegistryError;

verus! {

/// What `base32::decode` returns for a given input: the decoding depends on
/// the characters of the input alone.
pub uninterp spec fn base32_decoded(s: Seq<char>) -> Option<Seq<u8>>;

/// The code that the TOTP algorithm (SHA-1, 6 digits, epoch 0, 30 second
/// step) yields for a key within one time window: a function of both alone.
pub uninterp spec fn totp_code_of(key: Seq<u8>, window: int) -> u64;

/// Relies on `base32::decode` with the unpadded RFC 4648 alphabet: whether
/// and how an input decodes depends on its characters alone.
#[verifier::external_body]
fn base32_decode(secret: &str) -> (r: Option<Vec<u8>>)
    ensures
        match r {
            Some(b) => base32_decoded(secret@) == Some(b@),
            None => base32_decoded(secret@) is None,
        },
{
    base32::decode(base32::Alphabet::Rfc4648 { padding: false }, secret)
}

/// Relies on `oath::totp_custom` with SHA-1, 6 digits, epoch 0 and a 30
/// second step: the code is a function of the key and of `time / 30` alone,
/// and is reduced modulo 10^6.
#[verifier::external_body]
fn totp_at(secret_bytes: &Vec<u8>, time: u64) -> (r: u64)
    ensures
        r == totp_code_of(secret_bytes@, time as int / 30),
        r < 1000000,
{
    oath::totp_custom(secret_bytes, 6, 0, 30, time, crypto::sha1::Sha1::new())
}

/// Relies on `oath::totp_raw`, which reads the clock and computes the SHA-1,
/// 6 digit code of the key for the current 30 second window.
#[verifier::external_body]
fn totp_now(secret_bytes: &Vec<u8>) -> (r: u64)
    ensures
        r < 1000000,
        exists|w: int| r == totp_code_of(secret_bytes@, w),
{
    oath::totp_raw(secret_bytes, 6, 0, 30)
}

/// Mathematical image of one entry: every field as a sequence.
#[verifier::ext_equal]
pub struct TOTPView {
    pub name: Seq<char>,
    pub secret: Seq<char>,
    pub username: Seq<char>,
    pub secret_bytes: Seq<u8>,
}

/// One registered TOTP account.
#[derive(Debug, Clone)]
pub struct TOTP {
    name: String,
    secret: String,
    username: String,
    secret_bytes: Vec<u8>,
}

impl View for TOTP {
    type V = TOTPView;

    closed spec fn view(&self) -> TOTPView {
        TOTPView {
            name: self.name@,
            secret: self.secret@,
            username: self.username@,
            secret_bytes: self.secret_bytes@,
        }
    }
}

impl DeepView for TOTP {
    type V = TOTPView;

    open spec fn deep_view(&self) -> TOTPView {
        self.view()
    }
}

impl TOTPView {
    /// A stored entry is well formed when its key bytes are the non-empty
    /// base32 decoding of its secret string.
    pub open spec fn wf(self) -> bool {
        &&& base32_decoded(self.secret) == Some(self.secret_bytes)
        &&& self.secret_bytes.len() > 0
    }
}

impl TOTP {
    /// An entry must never be built over an invalid encoding, so the decoded
    /// bytes handed in must belong to the secret string.
    pub fn new(name: &str, username: &str, secret: &str, secret_bytes: Vec<u8>) -> (t: Self)
        requires
            base32_decoded(secret@) == Some(secret_bytes@),
            secret_bytes@.len() > 0,
        ensures
            t@ == (TOTPView {
                name: name@,
                secret: secret@,
                username: username@,
                secret_bytes: secret_bytes@,
            }),
            t@.wf(),
    {
        TOTP {
            name: name.to_owned(),
            secret: secret.to_owned(),
            username: username.to_owned(),
            secret_bytes,
        }
    }

    /// Builds an entry from an untrusted base32 secret; the only failure is
    /// an input that does not decode to non-empty key material.
    pub fn new_base32(name: &str, username: &str, base32_secret: &str) -> (r: Result<
        TOTP,
        RegistryError,
    >)
        ensures
            match r {
                Ok(t) => {
                    &&& t@ == (TOTPView {
                        name: name@,
                        secret: base32_secret@,
                        username: username@,
                        secret_bytes: t@.secret_bytes,
                    })
                    &&& base32_decoded(base32_secret@) == Some(t@.secret_bytes)
                    &&& t@.wf()
                },
                Err(e) => {
                    &&& e == RegistryError::InvalidSecretEncoding
                    &&& match base32_decoded(base32_secret@) {
                        Some(b) => b.len() == 0,
                        None => true,
                    }
                },
            },
    {
        if let Some(secret_bytes) = base32_decode(base32_secret) {
            if secret_bytes.len() == 0 {
                Err(RegistryError::InvalidSecretEncoding)
            } else {
                Ok(TOTP::new(name, username, base32_secret, secret_bytes))
            }
        } else {
            Err(RegistryError::InvalidSecretEncoding)
        }
    }

    /// Used by the schema reader, which takes the four fields as the stored
    /// file holds them and answers for nothing beyond that.
    pub(crate) fn from_parts(name: String, secret: String, username: String, secret_bytes: Vec<
        u8,
    >) -> (t: Self)
        ensures
            t@ == (TOTPView {
                name: name@,
                secret: secret@,
                username: username@,
                secret_bytes: secret_bytes@,
            }),
    {
        TOTP { name, secret, username, secret_bytes }
    }

    pub fn get_name(&self) -> (r: &str)
        ensures
            r@ == self@.name,
    {
        self.name.as_str()
    }

    pub fn set_name(&mut self, name: &str)
        ensures
            final(self)@ == (TOTPView { name: name@, ..old(self)@ }),
    {
        self.name = name.to_owned();
    }

    pub fn get_secret(&self) -> (r: &str)
        ensures
            r@ == self@.secret,
    {
        self.secret.as_str()
    }

    pub fn get_username(&self) -> (r: &str)
        ensures
            r@ == self@.username,
    {
        self.username.as_str()
    }

    pub(crate) fn get_secret_bytes(&self) -> (r: &Vec<u8>)
        ensures
            r@ == self@.secret_bytes,
    {
        &self.secret_bytes
    }

    /// The current code: six decimal digits for some 30 second window.
    pub fn get_code(&self) -> (r: u64)
        ensures
            r < 1000000,
            exists|w: int| r == totp_code_of(self@.secret_bytes, w),
    {
        let r = totp_now(&self.secret_bytes);
        proof {
            let w = choose|w: int| r == totp_code_of(self.secret_bytes@, w);
            assert(r == totp_code_of(self@.secret_bytes, w));
        }
        r
    }

    /// The code for the window that covers the given time, in seconds since
    /// the Unix epoch.
    pub fn get_code_at(&self, time: u64) -> (r: u64)
        ensures
            r == totp_code_of(self@.secret_bytes, time as int / 30),
            r < 1000000,
    {
        totp_at(&self.secret_bytes, time)
    }
}

/// Within one 30 second window the code of a fixed secret never changes: two
/// sampling times with the same window index yield the same code.
pub proof fn lemma_code_determinism(key: Seq<u8>, t1: u64, t2: u64)
    requires
        t1 / 30 == t2 / 30,
    ensures
        totp_code_of(key, t1 as int / 30) == totp_code_of(key, t2 as int / 30),
{
}

} // verus!
