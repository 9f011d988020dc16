//! The encrypted JSON store: key derivation, the cipher envelope, and the
//! compute halves of load and save. The file's bytes are a fresh random
//! 16 byte IV followed by the AES-256-CBC ciphertext of the document text.

use vstd::prelude::*;
use vstd::slice::slice_subrange;
use vstd::utf8::decode_utf8;
use vstd::utf8::encode_utf8;
use vstd::utf8::valid_utf8;

use crypto::buffer::ReadBuffer;
use crypto::buffer::WriteBuffer;

use crate::databases::schema::deserialize_document;
use crate::databases::schema::doc_enc;
use crate::databases::schema::serialize_document;
use crate::databases::wf_names;
use crate::databases::StoreError;
use crate::generators::TOTP;
use crate::generators::TOTPView;

verus! {

/// The schema version this codec writes, and the only one it reads.
pub const DATABASE_VERSION: u8 = 1;

/// What SHA-256 yields for a string: 32 bytes that depend on the input
/// characters alone.
pub uninterp spec fn sha256_of(s: Seq<char>) -> Seq<u8>;

/// What AES-256-CBC encryption with PKCS padding yields for a plaintext
/// under a key and an IV.
pub uninterp spec fn aes_cbc_enc(data: Seq<u8>, key: Seq<u8>, iv: Seq<u8>) -> Seq<u8>;

/// What raw AES-256-CBC decryption, without any padding handling, yields
/// for a whole number of blocks under a key and an IV.
pub uninterp spec fn aes_cbc_dec_raw(data: Seq<u8>, key: Seq<u8>, iv: Seq<u8>) -> Seq<u8>;

/// The plaintext with its PKCS padding: one to sixteen copies of the pad
/// length itself, up to the next whole block.
pub open spec fn pkcs_pad(data: Seq<u8>) -> Seq<u8> {
    data + Seq::new((16 - data.len() % 16) as nat, |i| (16 - data.len() % 16) as u8)
}

/// Checks and strips PKCS padding: the last byte names how many trailing
/// copies of itself to drop, between one and sixteen; anything else is
/// refused.
pub open spec fn strip_pkcs(p: Seq<u8>) -> Option<Seq<u8>> {
    if p.len() == 0 {
        None
    } else {
        let l = p.last() as int;
        if 1 <= l <= 16 && l <= p.len() && (forall|i: int|
            p.len() - l <= i < p.len() ==> p[i] == p.last()) {
            Some(p.take(p.len() - l))
        } else {
            None
        }
    }
}

/// Stripping what padding added gives the plaintext back.
proof fn lemma_strip_pkcs_pad(data: Seq<u8>)
    ensures
        strip_pkcs(pkcs_pad(data)) == Some(data),
{
    let l = 16 - data.len() % 16;
    let p = pkcs_pad(data);
    assert(p.len() == data.len() + l);
    assert(p.last() == l as u8);
    assert(1 <= l <= 16);
    assert forall|i: int| p.len() - l <= i < p.len() implies p[i] == p.last() by {
        assert(p[i] == l as u8);
    }
    assert(p.take(p.len() - l) =~= data);
}

/// Relies on `crypto::sha2::Sha256` through the `Digest` trait: the digest
/// of the input's bytes, a function of the input alone.
#[verifier::external_body]
fn sha256_digest(input: &str) -> (r: [u8; 32])
    ensures
        r@ == sha256_of(input@),
{
    let mut sha = crypto::sha2::Sha256::new();
    crypto::digest::Digest::input_str(&mut sha, input);
    let mut res = [0u8; 32];
    crypto::digest::Digest::result(&mut sha, &mut res);
    res
}

/// Relies on `rand::rngs::OsRng`, the operating system's randomness source:
/// sixteen fresh bytes, with nothing promised of their values.
#[verifier::external_body]
fn create_iv() -> (r: Vec<u8>)
    ensures
        r@.len() == 16,
{
    let mut iv = vec![0u8; 16];
    rand::RngCore::fill_bytes(&mut rand::rngs::OsRng, &mut iv);
    iv
}

/// Relies on `crypto::aes::cbc_encryptor` with PKCS padding: the ciphertext
/// is a function of plaintext, key and IV, it always carries at least one
/// byte of padding up to the next block, its encryption never errs with a
/// big enough output buffer, and raw CBC decryption under the same key and
/// IV gives the padded plaintext back.
#[verifier::external_body]
fn aes256_encrypt(data: &[u8], key: &[u8], iv: &[u8]) -> (r: Vec<u8>)
    requires
        key@.len() == 32,
        iv@.len() == 16,
    ensures
        r@ == aes_cbc_enc(data@, key@, iv@),
        r@.len() == data@.len() + 16 - (data@.len() % 16),
        aes_cbc_dec_raw(r@, key@, iv@) == pkcs_pad(data@),
{
    let ks = crypto::aes::KeySize::KeySize256;
    let mut enc = crypto::aes::cbc_encryptor(ks, key, iv, crypto::blockmodes::PkcsPadding);
    let mut out = vec![0u8; data.len() + 16];
    let mut rb = crypto::buffer::RefReadBuffer::new(data);
    let mut wb = crypto::buffer::RefWriteBuffer::new(&mut out);
    enc.encrypt(&mut rb, &mut wb, true).unwrap();
    let n = wb.take_read_buffer().take_remaining().len();
    out.truncate(n);
    out
}

/// Relies on `crypto::aes::cbc_decryptor` with `NoPadding`: raw block
/// decryption, a function of ciphertext, key and IV, which accepts exactly
/// the inputs that are a whole number of blocks and returns as many bytes.
/// The padding itself is checked and stripped by verified code in
/// `decrypt_data`.
#[verifier::external_body]
fn aes256_decrypt_raw(data: &[u8], key: &[u8], iv: &[u8]) -> (r: Option<Vec<u8>>)
    requires
        key@.len() == 32,
        iv@.len() == 16,
    ensures
        (r matches Some(p) ==> p@ == aes_cbc_dec_raw(data@, key@, iv@) && p@.len()
            == data@.len()),
        (r is Some) <==> data@.len() % 16 == 0,
{
    let ks = crypto::aes::KeySize::KeySize256;
    let mut dec = crypto::aes::cbc_decryptor(ks, key, iv, crypto::blockmodes::NoPadding);
    let mut out = vec![0u8; data.len()];
    let mut rb = crypto::buffer::RefReadBuffer::new(data);
    let mut wb = crypto::buffer::RefWriteBuffer::new(&mut out);
    if dec.decrypt(&mut rb, &mut wb, true).is_err() {
        return None;
    }
    let n = wb.take_read_buffer().take_remaining().len();
    out.truncate(n);
    Some(out)
}

/// Relies on `String::from_utf8`: it accepts exactly the valid UTF-8 byte
/// sequences and decodes them to their characters.
#[verifier::external_body]
fn bytes_to_string(v: Vec<u8>) -> (r: Option<String>)
    ensures
        match r {
            Some(s) => valid_utf8(v@) && s@ == decode_utf8(v@),
            None => !valid_utf8(v@),
        },
{
    String::from_utf8(v).ok()
}

/// What a cipher blob deciphers to under a key: the first 16 bytes are the
/// IV, the rest whole blocks of ciphertext whose raw decryption must end in
/// valid padding and spell text.
pub open spec fn spec_decrypt_blob(blob: Seq<u8>, key: Seq<u8>) -> Option<Seq<char>> {
    if blob.len() < 16 || (blob.len() - 16) % 16 != 0 {
        None
    } else {
        let raw = aes_cbc_dec_raw(blob.subrange(16, blob.len() as int), key, blob.subrange(0, 16));
        match strip_pkcs(raw) {
            Some(pt) => if valid_utf8(pt) {
                Some(decode_utf8(pt))
            } else {
                None
            },
            None => None,
        }
    }
}

/// Wrong key: wherever the cipher refuses a blob under a key — the raw
/// decryption ends in no valid padding, or spells no text — decryption
/// reports a failure rather than handing back wrong plaintext. That a key
/// derived from a different passphrase refuses every blob is the cipher's
/// probabilistic property, which no contract here can state: blobs it
/// happens to accept are the inputs this law leaves out.
pub proof fn lemma_wrong_key_fails(blob: Seq<u8>, key: Seq<u8>)
    requires
        blob.len() >= 16 && (blob.len() - 16) % 16 == 0 ==> ({
            let raw = aes_cbc_dec_raw(
                blob.subrange(16, blob.len() as int),
                key,
                blob.subrange(0, 16),
            );
            strip_pkcs(raw) is None || !valid_utf8(strip_pkcs(raw).unwrap())
        }),
    ensures
        spec_decrypt_blob(blob, key) is None,
{
}

/// The in-memory shape of the stored document.
pub struct DatabaseContentSchema {
    pub applications: Vec<TOTP>,
}

/// The stored document: its schema version and its content.
pub struct JsonDatabaseSchema {
    pub version: u8,
    pub content: DatabaseContentSchema,
}

/// The store over one file path; the file itself is read and written by the
/// caller, which hands the bytes in and out of the compute functions here.
pub struct JsonDatabase {
    file_path: String,
}

impl JsonDatabase {
    /// The view of the configured path.
    pub closed spec fn path(self) -> Seq<char> {
        self.file_path@
    }

    pub fn new(path: String) -> (db: JsonDatabase)
        ensures
            db.path() == path@,
    {
        JsonDatabase { file_path: path }
    }

    /// Where the store keeps its file.
    pub fn get_file_path(&self) -> (r: &str)
        ensures
            r@ == self.path(),
    {
        self.file_path.as_str()
    }

    /// Derives the cipher key from a passphrase: deterministic, defined for
    /// every string, never stored.
    pub fn form_secret_key(input: &str) -> (r: [u8; 32])
        ensures
            r@ == sha256_of(input@),
    {
        sha256_digest(input)
    }

    /// Encrypts the document text under the key with a fresh random IV and
    /// returns `IV ‖ ciphertext`; the blob deciphers back to exactly the
    /// input under the same key.
    pub fn encrypt_data(data: &str, key: &[u8]) -> (r: Vec<u8>)
        requires
            key@.len() == 32,
        ensures
            r@.len() == 16 + encode_utf8(data@).len() + 16 - encode_utf8(data@).len() % 16,
            r@.subrange(16, r@.len() as int) == aes_cbc_enc(
                encode_utf8(data@),
                key@,
                r@.subrange(0, 16),
            ),
            spec_decrypt_blob(r@, key@) == Some(data@),
    {
        broadcast use vstd::utf8::group_utf8_lib;

        let iv = create_iv();
        let bytes = data.as_bytes();
        let mut ct = aes256_encrypt(bytes, key, iv.as_slice());
        let mut out = iv;
        out.append(&mut ct);
        proof {
            assert(out@.subrange(0, 16) =~= out@.subrange(0, 16).subrange(0, 16));
            assert(out@.subrange(0, 16) == out@.take(16));
            assert(out@.take(16) =~= iv@);
            assert(out@.subrange(16, out@.len() as int) =~= aes_cbc_enc(
                encode_utf8(data@),
                key@,
                iv@,
            ));
            let n = encode_utf8(data@).len() as int;
            assert((n + 16 - n % 16) % 16 == 0) by (nonlinear_arith);
            lemma_strip_pkcs_pad(encode_utf8(data@));
        }
        out
    }

    /// Splits the blob into IV and ciphertext, deciphers the blocks, checks
    /// and strips the padding, and insists the plaintext is text; every
    /// other outcome is a decryption failure.
    pub fn decrypt_data(data: &[u8], key: &[u8]) -> (r: Result<String, StoreError>)
        requires
            key@.len() == 32,
        ensures
            match r {
                Ok(s) => spec_decrypt_blob(data@, key@) == Some(s@),
                Err(e) => e == StoreError::DecryptionError && spec_decrypt_blob(data@, key@)
                    is None,
            },
    {
        if data.len() < 16 {
            return Err(StoreError::DecryptionError);
        }
        let iv = slice_subrange(data, 0, 16);
        let ct = slice_subrange(data, 16, data.len());
        let mut raw = match aes256_decrypt_raw(ct, key, iv) {
            None => {
                return Err(StoreError::DecryptionError);
            },
            Some(p) => p,
        };
        proof {
            assert(ct@ == data@.subrange(16, data@.len() as int));
            assert(iv@ == data@.subrange(0, 16));
            assert((data@.len() - 16) % 16 == 0);
            assert(raw@ == aes_cbc_dec_raw(ct@, key@, iv@));
        }
        let n = raw.len();
        if n == 0 {
            proof {
                assert(strip_pkcs(raw@) is None);
            }
            return Err(StoreError::DecryptionError);
        }
        let l = raw[n - 1];
        proof {
            assert(raw@.last() == l);
        }
        if l < 1 || l > 16 || (l as usize) > n {
            proof {
                assert(strip_pkcs(raw@) is None);
            }
            return Err(StoreError::DecryptionError);
        }
        let mut k: usize = 0;
        while k < l as usize
            invariant
                k <= l as usize,
                1 <= l <= 16,
                l as usize <= n,
                n == raw@.len(),
                raw@.last() == l,
                data@.len() >= 16,
                (data@.len() - 16) % 16 == 0,
                raw@ == aes_cbc_dec_raw(
                    data@.subrange(16, data@.len() as int),
                    key@,
                    data@.subrange(0, 16),
                ),
                forall|j: int| n - k <= j < n ==> raw@[j] == l,
            decreases l as usize - k,
        {
            if raw[n - 1 - k] != l {
                proof {
                    assert(strip_pkcs(raw@) is None);
                }
                return Err(StoreError::DecryptionError);
            }
            k += 1;
        }
        raw.truncate(n - l as usize);
        proof {
            assert(strip_pkcs(aes_cbc_dec_raw(ct@, key@, iv@)) == Some(raw@));
        }
        match bytes_to_string(raw) {
            None => Err(StoreError::DecryptionError),
            Some(s) => Ok(s),
        }
    }

    /// The canonical empty document: no entries, current version.
    pub fn get_empty_schema() -> (r: JsonDatabaseSchema)
        ensures
            r.version == DATABASE_VERSION,
            r.content.applications.deep_view() == Seq::<TOTPView>::empty(),
    {
        let r = JsonDatabaseSchema {
            version: DATABASE_VERSION,
            content: DatabaseContentSchema { applications: Vec::new() },
        };
        proof {
            assert(r.content.applications.deep_view() =~= Seq::<TOTPView>::empty());
        }
        r
    }

    /// The compute half of a load. `None` stands for a missing file and
    /// yields the empty document; bytes that do not decipher are a
    /// decryption failure; deciphered text that is not a canonical current
    /// document is a schema failure.
    pub fn read_database_content(data: Option<&Vec<u8>>, key: &[u8]) -> (r: Result<
        JsonDatabaseSchema,
        StoreError,
    >)
        requires
            key@.len() == 32,
        ensures
            match data {
                None => r matches Ok(sc) && sc.version == DATABASE_VERSION
                    && sc.content.applications.deep_view() == Seq::<TOTPView>::empty(),
                Some(d) => match r {
                    Ok(sc) => {
                        &&& sc.version == DATABASE_VERSION
                        &&& wf_names(sc.content.applications.deep_view())
                        &&& spec_decrypt_blob(d@, key@) == Some(
                            doc_enc(sc.content.applications.deep_view()),
                        )
                    },
                    Err(StoreError::DecryptionError) => spec_decrypt_blob(d@, key@) is None,
                    Err(StoreError::SchemaError) => {
                        &&& spec_decrypt_blob(d@, key@) matches Some(txt)
                        &&& forall|l: Seq<TOTPView>|
                            !(wf_names(l) && spec_decrypt_blob(d@, key@) == Some(doc_enc(l)))
                    },
                },
            },
            forall|l: Seq<TOTPView>|
                (data matches Some(d) && wf_names(l) && spec_decrypt_blob(d@, key@) == Some(
                    #[trigger] doc_enc(l),
                )) ==> (r matches Ok(sc) && sc.content.applications.deep_view() == l),
    {
        let d = match data {
            None => {
                return Ok(Self::get_empty_schema());
            },
            Some(d) => d,
        };
        let txt = match Self::decrypt_data(d.as_slice(), key) {
            Ok(t) => t,
            Err(e) => {
                return Err(e);
            },
        };
        match deserialize_document(txt.as_str()) {
            Ok(apps) => Ok(
                JsonDatabaseSchema {
                    version: DATABASE_VERSION,
                    content: DatabaseContentSchema { applications: apps },
                },
            ),
            Err(e) => Err(e),
        }
    }

    /// The compute half of a save: renders the entries as the current
    /// document and encrypts them under a fresh IV. Reading the result back
    /// under the same key is guaranteed to give the same entries.
    pub fn render_database_file(schema: &JsonDatabaseSchema, key: &[u8]) -> (r: Vec<u8>)
        requires
            key@.len() == 32,
            schema.version == DATABASE_VERSION,
        ensures
            r@.len() >= 16,
            spec_decrypt_blob(r@, key@) == Some(doc_enc(schema.content.applications.deep_view())),
    {
        let txt = serialize_document(&schema.content.applications);
        Self::encrypt_data(txt.as_str(), key)
    }
}

} // verus!

