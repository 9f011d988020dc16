//! Persistence backends: the shared load/save contract and the JSON-document
//! store that encrypts the document at rest.

pub mod json;
pub mod schema;

use vstd::prelude::*;

use crate::generators::TOTP;
use crate::generators::TOTPView;

verus! {

/// The unrecoverable failures of a store: the file cannot be deciphered with
/// the derived key, or what it holds is not a well-formed document.
#[derive(Debug, Clone, Copy, PartialEq, Eq, Structural)]
pub enum StoreError {
    /// The blob is too short, its ciphertext is damaged, the key is wrong,
    /// or the deciphered bytes are not text.
    DecryptionError,
    /// The deciphered text is not a document this schema version reads.
    SchemaError,
}

/// Entry names are the document's keys, so no two stored entries may share
/// one.
pub open spec fn wf_names(l: Seq<TOTPView>) -> bool {
    forall|p: int, q: int|
        #![trigger l[p].name, l[q].name]
        0 <= p < q < l.len() ==> l[p].name != l[q].name
}

/// A persistence backend holds one full entry set at a time: a load yields
/// the whole set, a save replaces it wholesale.
pub trait Database {
    /// Loads every stored entry; a missing backing file yields the empty
    /// set, any other failure is fatal to the caller.
    fn get_applications(&self) -> (r: Vec<TOTP>)
        ensures
            wf_names(r.deep_view()),
    ;

    /// Overwrites the stored content with exactly the given entries.
    fn save_applications(&self, applications: &Vec<TOTP>)
        requires
            wf_names(applications.deep_view()),
    ;
}

} // verus!
