//! A local store for TOTP (time-based one-time password) accounts.
//!
//! Entries live in an in-memory registry keyed by application name and are
//! persisted as a single file: a versioned JSON document encrypted with
//! AES-256-CBC under a key derived from a passphrase by SHA-256.

pub mod databases;
pub mod generators;

use vstd::prelude::*;

use crate::databases::wf_names;
use crate::databases::Database;
use crate::generators::base32_decoded;
use crate::generators::TOTP;
use crate::generators::TOTPView;

verus! {

/// The recoverable failures of the in-memory registry.
#[derive(Debug, Clone, Copy, PartialEq, Eq, Structural)]
pub enum RegistryError {
    /// The secret handed to `create_application` does not decode to
    /// non-empty key material.
    InvalidSecretEncoding,
    /// The name handed to `create_application` or `rename_application` is
    /// already taken.
    DuplicateName,
    /// No entry carries the requested name.
    NotFound,
    /// The registry holds no entries at all.
    EmptyRegistry,
}

/// Some entry of the set carries this name.
pub open spec fn has_name(l: Seq<TOTPView>, n: Seq<char>) -> bool {
    exists|k: int| 0 <= k < l.len() && (#[trigger] l[k].name) == n
}

/// Pushing an entry under a fresh name keeps the names unique.
proof fn lemma_wf_push(l: Seq<TOTPView>, e: TOTPView)
    requires
        wf_names(l),
        !has_name(l, e.name),
    ensures
        wf_names(l.push(e)),
{
    assert forall|p: int, q: int|
        #![trigger l.push(e)[p].name, l.push(e)[q].name]
        0 <= p < q < l.push(e).len() implies l.push(e)[p].name != l.push(e)[q].name by {
        if q == l.len() {
            assert(l.push(e)[p] == l[p]);
            assert(l.push(e)[q] == e);
            if l[p].name == e.name {
                assert(has_name(l, e.name));
            }
        } else {
            assert(l.push(e)[p] == l[p]);
            assert(l.push(e)[q] == l[q]);
        }
    }
}

/// Taking an entry out keeps the names unique.
proof fn lemma_wf_remove(l: Seq<TOTPView>, k: int)
    requires
        wf_names(l),
        0 <= k < l.len(),
    ensures
        wf_names(l.remove(k)),
{
    let m = l.remove(k);
    assert forall|p: int, q: int|
        #![trigger m[p].name, m[q].name]
        0 <= p < q < m.len() implies m[p].name != m[q].name by {
        let p0: int = if p < k {
            p
        } else {
            p + 1
        };
        let q0: int = if q < k {
            q
        } else {
            q + 1
        };
        assert(m[p] == l[p0]);
        assert(m[q] == l[q0]);
        assert(l[p0].name != l[q0].name);
    }
}

/// After the one entry carrying a name leaves a well-formed set, no entry
/// carries that name any more: a delete followed by a lookup must miss.
pub proof fn lemma_delete_removes_name(l: Seq<TOTPView>, k: int)
    requires
        wf_names(l),
        0 <= k < l.len(),
    ensures
        !has_name(l.remove(k), l[k].name),
{
    let m = l.remove(k);
    assert forall|j: int| 0 <= j < m.len() implies (#[trigger] m[j].name) != l[k].name by {
        let j0: int = if j < k {
            j
        } else {
            j + 1
        };
        assert(m[j] == l[j0]);
        assert(l[j0].name != l[k].name);
    }
}

/// Renaming one entry to a name that no other entry carries keeps the
/// names unique.
proof fn lemma_wf_update_name(l: Seq<TOTPView>, k: int, e: TOTPView)
    requires
        wf_names(l),
        0 <= k < l.len(),
        forall|j: int| 0 <= j < l.len() && j != k ==> (#[trigger] l[j].name) != e.name,
    ensures
        wf_names(l.update(k, e)),
{
    let m = l.update(k, e);
    assert forall|p: int, q: int|
        #![trigger m[p].name, m[q].name]
        0 <= p < q < m.len() implies m[p].name != m[q].name by {
        if p != k && q != k {
            assert(m[p] == l[p]);
            assert(m[q] == l[q]);
        } else if p == k {
            assert(m[q] == l[q]);
        } else {
            assert(m[p] == l[p]);
        }
    }
}

/// The in-memory registry: the loaded entries, and the store they are
/// flushed back to.
pub struct RusTOTPony<DB: Database> {
    database: DB,
    applications: Vec<TOTP>,
}

impl<DB: Database> RusTOTPony<DB> {
    /// The mathematical content of the registry: the entries in their
    /// stored order.
    pub closed spec fn apps(self) -> Seq<TOTPView> {
        self.applications.deep_view()
    }

    /// The registry invariant: entry names are unique keys.
    pub open spec fn wf(self) -> bool {
        wf_names(self.apps())
    }

    /// Builds the registry over a store whose load already happened: the
    /// given entries become the registry's whole content, exactly.
    pub fn from_loaded(db: DB, applications: Vec<TOTP>) -> (s: Self)
        requires
            wf_names(applications.deep_view()),
        ensures
            s.wf(),
            s.apps() == applications.deep_view(),
    {
        RusTOTPony { database: db, applications }
    }

    /// Builds the registry over a store, eagerly loading every entry; a
    /// load failure is fatal to construction. What the load returned
    /// becomes the content, as `from_loaded` states.
    pub fn new(db: DB) -> (s: Self)
        ensures
            s.wf(),
    {
        let applications = db.get_applications();
        Self::from_loaded(db, applications)
    }

    /// The position of the entry carrying a name, if any does.
    fn index_of(&self, name: &str) -> (r: Option<usize>)
        ensures
            match r {
                Some(k) => k < self.apps().len() && self.apps()[k as int].name == name@,
                None => !has_name(self.apps(), name@),
            },
    {
        let ghost dv = self.apps();
        let mut k: usize = 0;
        while k < self.applications.len()
            invariant
                k <= dv.len(),
                dv == self.apps(),
                dv.len() == self.applications@.len(),
                forall|m: int| 0 <= m < k ==> (#[trigger] dv[m].name) != name@,
            decreases dv.len() - k,
        {
            if crate::databases::schema::str_eq_chars(self.applications[k].get_name(), name) {
                proof {
                    assert(dv[k as int] == self.applications@[k as int]@);
                }
                return Some(k);
            }
            proof {
                assert(dv[k as int] == self.applications@[k as int]@);
            }
            k += 1;
        }
        None
    }

    /// Registers a new account. The secret must decode to non-empty key
    /// material and the name must be free; the new entry goes in at the
    /// end, and a failure leaves the registry exactly as it was.
    pub fn create_application(&mut self, name: &str, username: &str, secret: &str) -> (r: Result<
        (),
        RegistryError,
    >)
        requires
            old(self).wf(),
        ensures
            final(self).wf(),
            match r {
                Ok(()) => {
                    &&& (base32_decoded(secret@) matches Some(b) && b.len() > 0)
                    &&& !has_name(old(self).apps(), name@)
                    &&& final(self).apps() == old(self).apps().push(
                        TOTPView {
                            name: name@,
                            secret: secret@,
                            username: username@,
                            secret_bytes: base32_decoded(secret@).unwrap(),
                        },
                    )
                },
                Err(RegistryError::InvalidSecretEncoding) => {
                    &&& (match base32_decoded(secret@) {
                        Some(b) => b.len() == 0,
                        None => true,
                    })
                    &&& final(self).apps() == old(self).apps()
                },
                Err(RegistryError::DuplicateName) => {
                    &&& (base32_decoded(secret@) matches Some(b) && b.len() > 0)
                    &&& has_name(old(self).apps(), name@)
                    &&& final(self).apps() == old(self).apps()
                },
                _ => false,
            },
    {
        let new_app = match TOTP::new_base32(name, username, secret) {
            Ok(t) => t,
            Err(e) => {
                return Err(e);
            },
        };
        match self.index_of(name) {
            Some(_) => Err(RegistryError::DuplicateName),
            None => {
                proof {
                    lemma_wf_push(self.apps(), new_app@);
                }
                self.applications.push(new_app);
                proof {
                    assert(self.apps() =~= old(self).apps().push(new_app@));
                    assert(new_app@ =~= (TOTPView {
                        name: name@,
                        secret: secret@,
                        username: username@,
                        secret_bytes: base32_decoded(secret@).unwrap(),
                    }));
                }
                Ok(())
            },
        }
    }

    /// Removes the entry carrying the name; absence is the only failure,
    /// and it leaves the registry unchanged.
    pub fn delete_application(&mut self, name: &str) -> (r: Result<(), RegistryError>)
        requires
            old(self).wf(),
        ensures
            final(self).wf(),
            match r {
                Ok(()) => exists|k: int|
                    0 <= k < old(self).apps().len() && (#[trigger] old(self).apps()[k].name)
                        == name@ && final(self).apps() == old(self).apps().remove(k) && !has_name(
                        final(self).apps(),
                        name@,
                    ),
                Err(RegistryError::NotFound) => !has_name(old(self).apps(), name@) && final(self).apps()
                    == old(self).apps(),
                _ => false,
            },
    {
        match self.index_of(name) {
            Some(k) => {
                proof {
                    lemma_wf_remove(self.apps(), k as int);
                    lemma_delete_removes_name(self.apps(), k as int);
                }
                self.applications.remove(k);
                proof {
                    assert(self.apps() =~= old(self).apps().remove(k as int));
                }
                Ok(())
            },
            None => Err(RegistryError::NotFound),
        }
    }

    /// Renames an entry. Since names are the keys, the entry is re-keyed:
    /// lookups find it under the new name afterwards, and a new name that
    /// another entry already carries is refused.
    pub fn rename_application(&mut self, name: &str, newname: &str) -> (r: Result<
        (),
        RegistryError,
    >)
        requires
            old(self).wf(),
        ensures
            final(self).wf(),
            match r {
                Ok(()) => exists|k: int|
                    0 <= k < old(self).apps().len() && (#[trigger] old(self).apps()[k].name)
                        == name@ && final(self).apps() == old(self).apps().update(
                        k,
                        TOTPView { name: newname@, ..old(self).apps()[k] },
                    ),
                Err(RegistryError::NotFound) => !has_name(old(self).apps(), name@) && final(self).apps()
                    == old(self).apps(),
                Err(RegistryError::DuplicateName) => {
                    &&& has_name(old(self).apps(), name@)
                    &&& has_name(old(self).apps(), newname@)
                    &&& name@ != newname@
                    &&& final(self).apps() == old(self).apps()
                },
                _ => false,
            },
    {
        let k = match self.index_of(name) {
            Some(k) => k,
            None => {
                return Err(RegistryError::NotFound);
            },
        };
        if let Some(k2) = self.index_of(newname) {
            if k2 != k {
                proof {
                    assert(self.apps()[k as int].name != self.apps()[k2 as int].name);
                }
                return Err(RegistryError::DuplicateName);
            }
        }
        proof {
            assert forall|j: int|
                0 <= j < self.apps().len() && j != k implies (#[trigger] self.apps()[j].name)
                    != newname@ by {
                if self.apps()[j].name == newname@ {
                    assert(has_name(self.apps(), newname@));
                }
            }
        }
        let mut t = self.applications.remove(k);
        t.set_name(newname);
        self.applications.insert(k, t);
        proof {
            let l = old(self).apps();
            let e = TOTPView { name: newname@, ..l[k as int] };
            lemma_wf_update_name(l, k as int, e);
            assert(self.apps() =~= l.update(k as int, e));
        }
        Ok(())
    }

    /// A read-only view of every entry; an empty registry is reported as
    /// such rather than as an empty listing.
    pub fn get_applications(&self) -> (r: Result<&Vec<TOTP>, RegistryError>)
        ensures
            match r {
                Ok(v) => self.apps().len() > 0 && v.deep_view() == self.apps(),
                Err(e) => e == RegistryError::EmptyRegistry && self.apps().len() == 0,
            },
    {
        if self.applications.len() == 0 {
            Err(RegistryError::EmptyRegistry)
        } else {
            Ok(&self.applications)
        }
    }

    /// The entry carrying the name; absence is the only failure.
    pub fn get_application(&self, name: &str) -> (r: Result<&TOTP, RegistryError>)
        ensures
            match r {
                Ok(t) => t@.name == name@ && exists|k: int|
                    0 <= k < self.apps().len() && #[trigger] self.apps()[k] == t@,
                Err(e) => e == RegistryError::NotFound && !has_name(self.apps(), name@),
            },
    {
        match self.index_of(name) {
            Some(k) => {
                proof {
                    assert(self.apps()[k as int] == self.applications@[k as int]@);
                }
                Ok(&self.applications[k])
            },
            None => Err(RegistryError::NotFound),
        }
    }

    /// Empties the registry unconditionally.
    pub fn delete_all_applications(&mut self)
        ensures
            final(self).wf(),
            final(self).apps() == Seq::<TOTPView>::empty(),
    {
        self.applications = Vec::new();
        proof {
            assert(self.apps() =~= Seq::<TOTPView>::empty());
        }
    }

    /// Hands the full current entry set to the store, which overwrites
    /// whatever it held before.
    pub fn flush(&self)
        requires
            self.wf(),
    {
        self.database.save_applications(&self.applications);
    }
}

} // verus!
