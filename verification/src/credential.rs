//! Service-account credentials and their consistency check.

use crate::keyset::{has_kid, keyset_wf, merge_view, KeySet, KeyView};
use vstd::prelude::*;

verus! {

/// Mathematical model of a credential.
pub struct CredentialView {
    pub client_email: Seq<u8>,
    pub private_key_id: Seq<u8>,
    pub private_key: Seq<u8>,
    pub keys: Seq<KeyView>,
}

/// Service-account identity material: the account's email identity, its
/// signing key, and the public keys it trusts.
pub struct Credential {
    pub client_email: Vec<u8>,
    pub private_key_id: Vec<u8>,
    pub private_key: Vec<u8>,
    pub keys: KeySet,
}

impl View for Credential {
    type V = CredentialView;

    open spec fn view(&self) -> CredentialView {
        CredentialView {
            client_email: self.client_email@,
            private_key_id: self.private_key_id@,
            private_key: self.private_key@,
            keys: self.keys@,
        }
    }
}

/// A well-formed declared identity: non-empty and of the name@domain
/// shape.
pub open spec fn identity_wf(email: Seq<u8>) -> bool {
    email.len() > 0 && exists|i: int| 0 <= i < email.len() && email[i] == 0x40
}

/// Which consistency check a credential failed.
#[derive(Clone, Copy, Debug, PartialEq, Eq, Structural)]
pub enum VerificationError {
    /// The declared identity is not well formed.
    Identity,
    /// No attached public key matches the credential's key identifier.
    NoMatchingKey,
    /// The private key material is missing.
    MissingPrivateKey,
}

impl Credential {
    pub open spec fn wf(&self) -> bool {
        keyset_wf(self@.keys)
    }

    /// A credential with no public keys attached yet.
    pub fn new(client_email: Vec<u8>, private_key_id: Vec<u8>, private_key: Vec<u8>) -> (r:
        Credential)
        ensures
            r.wf(),
            r@.client_email == client_email@,
            r@.private_key_id == private_key_id@,
            r@.private_key == private_key@,
            r@.keys == Seq::<KeyView>::empty(),
    {
        Credential { client_email, private_key_id, private_key, keys: KeySet::new() }
    }

    /// Attaches public keys: they are merged over the keys already held,
    /// a later entry winning on an identifier collision.
    pub fn add_public_keys(&mut self, keys: &KeySet)
        requires
            old(self).wf(),
            keys.wf(),
        ensures
            final(self).wf(),
            final(self)@.keys == merge_view(old(self)@.keys, keys@),
            final(self)@.client_email == old(self)@.client_email,
            final(self)@.private_key_id == old(self)@.private_key_id,
            final(self)@.private_key == old(self)@.private_key,
    {
        let merged = self.keys.merge(keys);
        self.keys = merged;
    }

    /// Whether the declared identity is well formed.
    fn identity_ok(&self) -> (r: bool)
        ensures
            r == identity_wf(self@.client_email),
    {
        if self.client_email.len() == 0 {
            return false;
        }
        let n = self.client_email.len();
        let mut j: usize = 0;
        while j < n
            invariant
                j <= n,
                n == self.client_email@.len() > 0,
                forall|t: int| 0 <= t < j ==> self.client_email@[t] != 0x40,
            decreases n - j,
        {
            if self.client_email[j] == 0x40 {
                return true;
            }
            j += 1;
        }
        false
    }

    /// The consistency check: the identity must be well formed, an
    /// attached key must match the credential's key identifier, and the
    /// private key material must be present. The first violated check
    /// names itself; in particular a credential with an empty private
    /// key never verifies, whatever keys are attached.
    pub fn verify(&self) -> (r: Result<(), VerificationError>)
        ensures
            r is Ok <==> identity_wf(self@.client_email) && has_kid(
                self@.keys,
                self@.private_key_id,
            ) && self@.private_key.len() > 0,
            r == Err::<(), VerificationError>(VerificationError::Identity) <==> !identity_wf(
                self@.client_email,
            ),
            r == Err::<(), VerificationError>(VerificationError::NoMatchingKey) <==> identity_wf(
                self@.client_email,
            ) && !has_kid(self@.keys, self@.private_key_id),
            r == Err::<(), VerificationError>(VerificationError::MissingPrivateKey) <==>
                identity_wf(self@.client_email) && has_kid(self@.keys, self@.private_key_id)
                && self@.private_key.len() == 0,
            self@.private_key.len() == 0 ==> r is Err,
    {
        if !self.identity_ok() {
            return Err(VerificationError::Identity);
        }
        if !self.keys.contains_kid(&self.private_key_id) {
            return Err(VerificationError::NoMatchingKey);
        }
        if self.private_key.len() == 0 {
            return Err(VerificationError::MissingPrivateKey);
        }
        Ok(())
    }
}

} // verus!
