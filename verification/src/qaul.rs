//! The primary context structure: user state, secrets and contacts.
//!
//! Starting an instance creates the empty stores; services are wired to
//! the instance by the host around it.

use vstd::prelude::*;

use crate::store::Identity;
use crate::store::UserStore;

verus! {

/// Handles user tokens and password hashes.
pub struct AuthStore {
    tokens: Vec<(Identity, Vec<u8>)>,
}

impl AuthStore {
    /// How many tokens are held.
    pub closed spec fn count(self) -> nat {
        self.tokens@.len() as nat
    }

    /// An empty authentication store.
    pub fn new() -> (r: Self)
        ensures
            r.count() == 0,
    {
        AuthStore { tokens: Vec::new() }
    }
}

/// The contacts one identity keeps.
pub struct ContactBook {
    pub contacts: Vec<Identity>,
}

/// Primary context structure: user state, secret storage and contacts.
pub struct Qaul {
    pub users: UserStore,
    pub auth: AuthStore,
    pub contacts: Vec<(Identity, ContactBook)>,
}

impl Qaul {
    /// Start an instance: every store empty.
    pub fn start() -> (r: Self)
        ensures
            r.users.wf(),
            forall|id: Seq<u8>| !r.users.has(id),
            r.auth.count() == 0,
            r.contacts@.len() == 0,
    {
        Qaul { users: UserStore::new(), auth: AuthStore::new(), contacts: Vec::new() }
    }
}

} // verus!
