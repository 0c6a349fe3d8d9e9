//! Store for user profiles: local and remote users keyed by identity.

use vstd::prelude::*;

use crate::peers::bytes_eq;

verus! {

/// A node or user identity: an opaque byte string.
pub struct Identity(pub Vec<u8>);

/// A user profile as the store keeps it.
pub struct UserProfile {
    pub id: Identity,
    pub display_name: Vec<u8>,
    pub real_name: Vec<u8>,
}

/// A user as the store files it: under this node, or known remotely.
pub enum User {
    Local(UserProfile),
    Remote(UserProfile),
}

/// The store's failure report.
#[derive(Debug)]
pub enum StoreError {
    UnknownUser,
}

impl User {
    /// The identity a user is filed under.
    pub fn id(&self) -> (r: &Identity)
        ensures
            r.0@ == user_id_view(self),
    {
        match self {
            User::Local(u) => &u.id,
            User::Remote(u) => &u.id,
        }
    }
}

/// The identity bytes of a user value.
pub open spec fn user_id_view(u: &User) -> Seq<u8> {
    match u {
        User::Local(p) => p.id.0@,
        User::Remote(p) => p.id.0@,
    }
}

/// The profile of a user value.
pub open spec fn user_profile_of(u: User) -> UserProfile {
    match u {
        User::Local(p) => p,
        User::Remote(p) => p,
    }
}

/// Whether a user is filed as local.
pub open spec fn user_is_local(u: User) -> bool {
    u is Local
}

/// User store tracking local and remote users, keyed by identity; the key
/// under which a user is filed never changes, and keys are unique.
pub struct UserStore {
    inner: Vec<(Identity, User)>,
}

pub open spec fn store_has(s: Seq<(Identity, User)>, id: Seq<u8>) -> bool
    decreases s.len(),
{
    if s.len() == 0 {
        false
    } else if s[0].0.0@ == id {
        true
    } else {
        store_has(s.drop_first(), id)
    }
}

pub open spec fn store_user(s: Seq<(Identity, User)>, id: Seq<u8>) -> User
    decreases s.len(),
{
    if s.len() == 0 {
        vstd::pervasive::arbitrary()
    } else if s[0].0.0@ == id {
        s[0].1
    } else {
        store_user(s.drop_first(), id)
    }
}

/// The profiles filed as local, in order.
pub open spec fn local_profiles(s: Seq<(Identity, User)>) -> Seq<UserProfile>
    decreases s.len(),
{
    if s.len() == 0 {
        Seq::empty()
    } else {
        let rest = local_profiles(s.drop_first());
        match s[0].1 {
            User::Local(p) => seq![p] + rest,
            User::Remote(p) => rest,
        }
    }
}

/// The profiles filed as remote, in order.
pub open spec fn remote_profiles(s: Seq<(Identity, User)>) -> Seq<UserProfile>
    decreases s.len(),
{
    if s.len() == 0 {
        Seq::empty()
    } else {
        let rest = remote_profiles(s.drop_first());
        match s[0].1 {
            User::Remote(p) => seq![p] + rest,
            User::Local(p) => rest,
        }
    }
}

/// Copy a profile.
pub fn clone_profile(p: &UserProfile) -> (r: UserProfile)
    ensures
        r.id.0@ == p.id.0@,
        r.display_name@ == p.display_name@,
        r.real_name@ == p.real_name@,
{
    UserProfile {
        id: Identity(crate::proto::clone_bytes(&p.id.0)),
        display_name: crate::proto::clone_bytes(&p.display_name),
        real_name: crate::proto::clone_bytes(&p.real_name),
    }
}

impl UserStore {
    /// Keys are unique.
    pub closed spec fn wf(self) -> bool {
        forall|i: int, k: int|
            0 <= i < k < self.inner@.len() ==> (#[trigger] self.inner@[i]).0.0@ != (
            #[trigger] self.inner@[k]).0.0@
    }

    /// A user is filed under this identity.
    pub closed spec fn has(self, id: Seq<u8>) -> bool {
        store_has(self.inner@, id)
    }

    /// The user filed under this identity.
    pub closed spec fn user_at(self, id: Seq<u8>) -> User {
        store_user(self.inner@, id)
    }

    /// The local profiles, in filing order.
    pub closed spec fn locals(self) -> Seq<UserProfile> {
        local_profiles(self.inner@)
    }

    /// The remote profiles, in filing order.
    pub closed spec fn remotes(self) -> Seq<UserProfile> {
        remote_profiles(self.inner@)
    }

    /// An empty store.
    pub fn new() -> (r: Self)
        ensures
            r.wf(),
            forall|id: Seq<u8>| !r.has(id),
            r.locals() =~= Seq::<UserProfile>::empty(),
            r.remotes() =~= Seq::<UserProfile>::empty(),
    {
        UserStore { inner: Vec::new() }
    }

    /// Find the index filed under an identity.
    fn find_index(&self, id: &Vec<u8>) -> (r: Option<usize>)
        ensures
            match r {
                Some(i) => i < self.inner@.len() && self.inner@[i as int].0.0@ == id@ && (forall|
                    q: int,
                |
                    0 <= q < i ==> (#[trigger] self.inner@[q]).0.0@ != id@) && self.has(id@),
                None => !self.has(id@),
            },
    {
        let n = self.inner.len();
        let mut i: usize = 0;
        while i < n
            invariant_except_break
                i <= n,
                n == self.inner@.len(),
                forall|q: int| 0 <= q < i ==> (#[trigger] self.inner@[q]).0.0@ != id@,
            ensures
                i <= n,
                n == self.inner@.len(),
                forall|q: int| 0 <= q < i ==> (#[trigger] self.inner@[q]).0.0@ != id@,
                i < n ==> self.inner@[i as int].0.0@ == id@,
            decreases n - i,
        {
            if bytes_eq(&self.inner[i].0.0, id) {
                break;
            }
            i = i + 1;
        }
        if i < n {
            proof {
                lemma_store_at(self.inner@, i as int, id@);
            }
            Some(i)
        } else {
            proof {
                lemma_store_absent(self.inner@, id@);
            }
            None
        }
    }

    /// File a user under its own identity; an earlier user under the same
    /// identity is replaced.
    pub fn add_user(&mut self, user: User)
        requires
            old(self).wf(),
        ensures
            final(self).wf(),
            final(self).has(user_id_view(&user)),
            final(self).user_at(user_id_view(&user)) == user,
            forall|id: Seq<u8>|
                id != user_id_view(&user) ==> #[trigger] final(self).has(id) == old(self).has(id),
            forall|id: Seq<u8>|
                id != user_id_view(&user) && final(self).has(id) ==> #[trigger] final(self).user_at(id) == old(self).user_at(id),
    {
        let key = match &user {
            User::Local(u) => crate::proto::clone_bytes(&u.id.0),
            User::Remote(u) => crate::proto::clone_bytes(&u.id.0),
        };
        match self.find_index(&key) {
            Some(i) => {
                let ghost s = self.inner@;
                self.inner.remove(i);
                proof {
                    assert forall|k: Seq<u8>| true implies {
                        &&& !store_has(s.remove(i as int), key@)
                        &&& (k != key@ ==> #[trigger] store_has(s.remove(i as int), k)
                            == store_has(s, k))
                        &&& (k != key@ && store_has(s, k) ==> store_user(s.remove(i as int), k)
                            == store_user(s, k))
                    } by {
                        lemma_store_remove(s, i as int, key@, k);
                    }
                    assert forall|p: int, q: int|
                        0 <= p < q < self.inner@.len() implies (#[trigger] self.inner@[p]).0.0@
                        != (#[trigger] self.inner@[q]).0.0@ by {
                        let pp: int = if p < i { p } else { p + 1 };
                        let qq: int = if q < i { q } else { q + 1 };
                        assert(self.inner@[p] == s[pp]);
                        assert(self.inner@[q] == s[qq]);
                    }
                }
            },
            None => {},
        }
        let ghost s2 = self.inner@;
        let ghost kv = key@;
        let ghost user_copy = user;
        proof {
            assert(kv == user_id_view(&user));
            assert(!store_has(s2, kv));
            assert forall|id: Seq<u8>| true implies {
                &&& #[trigger] store_has(s2.push((Identity(key), user_copy)), id) == (store_has(
                    s2,
                    id,
                ) || id == kv)
                &&& store_user(s2.push((Identity(key), user_copy)), id) == (if store_has(
                    s2,
                    id,
                ) {
                    store_user(s2, id)
                } else if id == kv {
                    user_copy
                } else {
                    store_user(s2, id)
                })
            } by {
                lemma_store_push(s2, Identity(key), user_copy, id);
            }
        }
        self.inner.push((Identity(key), user));
        proof {
            assert(self.inner@ == s2.push((Identity(key), user_copy)));
            assert(store_has(s2.push((Identity(key), user_copy)), kv));
            assert(self.user_at(kv) == user_copy);
            assert forall|p: int, q: int|
                0 <= p < q < self.inner@.len() implies (#[trigger] self.inner@[p]).0.0@ != (
            #[trigger] self.inner@[q]).0.0@ by {
                if q == self.inner@.len() - 1 {
                    assert(self.inner@[p] == s2[p]);
                    if s2[p].0.0@ == kv {
                        lemma_store_present(s2, p);
                        assert(false);
                    }
                } else {
                    assert(self.inner@[p] == s2[p]);
                    assert(self.inner@[q] == s2[q]);
                }
            }
        }
    }

    /// Replace the profile of the user filed under an identity with the
    /// modifier's result, keeping the key and the local/remote filing;
    /// report the unknown identity otherwise.
    pub fn modify<F: Fn(UserProfile) -> UserProfile>(&mut self, id: &Identity, modifier: F) -> (r:
        Result<(), StoreError>)
        requires
            old(self).wf(),
            forall|p: UserProfile| #[trigger] modifier.requires((p,)),
        ensures
            final(self).wf(),
            r is Ok <==> old(self).has(id.0@),
            forall|k: Seq<u8>| #[trigger] final(self).has(k) == old(self).has(k),
            forall|k: Seq<u8>|
                k != id.0@ && final(self).has(k) ==> #[trigger] final(self).user_at(k) == old(self).user_at(k),
            r is Ok ==> {
                &&& user_is_local(final(self).user_at(id.0@)) == user_is_local(
                    old(self).user_at(id.0@),
                )
                &&& modifier.ensures(
                    (user_profile_of(old(self).user_at(id.0@)),),
                    user_profile_of(final(self).user_at(id.0@)),
                )
            },
    {
        let i = match self.find_index(&id.0) {
            Some(i) => i,
            None => {
                return Err(StoreError::UnknownUser);
            },
        };
        let ghost s = self.inner@;
        let entry = self.inner.remove(i);
        proof {
            assert forall|k: Seq<u8>| true implies {
                &&& !store_has(s.remove(i as int), id.0@)
                &&& (k != id.0@ ==> #[trigger] store_has(s.remove(i as int), k) == store_has(
                    s,
                    k,
                ))
                &&& (k != id.0@ && store_has(s, k) ==> store_user(s.remove(i as int), k)
                    == store_user(s, k))
            } by {
                lemma_store_remove(s, i as int, id.0@, k);
            }
            assert forall|p: int, q: int|
                0 <= p < q < self.inner@.len() implies (#[trigger] self.inner@[p]).0.0@ != (
            #[trigger] self.inner@[q]).0.0@ by {
                let pp: int = if p < i { p } else { p + 1 };
                let qq: int = if q < i { q } else { q + 1 };
                assert(self.inner@[p] == s[pp]);
                assert(self.inner@[q] == s[qq]);
            }
        }
        let (key, user) = entry;
        let ghost old_user = user;
        let updated = match user {
            User::Local(p) => User::Local(modifier(p)),
            User::Remote(p) => User::Remote(modifier(p)),
        };
        let ghost updated_copy = updated;
        proof {
            assert(old_user == s[i as int].1);
            assert(store_user(s, id.0@) == s[i as int].1) by {
                lemma_store_at(s, i as int, id.0@);
            }
            assert(user_is_local(updated_copy) == user_is_local(old_user));
            assert(modifier.ensures(
                (user_profile_of(old_user),),
                user_profile_of(updated_copy),
            ));
        }
        let ghost s2 = self.inner@;
        proof {
            assert(key.0@ == id.0@);
            assert(!store_has(s2, id.0@));
            assert forall|k: Seq<u8>| true implies {
                &&& #[trigger] store_has(s2.push((key, updated_copy)), k) == (store_has(s2, k)
                    || k == key.0@)
                &&& store_user(s2.push((key, updated_copy)), k) == (if store_has(s2, k) {
                    store_user(s2, k)
                } else if k == key.0@ {
                    updated_copy
                } else {
                    store_user(s2, k)
                })
            } by {
                lemma_store_push(s2, key, updated_copy, k);
            }
        }
        self.inner.push((key, updated));
        proof {
            assert(self.inner@ == s2.push((key, updated_copy)));
            assert(store_has(s2.push((key, updated_copy)), id.0@));
            assert(self.user_at(id.0@) == updated_copy);
            assert forall|p: int, q: int|
                0 <= p < q < self.inner@.len() implies (#[trigger] self.inner@[p]).0.0@ != (
            #[trigger] self.inner@[q]).0.0@ by {
                if q == self.inner@.len() - 1 {
                    assert(self.inner@[p] == s2[p]);
                    if s2[p].0.0@ == id.0@ {
                        lemma_store_present(s2, p);
                        assert(false);
                    }
                } else {
                    assert(self.inner@[p] == s2[p]);
                    assert(self.inner@[q] == s2[q]);
                }
            }
        }
        Ok(())
    }

    /// The profile filed under an identity, or the unknown-user report.
    pub fn get(&self, id: &Identity) -> (r: Result<UserProfile, StoreError>)
        ensures
            match r {
                Ok(p) => self.has(id.0@) && {
                    let q = user_profile_of(self.user_at(id.0@));
                    p.id.0@ == q.id.0@ && p.display_name@ == q.display_name@ && p.real_name@
                        == q.real_name@
                },
                Err(e) => !self.has(id.0@) && e is UnknownUser,
            },
    {
        match self.find_index(&id.0) {
            Some(i) => {
                let p = match &self.inner[i].1 {
                    User::Local(u) => clone_profile(u),
                    User::Remote(u) => clone_profile(u),
                };
                proof {
                    lemma_store_at(self.inner@, i as int, id.0@);
                }
                Ok(p)
            },
            None => Err(StoreError::UnknownUser),
        }
    }

    /// All locally filed profiles, in filing order.
    pub fn get_local(&self) -> (r: Vec<UserProfile>)
        ensures
            r@.len() == self.locals().len(),
            forall|i: int|
                0 <= i < r@.len() ==> {
                    let p = #[trigger] r@[i];
                    let q = self.locals()[i];
                    p.id.0@ == q.id.0@ && p.display_name@ == q.display_name@ && p.real_name@
                        == q.real_name@
                },
    {
        let mut out: Vec<UserProfile> = Vec::new();
        let mut i: usize = 0;
        proof {
            assert(self.inner@.take(0) =~= Seq::<(Identity, User)>::empty());
        }
        while i < self.inner.len()
            invariant
                i <= self.inner@.len(),
                out@.len() == local_profiles(self.inner@.take(i as int)).len(),
                forall|j: int|
                    0 <= j < out@.len() ==> {
                        let p = #[trigger] out@[j];
                        let q = local_profiles(self.inner@.take(i as int))[j];
                        p.id.0@ == q.id.0@ && p.display_name@ == q.display_name@ && p.real_name@
                            == q.real_name@
                    },
            decreases self.inner@.len() - i,
        {
            proof {
                lemma_local_take(self.inner@, i as int);
            }
            match &self.inner[i].1 {
                User::Local(u) => {
                    out.push(clone_profile(u));
                },
                User::Remote(u) => {},
            }
            i = i + 1;
        }
        proof {
            assert(self.inner@.take(self.inner@.len() as int) =~= self.inner@);
        }
        out
    }

    /// All remotely filed profiles, in filing order.
    pub fn get_remote(&self) -> (r: Vec<UserProfile>)
        ensures
            r@.len() == self.remotes().len(),
            forall|i: int|
                0 <= i < r@.len() ==> {
                    let p = #[trigger] r@[i];
                    let q = self.remotes()[i];
                    p.id.0@ == q.id.0@ && p.display_name@ == q.display_name@ && p.real_name@
                        == q.real_name@
                },
    {
        let mut out: Vec<UserProfile> = Vec::new();
        let mut i: usize = 0;
        proof {
            assert(self.inner@.take(0) =~= Seq::<(Identity, User)>::empty());
        }
        while i < self.inner.len()
            invariant
                i <= self.inner@.len(),
                out@.len() == remote_profiles(self.inner@.take(i as int)).len(),
                forall|j: int|
                    0 <= j < out@.len() ==> {
                        let p = #[trigger] out@[j];
                        let q = remote_profiles(self.inner@.take(i as int))[j];
                        p.id.0@ == q.id.0@ && p.display_name@ == q.display_name@ && p.real_name@
                            == q.real_name@
                    },
            decreases self.inner@.len() - i,
        {
            proof {
                lemma_remote_take(self.inner@, i as int);
            }
            match &self.inner[i].1 {
                User::Remote(u) => {
                    out.push(clone_profile(u));
                },
                User::Local(u) => {},
            }
            i = i + 1;
        }
        proof {
            assert(self.inner@.take(self.inner@.len() as int) =~= self.inner@);
        }
        out
    }
}

proof fn lemma_store_absent(s: Seq<(Identity, User)>, id: Seq<u8>)
    requires
        forall|q: int| 0 <= q < s.len() ==> (#[trigger] s[q]).0.0@ != id,
    ensures
        !store_has(s, id),
    decreases s.len(),
{
    if s.len() > 0 {
        lemma_store_absent(s.drop_first(), id);
    }
}

proof fn lemma_store_at(s: Seq<(Identity, User)>, i: int, id: Seq<u8>)
    requires
        0 <= i < s.len(),
        s[i].0.0@ == id,
        forall|q: int| 0 <= q < i ==> (#[trigger] s[q]).0.0@ != id,
    ensures
        store_has(s, id),
        store_user(s, id) == s[i].1,
    decreases i,
{
    if i > 0 {
        lemma_store_at(s.drop_first(), i - 1, id);
    }
}

proof fn lemma_store_present(s: Seq<(Identity, User)>, i: int)
    requires
        0 <= i < s.len(),
    ensures
        store_has(s, s[i].0.0@),
    decreases i,
{
    if s[0].0.0@ == s[i].0.0@ {
    } else {
        lemma_store_present(s.drop_first(), i - 1);
        assert(s.drop_first()[i - 1] == s[i]);
    }
}

proof fn lemma_store_remove(s: Seq<(Identity, User)>, i: int, id: Seq<u8>, k: Seq<u8>)
    requires
        0 <= i < s.len(),
        s[i].0.0@ == id,
        forall|q: int| 0 <= q < s.len() && q != i ==> (#[trigger] s[q]).0.0@ != id,
    ensures
        !store_has(s.remove(i), id),
        k != id ==> store_has(s.remove(i), k) == store_has(s, k),
        k != id && store_has(s, k) ==> store_user(s.remove(i), k) == store_user(s, k),
    decreases i,
{
    if i == 0 {
        assert(s.remove(0) =~= s.drop_first());
        assert forall|q: int|
            0 <= q < s.drop_first().len() implies (#[trigger] s.drop_first()[q]).0.0@ != id by {
            assert(s.drop_first()[q] == s[q + 1]);
        }
        lemma_store_absent(s.drop_first(), id);
    } else {
        assert(s.remove(i)[0] == s[0]);
        assert(s.remove(i).drop_first() =~= s.drop_first().remove(i - 1));
        assert forall|q: int|
            0 <= q < s.drop_first().len() && q != i - 1 implies (
        #[trigger] s.drop_first()[q]).0.0@ != id by {
            assert(s.drop_first()[q] == s[q + 1]);
        }
        assert(s.drop_first()[i - 1] == s[i]);
        lemma_store_remove(s.drop_first(), i - 1, id, k);
    }
}

proof fn lemma_store_push(s: Seq<(Identity, User)>, key: Identity, u: User, id: Seq<u8>)
    ensures
        store_has(s.push((key, u)), id) == (store_has(s, id) || id == key.0@),
        store_user(s.push((key, u)), id) == (if store_has(s, id) {
            store_user(s, id)
        } else if id == key.0@ {
            u
        } else {
            store_user(s, id)
        }),
    decreases s.len(),
{
    if s.len() == 0 {
        reveal_with_fuel(store_has, 2);
        reveal_with_fuel(store_user, 2);
        assert(s.push((key, u))[0] == (key, u));
        assert(s.push((key, u)).drop_first() =~= Seq::<(Identity, User)>::empty());
        assert(s =~= Seq::<(Identity, User)>::empty());
    } else {
        assert(s.push((key, u))[0] == s[0]);
        assert(s.push((key, u)).drop_first() =~= s.drop_first().push((key, u)));
        lemma_store_push(s.drop_first(), key, u, id);
    }
}

proof fn lemma_local_take(s: Seq<(Identity, User)>, i: int)
    requires
        0 <= i < s.len(),
    ensures
        local_profiles(s.take(i + 1)) =~= local_profiles(s.take(i)) + (match s[i].1 {
            User::Local(p) => seq![p],
            User::Remote(p) => Seq::<UserProfile>::empty(),
        }),
    decreases i,
{
    if i == 0 {
        reveal_with_fuel(local_profiles, 3);
        assert(s.take(1).drop_first() =~= Seq::<(Identity, User)>::empty());
        assert(s.take(1)[0] == s[0]);
        assert(s.take(0) =~= Seq::<(Identity, User)>::empty());
    } else {
        assert(s.take(i + 1)[0] == s[0]);
        assert(s.take(i + 1).drop_first() =~= s.drop_first().take(i));
        assert(s.take(i)[0] == s[0]);
        assert(s.take(i).drop_first() =~= s.drop_first().take(i - 1));
        lemma_local_take(s.drop_first(), i - 1);
        assert(s.drop_first()[i - 1] == s[i]);
    }
}

proof fn lemma_remote_take(s: Seq<(Identity, User)>, i: int)
    requires
        0 <= i < s.len(),
    ensures
        remote_profiles(s.take(i + 1)) =~= remote_profiles(s.take(i)) + (match s[i].1 {
            User::Remote(p) => seq![p],
            User::Local(p) => Seq::<UserProfile>::empty(),
        }),
    decreases i,
{
    if i == 0 {
        reveal_with_fuel(remote_profiles, 3);
        assert(s.take(1).drop_first() =~= Seq::<(Identity, User)>::empty());
        assert(s.take(1)[0] == s[0]);
        assert(s.take(0) =~= Seq::<(Identity, User)>::empty());
    } else {
        assert(s.take(i + 1)[0] == s[0]);
        assert(s.take(i + 1).drop_first() =~= s.drop_first().take(i));
        assert(s.take(i)[0] == s[0]);
        assert(s.take(i).drop_first() =~= s.drop_first().take(i - 1));
        lemma_remote_take(s.drop_first(), i - 1);
        assert(s.drop_first()[i - 1] == s[i]);
    }
}

} // verus!
