//! The `libqaul` service API: users, sessions and contacts
//!
//! A `Qaul` instance keeps three tables: the users it knows (local users
//! and contacts alike), the password hash of each local user, and the
//! session keys that are currently valid, each naming the user it was
//! issued to.

use vstd::prelude::*;
use crate::assoc::{assoc_map, keys_unique, lemma_assoc_dom, lemma_assoc_index, lemma_assoc_push, lemma_assoc_remove, lemma_assoc_update};
use crate::identity::Identity;
use crate::users::{User, UserData, UserUpdate, UserView, apply_spec, empty_profile, find_key};

verus! {

/// Service API errors.
#[derive(Clone, Copy, Debug, PartialEq, Eq, Structural)]
pub enum QaulError {
    /// Not authorised to perform this action
    NotAuthorised,
    /// The desired user was not known
    UnknownUser,
    /// Invalid search query
    InvalidQuery,
    /// Invalid payload (probably too big)
    InvalidPayload,
    /// A function callback timed out
    CallbackTimeout,
}

/// Results of the service API.
pub type QaulResult<T> = Result<T, QaulError>;

/// A user as a caller presents it: with a session key, or by identity alone.
#[derive(Debug)]
pub enum UserAuth {
    Trusted(Identity, String),
    Untrusted(Identity),
}

/// How far the signature of a message can be trusted.
#[derive(Clone, Copy, Debug, PartialEq, Eq, Structural)]
pub enum SigTrust {
    Trusted,
    Unverified,
    Invalid,
}

/// A message as services see it.
pub struct Message {
    pub sender: Identity,
    pub recipient: Identity,
    pub associator: String,
    pub payload: Vec<u8>,
    pub sign: SigTrust,
}

impl UserAuth {
    /// The identity and key of a trusted user; an untrusted one is not
    /// authorised.
    pub fn trusted(self) -> (r: QaulResult<(Identity, String)>)
        ensures
            match self {
                UserAuth::Trusted(id, key) => r matches Ok((i, k)) && i == id && k@ == key@,
                UserAuth::Untrusted(_) => r == Err::<(Identity, String), QaulError>(QaulError::NotAuthorised),
            },
    {
        match self {
            UserAuth::Trusted(id, key) => Ok((id, key)),
            UserAuth::Untrusted(_) => Err(QaulError::NotAuthorised),
        }
    }

    /// The identity, trusted or not.
    pub fn identity(self) -> (r: Identity)
        ensures
            r == auth_identity(self),
    {
        match self {
            UserAuth::Trusted(id, _) => id,
            UserAuth::Untrusted(id) => id,
        }
    }
}

pub open spec fn auth_identity(u: UserAuth) -> Identity {
    match u {
        UserAuth::Trusted(id, _) => id,
        UserAuth::Untrusted(id) => id,
    }
}

/// A service that receives the messages addressed to it.
pub trait Service {
    fn receive_message(&self, message: Message);
}

/// A service with a name of its own.
pub trait ServiceName: Service {
    fn name() -> String;
}

/// A service that answers other services.
pub trait InterserviceMessenger: Service {
    type Input;
    type Output;

    fn receive_ism(&self, message: Self::Input) -> Self::Output;
}

/// The text that `base64::encode_config` gives for the bytes with the
/// URL-safe alphabet (with padding).
pub uninterp spec fn base64_url_safe(bytes: Seq<u8>) -> Seq<char>;

/// What `bcrypt::verify` gives for a password and a hash: `Some(b)` for
/// `Ok(b)`, `None` for an error.
pub uninterp spec fn bcrypt_verify_outcome(password: Seq<char>, hash: Seq<char>) -> Option<bool>;

/// The error type of `bcrypt`.
#[verifier::external_type_specification]
#[verifier::external_body]
pub struct ExBcryptError(bcrypt::BcryptError);

/// Trusted: `base64::encode_config(bytes, base64::URL_SAFE)`. Its result is
/// named, not stated; the contract also claims that the encoding is
/// one-to-one (no other bytes give the same text), as Base64 decoding
/// gives the bytes back. The call panics only when the length of the output
/// overflows `usize`, which the bound on the input rules out.
#[verifier::external_body]
fn encode_url_safe(bytes: &Vec<u8>) -> (r: String)
    requires
        bytes@.len() <= usize::MAX / 2,
    ensures
        r@ == base64_url_safe(bytes@),
        forall|b: Seq<u8>| #[trigger] base64_url_safe(b) == r@ ==> b == bytes@,
{
    base64::encode_config(bytes, base64::URL_SAFE)
}

/// Trusted: `rand::Rng::fill` on `rand::thread_rng()` over the whole
/// buffer. Only that the length stays is promised; the bytes are chance.
#[verifier::external_body]
fn fill_random(buf: &mut Vec<u8>)
    ensures
        final(buf)@.len() == old(buf)@.len(),
{
    rand::Rng::fill(&mut rand::thread_rng(), &mut buf[..]);
}

/// Trusted: `bcrypt::hash(password, bcrypt::DEFAULT_COST)`. The hash rests
/// on a random salt, so the hash itself is not named; the contract claims
/// what the source of `verify` shows for a hash that `hash` made: it never
/// fails on it, whatever the password, and it accepts the password that
/// was hashed. An error comes only from the system's random source.
#[verifier::external_body]
fn bcrypt_hash(password: &str) -> (r: Result<String, bcrypt::BcryptError>)
    ensures
        r matches Ok(h) ==> bcrypt_verify_outcome(password@, h@) == Some(true),
        r matches Ok(h) ==> forall|p: Seq<char>| #[trigger] bcrypt_verify_outcome(p, h@) is Some,
{
    bcrypt::hash(password, bcrypt::DEFAULT_COST)
}

/// Trusted: `bcrypt::verify(password, hash)`, named by
/// `bcrypt_verify_outcome`.
#[verifier::external_body]
fn bcrypt_verify(password: &str, hash: &str) -> (r: Result<bool, bcrypt::BcryptError>)
    ensures
        r is Ok <==> bcrypt_verify_outcome(password@, hash@) is Some,
        r matches Ok(b) ==> bcrypt_verify_outcome(password@, hash@) == Some(b),
{
    bcrypt::verify(password, hash)
}

/// The number of random bytes in a session key.
pub const SESSION_KEY_BYTES: usize = 32;

/// A session key: the URL-safe Base64 text of `SESSION_KEY_BYTES` random
/// bytes.
pub open spec fn is_session_key(key: Seq<char>) -> bool {
    exists|b: Seq<u8>| b.len() == SESSION_KEY_BYTES && key == base64_url_safe(b)
}

/// The bytes of the `t`-th reserve key: zeros, then `t` big-endian.
pub open spec fn reserve_key_bytes(t: u64) -> Seq<u8> {
    Seq::new(24, |i: int| 0u8) + seq![
        ((t >> 56u64) & 0xffu64) as u8,
        ((t >> 48u64) & 0xffu64) as u8,
        ((t >> 40u64) & 0xffu64) as u8,
        ((t >> 32u64) & 0xffu64) as u8,
        ((t >> 24u64) & 0xffu64) as u8,
        ((t >> 16u64) & 0xffu64) as u8,
        ((t >> 8u64) & 0xffu64) as u8,
        (t & 0xffu64) as u8,
    ]
}

proof fn lemma_be_bytes_injective(a: u64, b: u64)
    by (bit_vector)
    requires
        ((a >> 56u64) & 0xffu64) as u8 == ((b >> 56u64) & 0xffu64) as u8,
        ((a >> 48u64) & 0xffu64) as u8 == ((b >> 48u64) & 0xffu64) as u8,
        ((a >> 40u64) & 0xffu64) as u8 == ((b >> 40u64) & 0xffu64) as u8,
        ((a >> 32u64) & 0xffu64) as u8 == ((b >> 32u64) & 0xffu64) as u8,
        ((a >> 24u64) & 0xffu64) as u8 == ((b >> 24u64) & 0xffu64) as u8,
        ((a >> 16u64) & 0xffu64) as u8 == ((b >> 16u64) & 0xffu64) as u8,
        ((a >> 8u64) & 0xffu64) as u8 == ((b >> 8u64) & 0xffu64) as u8,
        (a & 0xffu64) as u8 == (b & 0xffu64) as u8,
    ensures
        a == b,
{
}

/// Distinct reserve numbers give distinct reserve keys.
proof fn lemma_reserve_key_bytes_injective(a: u64, b: u64)
    requires
        reserve_key_bytes(a) == reserve_key_bytes(b),
    ensures
        a == b,
{
    let x = reserve_key_bytes(a);
    let y = reserve_key_bytes(b);
    assert(x[24] == y[24] && x[25] == y[25] && x[26] == y[26] && x[27] == y[27]);
    assert(x[28] == y[28] && x[29] == y[29] && x[30] == y[30] && x[31] == y[31]);
    lemma_be_bytes_injective(a, b);
}

fn reserve_key(t: u64) -> (r: Vec<u8>)
    ensures
        r@ == reserve_key_bytes(t),
{
    let mut r: Vec<u8> = vec![0u8; 24];
    r.push(((t >> 56u64) & 0xffu64) as u8);
    r.push(((t >> 48u64) & 0xffu64) as u8);
    r.push(((t >> 40u64) & 0xffu64) as u8);
    r.push(((t >> 32u64) & 0xffu64) as u8);
    r.push(((t >> 24u64) & 0xffu64) as u8);
    r.push(((t >> 16u64) & 0xffu64) as u8);
    r.push(((t >> 8u64) & 0xffu64) as u8);
    r.push((t & 0xffu64) as u8);
    assert(r@ =~= reserve_key_bytes(t));
    r
}

/// More distinct values than there are places to hold them cannot all be
/// held.
proof fn lemma_pigeonhole<A>(c: Seq<A>, k: Seq<A>)
    requires
        c.no_duplicates(),
        forall|i: int| 0 <= i < c.len() ==> k.contains(#[trigger] c[i]),
    ensures
        c.len() <= k.len(),
{
    c.unique_seq_to_set();
    k.lemma_cardinality_of_set();
    vstd::seq_lib::seq_to_set_is_finite(k);
    assert(c.to_set().subset_of(k.to_set())) by {
        assert forall|x: A| c.to_set().contains(x) implies k.to_set().contains(x) by {
            let i = choose|i: int| 0 <= i < c.len() && c[i] == x;
            assert(k.contains(c[i]));
        }
    }
    vstd::set_lib::lemma_len_subset(c.to_set(), k.to_set());
}

/// Makes a new session key.
fn new_session_key() -> (r: String)
    ensures
        is_session_key(r@),
{
    let mut bytes: Vec<u8> = vec![0u8; SESSION_KEY_BYTES];
    fill_random(&mut bytes);
    let key = encode_url_safe(&bytes);
    assert(bytes@.len() == SESSION_KEY_BYTES && key@ == base64_url_safe(bytes@));
    key
}

} // verus!

verus! {

/// The state of a `libqaul` instance.
pub struct Qaul {
    users: Vec<(Identity, User)>,
    auth: Vec<(Identity, String)>,
    keys: Vec<(String, Identity)>,
}

/// The instance as plain values: the known users, the password hash of
/// each local user, and the identity that each valid session key names.
pub ghost struct QaulView {
    pub users: Map<Identity, UserView>,
    pub auth: Map<Identity, Seq<char>>,
    pub keys: Map<Seq<char>, Identity>,
}

pub open spec fn user_pairs(s: Seq<(Identity, User)>) -> Seq<(Identity, UserView)> {
    s.map_values(|p: (Identity, User)| (p.0, p.1@))
}

pub open spec fn auth_pairs(s: Seq<(Identity, String)>) -> Seq<(Identity, Seq<char>)> {
    s.map_values(|p: (Identity, String)| (p.0, p.1@))
}

pub open spec fn key_pairs(s: Seq<(String, Identity)>) -> Seq<(Seq<char>, Identity)> {
    s.map_values(|p: (String, Identity)| (p.0@, p.1))
}

impl View for Qaul {
    type V = QaulView;

    closed spec fn view(&self) -> QaulView {
        QaulView {
            users: assoc_map(user_pairs(self.users@)),
            auth: assoc_map(auth_pairs(self.auth@)),
            keys: assoc_map(key_pairs(self.keys@)),
        }
    }
}

/// Every known user is filed under its own identity.
pub open spec fn users_filed_by_id(v: QaulView) -> bool {
    forall|x: Identity| #[trigger] v.users.contains_key(x) ==> v.users[x].id == x
}

/// The key is a valid session key of the user.
pub open spec fn session_valid(v: QaulView, id: Identity, key: Seq<char>) -> bool {
    v.keys.contains_key(key) && v.keys[key] == id
}

/// The user is presented with a valid session key, and its identity is
/// that of a known user.
pub open spec fn authenticated(v: QaulView, user: UserAuth) -> bool {
    match user {
        UserAuth::Trusted(id, key) => session_valid(v, id, key@) && v.users.contains_key(id),
        UserAuth::Untrusted(_) => false,
    }
}

/// Position of the pair with the given identity, if any.
fn find_id<V>(v: &Vec<(Identity, V)>, id: Identity) -> (r: Option<usize>)
    ensures
        match r {
            Some(i) => i < v@.len() && v@[i as int].0 == id,
            None => forall|i: int| 0 <= i < v@.len() ==> v@[i].0 != id,
        },
{
    let mut i: usize = 0;
    while i < v.len()
        invariant
            i <= v@.len(),
            forall|k: int| 0 <= k < i ==> v@[k].0 != id,
        decreases v@.len() - i,
    {
        if v[i].0 == id {
            return Some(i);
        }
        i = i + 1;
    }
    None
}

impl Qaul {
    /// No identity or key occurs twice in a table, every user is filed
    /// under its own identity with a well-formed profile, and
    /// `bcrypt::verify` does not fail on any stored hash.
    pub closed spec fn wf(&self) -> bool {
        &&& keys_unique(user_pairs(self.users@))
        &&& keys_unique(auth_pairs(self.auth@))
        &&& keys_unique(key_pairs(self.keys@))
        &&& forall|i: int| 0 <= i < self.users@.len() ==> (#[trigger] self.users@[i]).1.data.wf()
            && self.users@[i].1.id == self.users@[i].0
        &&& forall|i: int, p: Seq<char>| 0 <= i < self.auth@.len() ==> #[trigger] bcrypt_verify_outcome(p, self.auth@[i].1@) is Some
    }

    proof fn lemma_filed(&self)
        requires
            self.wf(),
        ensures
            users_filed_by_id(self@),
    {
        let s = user_pairs(self.users@);
        assert forall|x: Identity| #[trigger] self@.users.contains_key(x) implies self@.users[x].id == x by {
            lemma_assoc_dom(s, x);
            let i = choose|i: int| 0 <= i < s.len() && s[i].0 == x;
            lemma_assoc_index(s, i);
            assert(self.users@[i].1.id == self.users@[i].0);
        }
    }

    /// An instance that knows no users and no sessions.
    pub fn new() -> (r: Qaul)
        ensures
            r.wf(),
            r@.users == Map::<Identity, UserView>::empty(),
            r@.auth == Map::<Identity, Seq<char>>::empty(),
            r@.keys == Map::<Seq<char>, Identity>::empty(),
    {
        let r = Qaul { users: Vec::new(), auth: Vec::new(), keys: Vec::new() };
        assert(user_pairs(r.users@) =~= Seq::empty());
        assert(auth_pairs(r.auth@) =~= Seq::empty());
        assert(key_pairs(r.keys@) =~= Seq::empty());
        r
    }

    /// Whether the identity names a known user or a stored password hash.
    fn identity_taken(&self, id: Identity) -> (r: bool)
        requires
            self.wf(),
        ensures
            r == (self@.users.contains_key(id) || self@.auth.contains_key(id)),
    {
        let ghost us = user_pairs(self.users@);
        let ghost au = auth_pairs(self.auth@);
        proof {
            lemma_assoc_dom(us, id);
            lemma_assoc_dom(au, id);
        }
        let a = match find_id(&self.users, id) {
            Some(i) => {
                assert(us[i as int].0 == id);
                true
            }
            None => false,
        };
        let b = match find_id(&self.auth, id) {
            Some(i) => {
                assert(au[i as int].0 == id);
                true
            }
            None => false,
        };
        a || b
    }

    /// Whether the key is a valid session key.
    fn key_taken(&self, key: &String) -> (r: bool)
        requires
            self.wf(),
        ensures
            r == self@.keys.contains_key(key@),
    {
        let ghost ks = key_pairs(self.keys@);
        proof {
            lemma_assoc_dom(ks, key@);
        }
        match find_key(&self.keys, key) {
            Some(i) => {
                assert(ks[i as int].0 == key@);
                true
            }
            None => false,
        }
    }

    /// An identity that names no known user and no stored hash: a random
    /// one, or, should that one be taken, the first free one among more
    /// reserve identities than there are taken ones.
    fn fresh_identity(&self) -> (r: Identity)
        requires
            self.wf(),
        ensures
            !self@.users.contains_key(r),
            !self@.auth.contains_key(r),
    {
        let id = Identity::random();
        if !self.identity_taken(id) {
            return id;
        }
        let bound: u128 = self.users.len() as u128 + self.auth.len() as u128;
        let mut t: u128 = 0;
        while t <= bound
            invariant
                self.wf(),
                bound == self.users@.len() + self.auth@.len(),
                bound < u128::MAX,
                t <= bound + 1,
                forall|x: u128| x < t ==> #[trigger] self@.users.contains_key(Identity { id: x })
                    || self@.auth.contains_key(Identity { id: x }),
            decreases bound + 1 - t,
        {
            let c = Identity::from_u128(t);
            if !self.identity_taken(c) {
                return c;
            }
            t = t + 1;
        }
        proof {
            let us = user_pairs(self.users@);
            let au = auth_pairs(self.auth@);
            let k = us.map_values(|p: (Identity, UserView)| p.0) + au.map_values(|p: (Identity, Seq<char>)| p.0);
            let c = Seq::new((bound + 1) as nat, |x: int| Identity { id: x as u128 });
            assert forall|i: int| 0 <= i < c.len() implies k.contains(#[trigger] c[i]) by {
                let x = i as u128;
                assert(c[i] == Identity { id: x });
                assert(x < t);
                if self@.users.contains_key(c[i]) {
                    lemma_assoc_dom(us, c[i]);
                    let j = choose|j: int| 0 <= j < us.len() && us[j].0 == c[i];
                    assert(k[j] == c[i]);
                } else {
                    lemma_assoc_dom(au, c[i]);
                    let j = choose|j: int| 0 <= j < au.len() && au[j].0 == c[i];
                    assert(k[us.len() + j] == c[i]);
                }
            }
            assert(c.no_duplicates());
            lemma_pigeonhole(c, k);
        }
        id
    }

    /// A session key that is not a valid session key yet: a random one, or,
    /// should that one be taken, the first free one among more reserve keys
    /// than there are taken ones.
    fn fresh_session_key(&self) -> (r: String)
        requires
            self.wf(),
        ensures
            is_session_key(r@),
            !self@.keys.contains_key(r@),
    {
        let key = new_session_key();
        if !self.key_taken(&key) {
            return key;
        }
        let bound: u128 = self.keys.len() as u128;
        let mut t: u128 = 0;
        while t <= bound
            invariant
                self.wf(),
                bound == self.keys@.len(),
                bound <= u64::MAX,
                t <= bound + 1,
                forall|x: u128| x < t ==> #[trigger] self@.keys.contains_key(base64_url_safe(reserve_key_bytes(x as u64))),
                forall|x: u128, b: Seq<u8>|
                    #![trigger base64_url_safe(b), base64_url_safe(reserve_key_bytes(x as u64))]
                    x < t && base64_url_safe(b) == base64_url_safe(reserve_key_bytes(x as u64))
                    ==> b == reserve_key_bytes(x as u64),
            decreases bound + 1 - t,
        {
            let bytes = reserve_key(t as u64);
            let c = encode_url_safe(&bytes);
            if !self.key_taken(&c) {
                assert(bytes@.len() == SESSION_KEY_BYTES && c@ == base64_url_safe(bytes@));
                return c;
            }
            t = t + 1;
        }
        proof {
            let ks = key_pairs(self.keys@);
            let k = ks.map_values(|p: (Seq<char>, Identity)| p.0);
            let c = Seq::new((bound + 1) as nat, |x: int| base64_url_safe(reserve_key_bytes(x as u64)));
            assert forall|i: int| 0 <= i < c.len() implies k.contains(#[trigger] c[i]) by {
                let x = i as u128;
                assert(x < t);
                assert(self@.keys.contains_key(base64_url_safe(reserve_key_bytes(x as u64))));
                lemma_assoc_dom(ks, c[i]);
                let j = choose|j: int| 0 <= j < ks.len() && ks[j].0 == c[i];
                assert(k[j] == c[i]);
            }
            assert forall|a: int, b: int| 0 <= a < c.len() && 0 <= b < c.len() && a != b implies c[a] != c[b] by {
                if c[a] == c[b] {
                    let xa = a as u128;
                    let xb = b as u128;
                    assert(xa < t && xb < t);
                    assert(base64_url_safe(reserve_key_bytes(xa as u64)) == base64_url_safe(reserve_key_bytes(xb as u64)));
                    lemma_reserve_key_bytes_injective(xa as u64, xb as u64);
                }
            }
            lemma_pigeonhole(c, k);
        }
        key
    }

    /// Inserts or replaces the user with the given identity.
    fn put_user(&mut self, id: Identity, user: User)
        requires
            old(self).wf(),
            user.data.wf(),
            user.id == id,
        ensures
            final(self).wf(),
            final(self)@ == (QaulView { users: old(self)@.users.insert(id, user@), ..old(self)@ }),
    {
        let ghost s = user_pairs(self.users@);
        let ghost uv = user@;
        match find_id(&self.users, id) {
            Some(i) => {
                self.users.set(i, (id, user));
                proof {
                    lemma_assoc_update(s, i as int, uv);
                    assert(user_pairs(self.users@) =~= s.update(i as int, (s[i as int].0, uv)));
                }
            }
            None => {
                self.users.push((id, user));
                proof {
                    lemma_assoc_push(s, id, uv);
                    assert(user_pairs(self.users@) =~= s.push((id, uv)));
                }
            }
        }
    }

    /// Inserts or replaces the password hash of the given identity.
    fn put_auth(&mut self, id: Identity, hash: String)
        requires
            old(self).wf(),
            forall|p: Seq<char>| #[trigger] bcrypt_verify_outcome(p, hash@) is Some,
        ensures
            final(self).wf(),
            final(self)@ == (QaulView { auth: old(self)@.auth.insert(id, hash@), ..old(self)@ }),
    {
        let ghost s = auth_pairs(self.auth@);
        let ghost hv = hash@;
        match find_id(&self.auth, id) {
            Some(i) => {
                self.auth.set(i, (id, hash));
                proof {
                    lemma_assoc_update(s, i as int, hv);
                    assert(auth_pairs(self.auth@) =~= s.update(i as int, (s[i as int].0, hv)));
                }
            }
            None => {
                self.auth.push((id, hash));
                proof {
                    lemma_assoc_push(s, id, hv);
                    assert(auth_pairs(self.auth@) =~= s.push((id, hv)));
                }
            }
        }
    }

    /// Makes the key a session key of the given identity.
    fn put_key(&mut self, key: String, id: Identity)
        requires
            old(self).wf(),
        ensures
            final(self).wf(),
            final(self)@ == (QaulView { keys: old(self)@.keys.insert(key@, id), ..old(self)@ }),
    {
        let ghost s = key_pairs(self.keys@);
        let ghost kv = key@;
        match find_key(&self.keys, &key) {
            Some(i) => {
                self.keys.set(i, (key, id));
                proof {
                    lemma_assoc_update(s, i as int, id);
                    assert(key_pairs(self.keys@) =~= s.update(i as int, (s[i as int].0, id)));
                }
            }
            None => {
                self.keys.push((key, id));
                proof {
                    lemma_assoc_push(s, kv, id);
                    assert(key_pairs(self.keys@) =~= s.push((kv, id)));
                }
            }
        }
    }

    /// Forgets the user with the given identity, if it is known.
    fn drop_user(&mut self, id: Identity)
        requires
            old(self).wf(),
        ensures
            final(self).wf(),
            final(self)@ == (QaulView { users: old(self)@.users.remove(id), ..old(self)@ }),
    {
        let ghost s = user_pairs(self.users@);
        match find_id(&self.users, id) {
            Some(i) => {
                self.users.remove(i);
                proof {
                    lemma_assoc_remove(s, i as int);
                    assert(user_pairs(self.users@) =~= s.remove(i as int));
                }
            }
            None => {
                proof {
                    lemma_assoc_dom(s, id);
                    assert(assoc_map(s).remove(id) =~= assoc_map(s));
                }
            }
        }
    }

    /// Ends the session with the given key, if there is one.
    fn drop_key(&mut self, key: &String)
        requires
            old(self).wf(),
        ensures
            final(self).wf(),
            final(self)@ == (QaulView { keys: old(self)@.keys.remove(key@), ..old(self)@ }),
    {
        let ghost s = key_pairs(self.keys@);
        match find_key(&self.keys, key) {
            Some(i) => {
                self.keys.remove(i);
                proof {
                    lemma_assoc_remove(s, i as int);
                    assert(key_pairs(self.keys@) =~= s.remove(i as int));
                }
            }
            None => {
                proof {
                    lemma_assoc_dom(s, key@);
                    assert(assoc_map(s).remove(key@) =~= assoc_map(s));
                }
            }
        }
    }

    /// Checks that a `UserAuth` is valid: it is trusted, its identity is a
    /// known user, and its key is a valid key for that user.
    pub fn user_authenticate(&self, user: UserAuth) -> (r: QaulResult<(Identity, String)>)
        requires
            self.wf(),
        ensures
            r is Ok <==> authenticated(self@, user),
            r matches Ok((id, key)) ==> (user matches UserAuth::Trusted(i, k) && id == i && key@ == k@),
            r matches Err(e) ==> e == QaulError::NotAuthorised,
    {
        let (user_id, key) = match user.trusted() {
            Ok(p) => p,
            Err(e) => return Err(e),
        };
        let ghost s = key_pairs(self.keys@);
        match find_key(&self.keys, &key) {
            Some(i) => {
                proof {
                    lemma_assoc_index(s, i as int);
                }
                if self.keys[i].1 != user_id {
                    return Err(QaulError::NotAuthorised);
                }
                let ghost us = user_pairs(self.users@);
                match find_id(&self.users, user_id) {
                    Some(j) => {
                        proof {
                            lemma_assoc_index(us, j as int);
                        }
                        Ok((user_id, key))
                    }
                    None => {
                        proof {
                            lemma_assoc_dom(us, user_id);
                        }
                        Err(QaulError::NotAuthorised)
                    }
                }
            }
            None => {
                proof {
                    lemma_assoc_dom(s, key@);
                }
                Err(QaulError::NotAuthorised)
            }
        }
    }

    /// Creates a new user with a fresh identity, stores the hash of the
    /// passphrase, and opens a session for the user with a fresh key. The
    /// identity names no user and no hash known before, and the key was no
    /// session key before.
    ///
    /// When the passphrase cannot be hashed (the system's random source
    /// failed), nothing changes and the user is not authorised.
    pub fn user_create(&mut self, pw: &str) -> (r: QaulResult<UserAuth>)
        requires
            old(self).wf(),
        ensures
            final(self).wf(),
            r matches Err(e) ==> e == QaulError::NotAuthorised && final(self)@ == old(self)@,
            r matches Ok(a) ==> (a matches UserAuth::Trusted(id, key) && {
                &&& is_session_key(key@)
                &&& !old(self)@.users.contains_key(id)
                &&& !old(self)@.auth.contains_key(id)
                &&& !old(self)@.keys.contains_key(key@)
                &&& final(self)@.users == old(self)@.users.insert(id, UserView { id, data: empty_profile() })
                &&& final(self)@.auth == old(self)@.auth.insert(id, final(self)@.auth[id])
                &&& bcrypt_verify_outcome(pw@, final(self)@.auth[id]) == Some(true)
                &&& final(self)@.keys == old(self)@.keys.insert(key@, id)
            }),
    {
        let id = self.fresh_identity();
        let user = User { id, data: UserData::new() };
        let pass = match bcrypt_hash(pw) {
            Ok(h) => h,
            Err(_) => return Err(QaulError::NotAuthorised),
        };
        self.put_user(id, user);
        self.put_auth(id, pass);
        let key = self.fresh_session_key();
        let k2 = key.clone();
        self.put_key(k2, id);
        Ok(UserAuth::Trusted(id, key))
    }

    /// Adds a user under a given identity and session key. Meant for
    /// tests; the identity and the key must both be new to this instance.
    pub fn user_inject(&mut self, user: UserAuth) -> (r: QaulResult<UserAuth>)
        requires
            old(self).wf(),
            user matches UserAuth::Trusted(id, key) ==> !old(self)@.users.contains_key(id)
                && !old(self)@.keys.contains_key(key@),
        ensures
            final(self).wf(),
            user is Untrusted ==> r == Err::<UserAuth, QaulError>(QaulError::NotAuthorised) && final(self)@ == old(self)@,
            user matches UserAuth::Trusted(id, key) ==> {
                &&& r matches Ok(a) && (a matches UserAuth::Trusted(i, k) && i == id && k@ == key@)
                &&& final(self)@.users == old(self)@.users.insert(id, UserView { id, data: empty_profile() })
                &&& final(self)@.keys == old(self)@.keys.insert(key@, id)
                &&& final(self)@.auth == old(self)@.auth
            },
    {
        let (id, key) = match user.trusted() {
            Ok(p) => p,
            Err(e) => return Err(e),
        };
        let u = User { id, data: UserData::new() };
        self.put_user(id, u);
        let k2 = key.clone();
        self.put_key(k2, id);
        Ok(UserAuth::Trusted(id, key))
    }

    /// Applies an update to the profile of a logged-in user and returns the
    /// updated user.
    pub fn user_update(&mut self, user: UserAuth, update: UserUpdate) -> (r: QaulResult<User>)
        requires
            old(self).wf(),
        ensures
            final(self).wf(),
            !authenticated(old(self)@, user) ==> r == Err::<User, QaulError>(QaulError::NotAuthorised) && final(self)@ == old(self)@,
            authenticated(old(self)@, user) && !old(self)@.users.contains_key(auth_identity(user)) ==>
                r == Err::<User, QaulError>(QaulError::UnknownUser) && final(self)@ == old(self)@,
            authenticated(old(self)@, user) && old(self)@.users.contains_key(auth_identity(user)) ==> {
                let id = auth_identity(user);
                let nu = UserView { id, data: apply_spec(update, old(self)@.users[id].data) };
                &&& r matches Ok(u) && u@ == nu && u.id == id
                &&& final(self)@ == (QaulView { users: old(self)@.users.insert(id, nu), ..old(self)@ })
            },
    {
        let (user_id, _key) = match self.user_authenticate(user) {
            Ok(p) => p,
            Err(e) => return Err(e),
        };
        let ghost s = user_pairs(self.users@);
        match find_id(&self.users, user_id) {
            Some(i) => {
                proof {
                    lemma_assoc_index(s, i as int);
                    assert(self.users@[i as int].1.data.wf());
                }
                let (uid, mut u) = self.users.remove(i);
                proof {
                    lemma_assoc_remove(s, i as int);
                    assert(user_pairs(self.users@) =~= s.remove(i as int));
                }
                update.apply_to(&mut u.data);
                let out = u.duplicate();
                let ghost uv = u@;
                self.users.insert(i, (uid, u));
                proof {
                    let t = s.update(i as int, (s[i as int].0, uv));
                    lemma_assoc_update(s, i as int, uv);
                    assert(user_pairs(self.users@) =~= t);
                    assert forall|k: int| 0 <= k < self.users@.len() implies (#[trigger] self.users@[k]).1.data.wf()
                        && self.users@[k].1.id == self.users@[k].0 by {
                        if k != i {
                            assert(self.users@[k] == old(self).users@[k]);
                        }
                    }
                }
                Ok(out)
            }
            None => {
                proof {
                    lemma_assoc_dom(s, user_id);
                }
                Err(QaulError::UnknownUser)
            }
        }
    }

    /// Gets any user, by the identity that is presented, trusted or not.
    pub fn user_get(&self, user: UserAuth) -> (r: QaulResult<User>)
        requires
            self.wf(),
        ensures
            self@.users.contains_key(auth_identity(user)) ==> (r matches Ok(u) && u@ == self@.users[auth_identity(user)]
                && u.id == auth_identity(user)),
            !self@.users.contains_key(auth_identity(user)) ==> r == Err::<User, QaulError>(QaulError::UnknownUser),
    {
        let user_id = user.identity();
        let ghost s = user_pairs(self.users@);
        match find_id(&self.users, user_id) {
            Some(i) => {
                proof {
                    lemma_assoc_index(s, i as int);
                    assert(self.users@[i as int].1.data.wf());
                }
                Ok(self.users[i].1.duplicate())
            }
            None => {
                proof {
                    lemma_assoc_dom(s, user_id);
                }
                Err(QaulError::UnknownUser)
            }
        }
    }

    /// Deletes the logged-in user. Its sessions and password hash stay.
    pub fn user_delete(&mut self, user: UserAuth) -> (r: QaulResult<()>)
        requires
            old(self).wf(),
        ensures
            final(self).wf(),
            !authenticated(old(self)@, user) ==> r == Err::<(), QaulError>(QaulError::NotAuthorised) && final(self)@ == old(self)@,
            authenticated(old(self)@, user) && !old(self)@.users.contains_key(auth_identity(user)) ==>
                r == Err::<(), QaulError>(QaulError::UnknownUser) && final(self)@ == old(self)@,
            authenticated(old(self)@, user) && old(self)@.users.contains_key(auth_identity(user)) ==>
                r is Ok && final(self)@ == (QaulView { users: old(self)@.users.remove(auth_identity(user)), ..old(self)@ }),
    {
        let (user_id, _key) = match self.user_authenticate(user) {
            Ok(p) => p,
            Err(e) => return Err(e),
        };
        let ghost s = user_pairs(self.users@);
        match find_id(&self.users, user_id) {
            Some(i) => {
                proof {
                    lemma_assoc_index(s, i as int);
                }
                self.drop_user(user_id);
                Ok(())
            }
            None => {
                proof {
                    lemma_assoc_dom(s, user_id);
                }
                Err(QaulError::UnknownUser)
            }
        }
    }

    /// Logs in to an existing local user with its passphrase, opening a new
    /// session with a key that was no session key before.
    pub fn user_login(&mut self, id: Identity, pw: &str) -> (r: QaulResult<UserAuth>)
        requires
            old(self).wf(),
        ensures
            final(self).wf(),
            !old(self)@.auth.contains_key(id) ==> r == Err::<UserAuth, QaulError>(QaulError::UnknownUser) && final(self)@ == old(self)@,
            old(self)@.auth.contains_key(id) && bcrypt_verify_outcome(pw@, old(self)@.auth[id]) != Some(true) ==>
                r == Err::<UserAuth, QaulError>(QaulError::NotAuthorised) && final(self)@ == old(self)@,
            old(self)@.auth.contains_key(id) && bcrypt_verify_outcome(pw@, old(self)@.auth[id]) == Some(true) ==>
                (r matches Ok(a) && (a matches UserAuth::Trusted(i, key) && {
                    &&& i == id
                    &&& is_session_key(key@)
                    &&& !old(self)@.keys.contains_key(key@)
                    &&& final(self)@ == (QaulView { keys: old(self)@.keys.insert(key@, id), ..old(self)@ })
                })),
            old(self)@.auth.contains_key(id) ==> bcrypt_verify_outcome(pw@, old(self)@.auth[id]) is Some,
    {
        let ghost s = auth_pairs(self.auth@);
        let i = match find_id(&self.auth, id) {
            Some(i) => i,
            None => {
                proof {
                    lemma_assoc_dom(s, id);
                }
                return Err(QaulError::UnknownUser);
            }
        };
        proof {
            lemma_assoc_index(s, i as int);
            assert(bcrypt_verify_outcome(pw@, self.auth@[i as int].1@) is Some);
        }
        let ok = match bcrypt_verify(pw, self.auth[i].1.as_str()) {
            Ok(b) => b,
            Err(_) => false,
        };
        if !ok {
            return Err(QaulError::NotAuthorised);
        }
        let key = self.fresh_session_key();
        let k2 = key.clone();
        self.put_key(k2, id);
        Ok(UserAuth::Trusted(id, key))
    }

    /// Ends the session that the user presents.
    pub fn user_logout(&mut self, user: UserAuth) -> (r: QaulResult<()>)
        requires
            old(self).wf(),
        ensures
            final(self).wf(),
            !authenticated(old(self)@, user) ==> r == Err::<(), QaulError>(QaulError::NotAuthorised) && final(self)@ == old(self)@,
            authenticated(old(self)@, user) ==> r is Ok && (user matches UserAuth::Trusted(_, key)
                && final(self)@ == (QaulView { keys: old(self)@.keys.remove(key@), ..old(self)@ })),
    {
        let (_id, key) = match self.user_authenticate(user) {
            Ok(p) => p,
            Err(e) => return Err(e),
        };
        self.drop_key(&key);
        Ok(())
    }

    /// Adds a user to the known users (as a contact), replacing a user with
    /// the same identity. The caller must present a trusted user.
    pub fn contacts_add(&mut self, user: UserAuth, contact: User) -> (r: QaulResult<()>)
        requires
            old(self).wf(),
            contact.data.wf(),
        ensures
            final(self).wf(),
            user is Untrusted ==> r == Err::<(), QaulError>(QaulError::NotAuthorised) && final(self)@ == old(self)@,
            user is Trusted ==> r is Ok && final(self)@ == (QaulView { users: old(self)@.users.insert(contact.id, contact@), ..old(self)@ }),
    {
        let (_my_id, _key) = match user.trusted() {
            Ok(p) => p,
            Err(e) => return Err(e),
        };
        let contact_id = contact.id;
        self.put_user(contact_id, contact);
        Ok(())
    }

    /// All users known to this instance, each once. The caller must present
    /// a trusted user.
    pub fn contacts_get_all(&self, user: UserAuth) -> (r: QaulResult<Vec<User>>)
        requires
            self.wf(),
        ensures
            user is Untrusted ==> r == Err::<Vec<User>, QaulError>(QaulError::NotAuthorised),
            user is Trusted ==> (r matches Ok(v) && {
                &&& forall|i: int| 0 <= i < v@.len() ==> self@.users.contains_key(#[trigger] v@[i].id)
                    && self@.users[v@[i].id] == v@[i]@
                &&& forall|id: Identity| self@.users.contains_key(id) ==> exists|i: int| 0 <= i < v@.len() && #[trigger] v@[i].id == id
                &&& forall|i: int, j: int| 0 <= i < v@.len() && 0 <= j < v@.len() && i != j ==> v@[i].id != v@[j].id
            }),
    {
        match user {
            UserAuth::Untrusted(_) => return Err(QaulError::NotAuthorised),
            UserAuth::Trusted(_, _) => {},
        }
        let ghost s = user_pairs(self.users@);
        let mut out: Vec<User> = Vec::new();
        let mut i: usize = 0;
        while i < self.users.len()
            invariant
                self.wf(),
                s == user_pairs(self.users@),
                i <= self.users@.len(),
                out@.len() == i,
                forall|k: int| 0 <= k < i ==> (#[trigger] out@[k])@ == s[k].1 && out@[k].id == s[k].0,
            decreases self.users@.len() - i,
        {
            proof {
                assert(self.users@[i as int].1.data.wf());
            }
            let u = self.users[i].1.duplicate();
            out.push(u);
            i = i + 1;
        }
        proof {
            assert forall|k: int| 0 <= k < out@.len() implies self@.users.contains_key(#[trigger] out@[k].id)
                && self@.users[out@[k].id] == out@[k]@ by {
                lemma_assoc_index(s, k);
            }
            assert forall|id: Identity| self@.users.contains_key(id) implies exists|k: int| 0 <= k < out@.len() && #[trigger] out@[k].id == id by {
                lemma_assoc_dom(s, id);
                let k = choose|k: int| 0 <= k < s.len() && s[k].0 == id;
                assert(out@[k].id == id);
            }
        }
        Ok(out)
    }

    /// Registers a service with this instance; registration always
    /// succeeds and changes nothing here.
    pub fn service_register(&self, user: UserAuth, service_id: String) -> (r: QaulResult<()>)
        ensures
            r is Ok,
    {
        Ok(())
    }
}

} // verus!

verus! {

/// In every well-formed instance each known user is filed under its own
/// identity.
pub proof fn lemma_users_filed_by_id(q: Qaul)
    requires
        q.wf(),
    ensures
        users_filed_by_id(q@),
{
    q.lemma_filed();
}

/// A key that was just issued to a known user (by `user_create`,
/// `user_inject` or `user_login`) authenticates that user, and only that
/// user.
pub proof fn lemma_issued_key_authenticates(before: QaulView, after: QaulView, id: Identity, key: String, other: Identity)
    requires
        after.keys == before.keys.insert(key@, id),
        after.users.contains_key(id),
    ensures
        authenticated(after, UserAuth::Trusted(id, key)),
        other != id ==> !authenticated(after, UserAuth::Trusted(other, key)),
{
}

/// Once a user is deleted, none of its sessions authenticates it.
pub proof fn lemma_delete_ends_sessions(before: QaulView, after: QaulView, id: Identity, key: String)
    requires
        after.users == before.users.remove(id),
    ensures
        !authenticated(after, UserAuth::Trusted(id, key)),
{
}

/// After a logout the key no longer authenticates anybody, and every other
/// session stays valid.
pub proof fn lemma_logout_ends_only_that_session(
    before: QaulView,
    after: QaulView,
    key: Seq<char>,
    id: Identity,
    other_key: Seq<char>,
    other_id: Identity,
)
    requires
        after.keys == before.keys.remove(key),
    ensures
        !session_valid(after, id, key),
        other_key != key ==> (session_valid(after, other_id, other_key) <==> session_valid(before, other_id, other_key)),
{
}

/// A user created with a passphrase can log in with that passphrase.
pub proof fn lemma_create_then_login(before: QaulView, after: QaulView, id: Identity, hash: Seq<char>, pw: Seq<char>)
    requires
        after.auth == before.auth.insert(id, hash),
        bcrypt_verify_outcome(pw, hash) == Some(true),
    ensures
        after.auth.contains_key(id),
        bcrypt_verify_outcome(pw, after.auth[id]) == Some(true),
{
}

/// A deleted user is unknown afterwards; the other users stay as they were.
pub proof fn lemma_delete_then_get(before: QaulView, after: QaulView, id: Identity, other: Identity)
    requires
        after.users == before.users.remove(id),
    ensures
        !after.users.contains_key(id),
        other != id ==> (after.users.contains_key(other) <==> before.users.contains_key(other)),
        other != id && before.users.contains_key(other) ==> after.users[other] == before.users[other],
{
}

/// Reading a user back after an update or an insertion gives what was
/// written.
pub proof fn lemma_write_then_get(before: QaulView, after: QaulView, id: Identity, u: UserView)
    requires
        after.users == before.users.insert(id, u),
    ensures
        after.users.contains_key(id),
        after.users[id] == u,
{
}

} // verus!

verus! {

/// A creation keeps everything known before: every user with its profile,
/// every password hash, and every session; it adds exactly the new user.
pub proof fn lemma_create_keeps_others(before: QaulView, after: QaulView, id: Identity, key: Seq<char>)
    requires
        !before.users.contains_key(id),
        !before.auth.contains_key(id),
        !before.keys.contains_key(key),
        after.users == before.users.insert(id, UserView { id, data: empty_profile() }),
        after.auth == before.auth.insert(id, after.auth[id]),
        after.keys == before.keys.insert(key, id),
    ensures
        after.users.dom() == before.users.dom().insert(id),
        forall|x: Identity| #[trigger] before.users.contains_key(x) ==> after.users[x] == before.users[x],
        forall|x: Identity| #[trigger] before.auth.contains_key(x) ==> after.auth.contains_key(x) && after.auth[x] == before.auth[x],
        forall|y: Identity, k: Seq<char>| #[trigger] session_valid(before, y, k) ==> session_valid(after, y, k),
        session_valid(after, id, key),
{
    assert(after.users.dom() =~= before.users.dom().insert(id));
    assert forall|x: Identity| #[trigger] before.users.contains_key(x) implies after.users[x] == before.users[x] by {
        assert(x != id);
    }
    assert forall|x: Identity| #[trigger] before.auth.contains_key(x) implies after.auth.contains_key(x) && after.auth[x] == before.auth[x] by {
        assert(x != id);
    }
    assert forall|y: Identity, k: Seq<char>| #[trigger] session_valid(before, y, k) implies session_valid(after, y, k) by {
        assert(k != key);
    }
}

/// Two creations in a row give two distinct users with two distinct keys,
/// and the first user can still log in with its passphrase and use its
/// session after the second is created.
pub proof fn lemma_two_creates(
    v0: QaulView,
    v1: QaulView,
    v2: QaulView,
    pw1: Seq<char>,
    id1: Identity,
    key1: Seq<char>,
    id2: Identity,
    key2: Seq<char>,
)
    requires
        !v0.users.contains_key(id1),
        !v0.auth.contains_key(id1),
        !v0.keys.contains_key(key1),
        v1.users == v0.users.insert(id1, UserView { id: id1, data: empty_profile() }),
        v1.auth == v0.auth.insert(id1, v1.auth[id1]),
        bcrypt_verify_outcome(pw1, v1.auth[id1]) == Some(true),
        v1.keys == v0.keys.insert(key1, id1),
        !v1.users.contains_key(id2),
        !v1.auth.contains_key(id2),
        !v1.keys.contains_key(key2),
        v2.users == v1.users.insert(id2, UserView { id: id2, data: empty_profile() }),
        v2.auth == v1.auth.insert(id2, v2.auth[id2]),
        v2.keys == v1.keys.insert(key2, id2),
    ensures
        id1 != id2,
        key1 != key2,
        v2.users.contains_key(id1) && v2.users.contains_key(id2),
        session_valid(v2, id1, key1),
        session_valid(v2, id2, key2),
        v2.auth.contains_key(id1) && bcrypt_verify_outcome(pw1, v2.auth[id1]) == Some(true),
{
    lemma_create_keeps_others(v1, v2, id2, key2);
}

/// Two logins in a row issue two distinct keys, and every session that
/// was valid before a login, the first login's among them, stays valid.
pub proof fn lemma_two_logins(
    v0: QaulView,
    v1: QaulView,
    v2: QaulView,
    a: Identity,
    ka: Seq<char>,
    b: Identity,
    kb: Seq<char>,
)
    requires
        !v0.keys.contains_key(ka),
        v1 == (QaulView { keys: v0.keys.insert(ka, a), ..v0 }),
        !v1.keys.contains_key(kb),
        v2 == (QaulView { keys: v1.keys.insert(kb, b), ..v1 }),
    ensures
        ka != kb,
        session_valid(v2, a, ka),
        session_valid(v2, b, kb),
        forall|y: Identity, k: Seq<char>| #[trigger] session_valid(v0, y, k) ==> session_valid(v2, y, k),
{
    assert forall|y: Identity, k: Seq<char>| #[trigger] session_valid(v0, y, k) implies session_valid(v2, y, k) by {
        assert(k != ka);
        assert(k != kb);
    }
}

} // verus!
