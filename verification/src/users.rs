//! User profiles and the updates that can be applied to them

use vstd::prelude::*;
use crate::assoc::{assoc_map, keys_unique, lemma_assoc_dom, lemma_assoc_push, lemma_assoc_remove, lemma_assoc_update};
use crate::identity::Identity;

verus! {

/// The public profile of a user.
pub struct UserData {
    /// A human-friendly name
    pub display_name: Option<String>,
    /// The user's real name
    pub real_name: Option<String>,
    /// Free-form profile lines, one value per key
    pub bio: Vec<(String, String)>,
    /// The services the user takes part in, each once
    pub services: Vec<String>,
    /// Avatar image data
    pub avatar: Option<Vec<u8>>,
}

/// A user: an identity and its profile.
pub struct User {
    pub id: Identity,
    pub data: UserData,
}

/// One change to a profile.
pub enum UserUpdate {
    DisplayName(Option<String>),
    RealName(Option<String>),
    SetBioLine(String, String),
    RemoveBioLine(String),
    AddService(String),
    RemoveService(String),
    AvatarData(Option<Vec<u8>>),
}

/// A profile as plain values.
pub ghost struct UserDataView {
    pub display_name: Option<Seq<char>>,
    pub real_name: Option<Seq<char>>,
    pub bio: Map<Seq<char>, Seq<char>>,
    pub services: Set<Seq<char>>,
    pub avatar: Option<Seq<u8>>,
}

/// A user as plain values.
pub ghost struct UserView {
    pub id: Identity,
    pub data: UserDataView,
}

pub open spec fn opt_str_view(s: Option<String>) -> Option<Seq<char>> {
    match s {
        Some(s) => Some(s@),
        None => None,
    }
}

pub open spec fn opt_bytes_view(s: Option<Vec<u8>>) -> Option<Seq<u8>> {
    match s {
        Some(s) => Some(s@),
        None => None,
    }
}

pub open spec fn bio_pairs(s: Seq<(String, String)>) -> Seq<(Seq<char>, Seq<char>)> {
    s.map_values(|p: (String, String)| (p.0@, p.1@))
}

pub open spec fn service_names(s: Seq<String>) -> Seq<Seq<char>> {
    s.map_values(|x: String| x@)
}

impl View for UserData {
    type V = UserDataView;

    open spec fn view(&self) -> UserDataView {
        UserDataView {
            display_name: opt_str_view(self.display_name),
            real_name: opt_str_view(self.real_name),
            bio: assoc_map(bio_pairs(self.bio@)),
            services: service_names(self.services@).to_set(),
            avatar: opt_bytes_view(self.avatar),
        }
    }
}

impl View for User {
    type V = UserView;

    open spec fn view(&self) -> UserView {
        UserView { id: self.id, data: self.data@ }
    }
}

/// The profile of a new user: no names, no bio, no services, no avatar.
pub open spec fn empty_profile() -> UserDataView {
    UserDataView {
        display_name: None,
        real_name: None,
        bio: Map::empty(),
        services: Set::empty(),
        avatar: None,
    }
}

impl UserData {
    /// No bio key and no service occurs twice.
    pub open spec fn wf(&self) -> bool {
        &&& keys_unique(bio_pairs(self.bio@))
        &&& service_names(self.services@).no_duplicates()
    }

    /// An empty profile.
    pub fn new() -> (r: UserData)
        ensures
            r.wf(),
            r@ == empty_profile(),
    {
        let r = UserData { display_name: None, real_name: None, bio: Vec::new(), services: Vec::new(), avatar: None };
        assert(bio_pairs(r.bio@) =~= Seq::empty());
        assert(service_names(r.services@) =~= Seq::empty());
        assert(service_names(r.services@).to_set() =~= Set::empty());
        r
    }

    /// A copy of the profile.
    pub fn duplicate(&self) -> (r: UserData)
        requires
            self.wf(),
        ensures
            r.wf(),
            r@ == self@,
    {
        let mut bio: Vec<(String, String)> = Vec::new();
        let mut i: usize = 0;
        while i < self.bio.len()
            invariant
                i <= self.bio@.len(),
                bio_pairs(bio@) == bio_pairs(self.bio@).take(i as int),
            decreases self.bio@.len() - i,
        {
            let ghost before = bio@;
            let k = self.bio[i].0.clone();
            let v = self.bio[i].1.clone();
            assert(k@ == self.bio@[i as int].0@);
            assert(v@ == self.bio@[i as int].1@);
            bio.push((k, v));
            assert(bio_pairs(bio@) =~= bio_pairs(before).push((k@, v@)));
            assert(bio_pairs(self.bio@).take(i + 1) =~= bio_pairs(self.bio@).take(i as int).push((k@, v@)));
            i = i + 1;
        }
        assert(bio_pairs(self.bio@).take(i as int) =~= bio_pairs(self.bio@));
        let mut services: Vec<String> = Vec::new();
        let mut j: usize = 0;
        while j < self.services.len()
            invariant
                j <= self.services@.len(),
                service_names(services@) == service_names(self.services@).take(j as int),
            decreases self.services@.len() - j,
        {
            let ghost before = services@;
            let x = self.services[j].clone();
            assert(x@ == self.services@[j as int]@);
            services.push(x);
            assert(service_names(services@) =~= service_names(before).push(x@));
            assert(service_names(self.services@).take(j + 1) =~= service_names(self.services@).take(j as int).push(x@));
            j = j + 1;
        }
        assert(service_names(self.services@).take(j as int) =~= service_names(self.services@));
        let display_name = match &self.display_name {
            Some(s) => Some(s.clone()),
            None => None,
        };
        let real_name = match &self.real_name {
            Some(s) => Some(s.clone()),
            None => None,
        };
        let avatar = match &self.avatar {
            Some(a) => Some(copy_bytes(a)),
            None => None,
        };
        UserData { display_name, real_name, bio, services, avatar }
    }
}

fn copy_bytes(a: &Vec<u8>) -> (r: Vec<u8>)
    ensures
        r@ == a@,
{
    let mut r: Vec<u8> = Vec::new();
    let mut i: usize = 0;
    while i < a.len()
        invariant
            i <= a@.len(),
            r@ == a@.take(i as int),
        decreases a@.len() - i,
    {
        r.push(a[i]);
        i = i + 1;
        assert(r@ =~= a@.take(i as int));
    }
    assert(a@.take(i as int) =~= a@);
    r
}

/// Position of the pair with the given key, if any.
pub(crate) fn find_key<V>(v: &Vec<(String, V)>, key: &String) -> (r: Option<usize>)
    ensures
        match r {
            Some(i) => i < v@.len() && v@[i as int].0@ == key@,
            None => forall|i: int| 0 <= i < v@.len() ==> v@[i].0@ != key@,
        },
{
    let mut i: usize = 0;
    while i < v.len()
        invariant
            i <= v@.len(),
            forall|k: int| 0 <= k < i ==> v@[k].0@ != key@,
        decreases v@.len() - i,
    {
        if v[i].0 == *key {
            return Some(i);
        }
        i = i + 1;
    }
    None
}

/// Position of the given string, if present.
fn find_name(v: &Vec<String>, name: &String) -> (r: Option<usize>)
    ensures
        match r {
            Some(i) => i < v@.len() && v@[i as int]@ == name@,
            None => forall|i: int| 0 <= i < v@.len() ==> v@[i]@ != name@,
        },
{
    let mut i: usize = 0;
    while i < v.len()
        invariant
            i <= v@.len(),
            forall|k: int| 0 <= k < i ==> v@[k]@ != name@,
        decreases v@.len() - i,
    {
        if v[i] == *name {
            return Some(i);
        }
        i = i + 1;
    }
    None
}

/// What an update makes of a profile.
pub open spec fn apply_spec(u: UserUpdate, d: UserDataView) -> UserDataView {
    match u {
        UserUpdate::DisplayName(n) => UserDataView { display_name: opt_str_view(n), ..d },
        UserUpdate::RealName(n) => UserDataView { real_name: opt_str_view(n), ..d },
        UserUpdate::SetBioLine(k, v) => UserDataView { bio: d.bio.insert(k@, v@), ..d },
        UserUpdate::RemoveBioLine(k) => UserDataView { bio: d.bio.remove(k@), ..d },
        UserUpdate::AddService(s) => UserDataView { services: d.services.insert(s@), ..d },
        UserUpdate::RemoveService(s) => UserDataView { services: d.services.remove(s@), ..d },
        UserUpdate::AvatarData(a) => UserDataView { avatar: opt_bytes_view(a), ..d },
    }
}

impl UserUpdate {
    /// Applies the update to a profile.
    pub fn apply_to(self, data: &mut UserData)
        requires
            old(data).wf(),
        ensures
            final(data).wf(),
            final(data)@ == apply_spec(self, old(data)@),
            self matches UserUpdate::DisplayName(n) ==> final(data)@ == (UserDataView { display_name: opt_str_view(n), ..old(data)@ }),
            self matches UserUpdate::RealName(n) ==> final(data)@ == (UserDataView { real_name: opt_str_view(n), ..old(data)@ }),
            self matches UserUpdate::SetBioLine(k, v) ==> final(data)@ == (UserDataView { bio: old(data)@.bio.insert(k@, v@), ..old(data)@ }),
            self matches UserUpdate::RemoveBioLine(k) ==> final(data)@ == (UserDataView { bio: old(data)@.bio.remove(k@), ..old(data)@ }),
            self matches UserUpdate::AddService(x) ==> final(data)@ == (UserDataView { services: old(data)@.services.insert(x@), ..old(data)@ }),
            self matches UserUpdate::RemoveService(x) ==> final(data)@ == (UserDataView { services: old(data)@.services.remove(x@), ..old(data)@ }),
            self matches UserUpdate::AvatarData(a) ==> final(data)@ == (UserDataView { avatar: opt_bytes_view(a), ..old(data)@ }),
    {
        let ghost d0 = data@;
        match self {
            UserUpdate::DisplayName(n) => {
                data.display_name = n;
            }
            UserUpdate::RealName(n) => {
                data.real_name = n;
            }
            UserUpdate::SetBioLine(k, v) => {
                let ghost s = bio_pairs(data.bio@);
                match find_key(&data.bio, &k) {
                    Some(i) => {
                        let ghost kv = k@;
                        let ghost vv = v@;
                        data.bio.set(i, (k, v));
                        proof {
                            lemma_assoc_update(s, i as int, vv);
                            assert(bio_pairs(data.bio@) =~= s.update(i as int, (s[i as int].0, vv)));
                        }
                    }
                    None => {
                        let ghost kv = k@;
                        let ghost vv = v@;
                        data.bio.push((k, v));
                        proof {
                            lemma_assoc_push(s, kv, vv);
                            assert(bio_pairs(data.bio@) =~= s.push((kv, vv)));
                        }
                    }
                }
            }
            UserUpdate::RemoveBioLine(k) => {
                let ghost s = bio_pairs(data.bio@);
                match find_key(&data.bio, &k) {
                    Some(i) => {
                        data.bio.remove(i);
                        proof {
                            lemma_assoc_remove(s, i as int);
                            assert(bio_pairs(data.bio@) =~= s.remove(i as int));
                        }
                    }
                    None => {
                        proof {
                            lemma_assoc_dom(s, k@);
                            assert(d0.bio.remove(k@) =~= d0.bio);
                        }
                    }
                }
            }
            UserUpdate::AddService(name) => {
                let ghost s = service_names(data.services@);
                match find_name(&data.services, &name) {
                    Some(i) => {
                        proof {
                            assert(s[i as int] == name@);
                            assert(s.to_set().insert(name@) =~= s.to_set());
                        }
                    }
                    None => {
                        let ghost nv = name@;
                        data.services.push(name);
                        proof {
                            assert(service_names(data.services@) =~= s.push(nv));
                            assert forall|x: Seq<char>| #[trigger] s.push(nv).to_set().contains(x) <==> s.to_set().insert(nv).contains(x) by {
                                if s.push(nv).contains(x) && x != nv {
                                    let a = choose|a: int| 0 <= a < s.len() + 1 && s.push(nv)[a] == x;
                                    assert(s[a] == x);
                                }
                                if s.contains(x) {
                                    let a = choose|a: int| 0 <= a < s.len() && s[a] == x;
                                    assert(s.push(nv)[a] == x);
                                }
                                if x == nv {
                                    assert(s.push(nv)[s.len() as int] == x);
                                }
                            }
                            assert(s.push(nv).to_set() =~= s.to_set().insert(nv));
                            assert(s.push(nv).no_duplicates());
                        }
                    }
                }
            }
            UserUpdate::RemoveService(name) => {
                let ghost s = service_names(data.services@);
                match find_name(&data.services, &name) {
                    Some(i) => {
                        data.services.remove(i);
                        proof {
                            let t = s.remove(i as int);
                            assert(service_names(data.services@) =~= t);
                            assert(t.to_set() =~= s.to_set().remove(name@)) by {
                                assert forall|x: Seq<char>| t.to_set().contains(x) <==> s.to_set().remove(name@).contains(x) by {
                                    if t.contains(x) {
                                        let a = choose|a: int| 0 <= a < t.len() && t[a] == x;
                                        let a1 = if a < i { a } else { a + 1 };
                                        assert(s[a1] == x);
                                        assert(a1 != i);
                                        assert(s[i as int] == name@);
                                    }
                                    if x != name@ && s.contains(x) {
                                        let a = choose|a: int| 0 <= a < s.len() && s[a] == x;
                                        let a1 = if a < i { a } else { a - 1 };
                                        assert(t[a1] == x);
                                    }
                                }
                            }
                        }
                    }
                    None => {
                        proof {
                            assert(s.to_set().remove(name@) =~= s.to_set());
                        }
                    }
                }
            }
            UserUpdate::AvatarData(a) => {
                data.avatar = a;
            }
        }
    }
}

impl User {
    /// A user with a fresh random identity and an empty profile.
    pub fn new() -> (r: User)
        ensures
            r.data.wf(),
            r.data@ == empty_profile(),
    {
        User { id: Identity::random(), data: UserData::new() }
    }

    /// A copy of the user.
    pub fn duplicate(&self) -> (r: User)
        requires
            self.data.wf(),
        ensures
            r.data.wf(),
            r@ == self@,
    {
        User { id: self.id, data: self.data.duplicate() }
    }
}

} // verus!

verus! {

/// Setting a bio line and then removing the line with the same key leaves
/// the profile without a line for that key, and the other lines as they
/// were.
pub proof fn lemma_bio_set_then_remove(d: UserDataView, k: String, v: String, k2: String)
    requires
        k2@ == k@,
    ensures
        apply_spec(UserUpdate::RemoveBioLine(k2), apply_spec(UserUpdate::SetBioLine(k, v), d)).bio == d.bio.remove(k@),
{
    assert(d.bio.insert(k@, v@).remove(k@) =~= d.bio.remove(k@));
}

/// Adding a service and then removing it leaves the profile without it.
pub proof fn lemma_service_add_then_remove(d: UserDataView, s: String, s2: String)
    requires
        s2@ == s@,
    ensures
        apply_spec(UserUpdate::RemoveService(s2), apply_spec(UserUpdate::AddService(s), d)).services == d.services.remove(s@),
{
    assert(d.services.insert(s@).remove(s@) =~= d.services.remove(s@));
}

/// Changing the display name leaves the rest of the profile as it was.
pub proof fn lemma_display_name_touches_only_it(d: UserDataView, n: Option<String>)
    ensures
        apply_spec(UserUpdate::DisplayName(n), d).real_name == d.real_name,
        apply_spec(UserUpdate::DisplayName(n), d).bio == d.bio,
        apply_spec(UserUpdate::DisplayName(n), d).services == d.services,
        apply_spec(UserUpdate::DisplayName(n), d).avatar == d.avatar,
        apply_spec(UserUpdate::DisplayName(n), d).display_name == opt_str_view(n),
{
}

} // verus!

verus! {

/// Whatever the profile held before, a real-name update sets the real name
/// to the given one and leaves the rest of the profile as it was.
pub proof fn lemma_real_name_update(d: UserDataView, n: Option<String>)
    ensures
        apply_spec(UserUpdate::RealName(n), d).real_name == opt_str_view(n),
        apply_spec(UserUpdate::RealName(n), d).display_name == d.display_name,
        apply_spec(UserUpdate::RealName(n), d).bio == d.bio,
        apply_spec(UserUpdate::RealName(n), d).services == d.services,
        apply_spec(UserUpdate::RealName(n), d).avatar == d.avatar,
{
}

/// Whatever the profile held before, an avatar update sets the avatar to
/// the given data and leaves the rest of the profile as it was.
pub proof fn lemma_avatar_update(d: UserDataView, a: Option<Vec<u8>>)
    ensures
        apply_spec(UserUpdate::AvatarData(a), d).avatar == opt_bytes_view(a),
        apply_spec(UserUpdate::AvatarData(a), d).display_name == d.display_name,
        apply_spec(UserUpdate::AvatarData(a), d).real_name == d.real_name,
        apply_spec(UserUpdate::AvatarData(a), d).bio == d.bio,
        apply_spec(UserUpdate::AvatarData(a), d).services == d.services,
{
}

} // verus!
