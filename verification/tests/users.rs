use qaul::api::{Qaul, QaulError, UserAuth};
use qaul::identity::Identity;
use qaul::users::{User, UserData, UserUpdate};

fn trusted(id: u128, key: &str) -> UserAuth {
    UserAuth::Trusted(Identity::from_u128(id), key.to_string())
}

#[test]
fn inject_then_get_and_authenticate() {
    let mut q = Qaul::new();
    let auth = q.user_inject(trusted(1, "key-1")).unwrap();
    match auth {
        UserAuth::Trusted(id, key) => {
            assert_eq!(id, Identity::from_u128(1));
            assert_eq!(key, "key-1");
        }
        UserAuth::Untrusted(_) => panic!("expected a trusted user"),
    }
    let u = q.user_get(UserAuth::Untrusted(Identity::from_u128(1))).unwrap();
    assert_eq!(u.id, Identity::from_u128(1));
    assert_eq!(u.data.display_name, None);
    let (id, key) = q.user_authenticate(trusted(1, "key-1")).unwrap();
    assert_eq!(id, Identity::from_u128(1));
    assert_eq!(key, "key-1");
}

#[test]
fn inject_untrusted_is_not_authorised() {
    let mut q = Qaul::new();
    let r = q.user_inject(UserAuth::Untrusted(Identity::from_u128(1)));
    assert!(matches!(r, Err(QaulError::NotAuthorised)));
}

#[test]
fn authenticate_rejects_wrong_key_and_wrong_user() {
    let mut q = Qaul::new();
    q.user_inject(trusted(1, "key-1")).unwrap();
    q.user_inject(trusted(2, "key-2")).unwrap();
    assert_eq!(q.user_authenticate(trusted(1, "key-2")).err(), Some(QaulError::NotAuthorised));
    assert_eq!(q.user_authenticate(trusted(1, "nope")).err(), Some(QaulError::NotAuthorised));
    assert_eq!(q.user_authenticate(UserAuth::Untrusted(Identity::from_u128(1))).err(), Some(QaulError::NotAuthorised));
}

#[test]
fn get_unknown_user() {
    let q = Qaul::new();
    assert!(matches!(q.user_get(trusted(5, "k")), Err(QaulError::UnknownUser)));
}

#[test]
fn update_then_get() {
    let mut q = Qaul::new();
    q.user_inject(trusted(1, "key-1")).unwrap();
    let u = q.user_update(trusted(1, "key-1"), UserUpdate::DisplayName(Some("alice".to_string()))).unwrap();
    assert_eq!(u.data.display_name, Some("alice".to_string()));
    q.user_update(trusted(1, "key-1"), UserUpdate::SetBioLine("city".to_string(), "Berlin".to_string())).unwrap();
    q.user_update(trusted(1, "key-1"), UserUpdate::SetBioLine("city".to_string(), "Vienna".to_string())).unwrap();
    q.user_update(trusted(1, "key-1"), UserUpdate::AddService("chat".to_string())).unwrap();
    q.user_update(trusted(1, "key-1"), UserUpdate::AddService("chat".to_string())).unwrap();
    let g = q.user_get(trusted(1, "key-1")).unwrap();
    assert_eq!(g.data.display_name, Some("alice".to_string()));
    assert_eq!(g.data.bio, vec![("city".to_string(), "Vienna".to_string())]);
    assert_eq!(g.data.services, vec!["chat".to_string()]);
    q.user_update(trusted(1, "key-1"), UserUpdate::RemoveBioLine("city".to_string())).unwrap();
    q.user_update(trusted(1, "key-1"), UserUpdate::RemoveService("chat".to_string())).unwrap();
    q.user_update(trusted(1, "key-1"), UserUpdate::AvatarData(Some(vec![1, 2]))).unwrap();
    q.user_update(trusted(1, "key-1"), UserUpdate::RealName(Some("Alice A.".to_string()))).unwrap();
    let g = q.user_get(trusted(1, "key-1")).unwrap();
    assert!(g.data.bio.is_empty());
    assert!(g.data.services.is_empty());
    assert_eq!(g.data.avatar, Some(vec![1, 2]));
    assert_eq!(g.data.real_name, Some("Alice A.".to_string()));
}

#[test]
fn update_needs_a_session() {
    let mut q = Qaul::new();
    q.user_inject(trusted(1, "key-1")).unwrap();
    let r = q.user_update(trusted(1, "bad"), UserUpdate::DisplayName(None));
    assert!(matches!(r, Err(QaulError::NotAuthorised)));
}

#[test]
fn sessions_of_a_deleted_user_do_not_authenticate() {
    let mut q = Qaul::new();
    q.user_inject(trusted(1, "key-1")).unwrap();
    q.user_delete(trusted(1, "key-1")).unwrap();
    assert_eq!(q.user_authenticate(trusted(1, "key-1")).err(), Some(QaulError::NotAuthorised));
    let r = q.user_update(trusted(1, "key-1"), UserUpdate::DisplayName(None));
    assert!(matches!(r, Err(QaulError::NotAuthorised)));
    assert_eq!(q.user_delete(trusted(1, "key-1")), Err(QaulError::NotAuthorised));
}

#[test]
fn delete_then_get() {
    let mut q = Qaul::new();
    q.user_inject(trusted(1, "key-1")).unwrap();
    q.user_inject(trusted(2, "key-2")).unwrap();
    assert_eq!(q.user_delete(trusted(1, "key-1")), Ok(()));
    assert!(matches!(q.user_get(trusted(1, "key-1")), Err(QaulError::UnknownUser)));
    assert!(q.user_get(trusted(2, "key-2")).is_ok());
    assert_eq!(q.user_delete(trusted(2, "key-1")), Err(QaulError::NotAuthorised));
}

#[test]
fn logout_ends_only_that_session() {
    let mut q = Qaul::new();
    q.user_inject(trusted(1, "key-1")).unwrap();
    q.user_inject(trusted(2, "key-2")).unwrap();
    assert_eq!(q.user_logout(trusted(1, "key-1")), Ok(()));
    assert_eq!(q.user_authenticate(trusted(1, "key-1")).err(), Some(QaulError::NotAuthorised));
    assert!(q.user_authenticate(trusted(2, "key-2")).is_ok());
    assert_eq!(q.user_logout(trusted(1, "key-1")), Err(QaulError::NotAuthorised));
}

#[test]
fn create_then_login() {
    let mut q = Qaul::new();
    let auth = q.user_create("acab").unwrap();
    let (id, key) = match auth {
        UserAuth::Trusted(id, key) => (id, key),
        UserAuth::Untrusted(_) => panic!("expected a trusted user"),
    };
    // a URL-safe Base64 text of 32 bytes, with padding
    assert_eq!(key.len(), 44);
    assert!(key.ends_with('='));
    assert!(key.chars().all(|c| c.is_ascii_alphanumeric() || c == '-' || c == '_' || c == '='));
    assert!(q.user_authenticate(UserAuth::Trusted(id, key.clone())).is_ok());
    let u = q.user_get(UserAuth::Untrusted(id)).unwrap();
    assert_eq!(u.id, id);

    let second = q.user_login(id, "acab").unwrap();
    let key2 = match second {
        UserAuth::Trusted(i, k) => {
            assert_eq!(i, id);
            k
        }
        UserAuth::Untrusted(_) => panic!("expected a trusted user"),
    };
    assert_ne!(key, key2);
    // both sessions are valid
    assert!(q.user_authenticate(UserAuth::Trusted(id, key)).is_ok());
    assert!(q.user_authenticate(UserAuth::Trusted(id, key2)).is_ok());
}

#[test]
fn login_with_wrong_passphrase_or_unknown_user() {
    let mut q = Qaul::new();
    let id = match q.user_create("right").unwrap() {
        UserAuth::Trusted(id, _) => id,
        UserAuth::Untrusted(_) => panic!("expected a trusted user"),
    };
    assert!(matches!(q.user_login(id, "wrong"), Err(QaulError::NotAuthorised)));
    assert!(matches!(q.user_login(Identity::from_u128(42), "right"), Err(QaulError::UnknownUser)));
}

#[test]
fn contacts_add_and_get_all() {
    let mut q = Qaul::new();
    q.user_inject(trusted(1, "key-1")).unwrap();
    let mut data = UserData::new();
    data.display_name = Some("bob".to_string());
    let bob = User { id: Identity::from_u128(2), data };
    assert_eq!(q.contacts_add(trusted(1, "any key"), bob), Ok(()));
    let all = q.contacts_get_all(trusted(1, "key-1")).unwrap();
    assert_eq!(all.len(), 2);
    let b = all.iter().find(|u| u.id == Identity::from_u128(2)).unwrap();
    assert_eq!(b.data.display_name, Some("bob".to_string()));
    assert!(all.iter().any(|u| u.id == Identity::from_u128(1)));

    let carol = User { id: Identity::from_u128(3), data: UserData::new() };
    assert_eq!(q.contacts_add(UserAuth::Untrusted(Identity::from_u128(1)), carol), Err(QaulError::NotAuthorised));
    assert!(matches!(q.contacts_get_all(UserAuth::Untrusted(Identity::from_u128(1))), Err(QaulError::NotAuthorised)));
}

#[test]
fn contacts_add_replaces_same_identity() {
    let mut q = Qaul::new();
    let mut d1 = UserData::new();
    d1.real_name = Some("one".to_string());
    let mut d2 = UserData::new();
    d2.real_name = Some("two".to_string());
    q.contacts_add(trusted(1, "k"), User { id: Identity::from_u128(5), data: d1 }).unwrap();
    q.contacts_add(trusted(1, "k"), User { id: Identity::from_u128(5), data: d2 }).unwrap();
    let all = q.contacts_get_all(trusted(1, "k")).unwrap();
    assert_eq!(all.len(), 1);
    assert_eq!(all[0].data.real_name, Some("two".to_string()));
}

#[test]
fn service_register_succeeds() {
    let q = Qaul::new();
    assert_eq!(q.service_register(trusted(1, "k"), "chat".to_string()), Ok(()));
}

#[test]
fn user_auth_helpers() {
    assert_eq!(trusted(1, "k").identity(), Identity::from_u128(1));
    assert_eq!(UserAuth::Untrusted(Identity::from_u128(2)).identity(), Identity::from_u128(2));
    assert_eq!(trusted(1, "k").trusted(), Ok((Identity::from_u128(1), "k".to_string())));
    assert_eq!(UserAuth::Untrusted(Identity::from_u128(2)).trusted(), Err(QaulError::NotAuthorised));
}
