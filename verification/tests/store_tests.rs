use claim_bot::store::{StoreError, UserStore};

#[test]
fn create_then_find() {
    let mut store = UserStore::new();
    let created = store.create_user("100", "alice").unwrap();
    assert_eq!(created.id, 1);
    assert_eq!(created.discord_id, "100");
    assert_eq!(created.username, "alice");
    let found = store.find_user("100").unwrap();
    assert_eq!(found.id, 1);
    assert_eq!(found.discord_id, "100");
    assert_eq!(found.username, "alice");
}

#[test]
fn find_missing_is_not_found() {
    let store = UserStore::new();
    assert_eq!(store.find_user("100").unwrap_err(), StoreError::NotFound);
}

#[test]
fn create_duplicate_is_refused() {
    let mut store = UserStore::new();
    store.create_user("100", "alice").unwrap();
    let err = store.create_user("100", "bob").unwrap_err();
    assert_eq!(err, StoreError::ConstraintViolation);
    assert_eq!(store.len(), 1);
}

#[test]
fn ids_are_serial() {
    let mut store = UserStore::new();
    assert_eq!(store.create_user("100", "alice").unwrap().id, 1);
    assert_eq!(store.create_user("200", "bob").unwrap().id, 2);
    assert_eq!(store.create_user("300", "carol").unwrap().id, 3);
}

#[test]
fn find_or_create_twice_reuses_the_id() {
    let mut store = UserStore::new();
    let first = store.find_or_create_user("100", "alice");
    let second = store.find_or_create_user("100", "renamed");
    assert_eq!(first.id, second.id);
    assert_eq!(store.len(), 1);
    // The display name is not refreshed by find-or-create itself.
    assert_eq!(second.username, "alice");
}

#[test]
fn repeated_find_or_create_leaves_one_row() {
    let mut store = UserStore::new();
    for i in 0..10 {
        let name = format!("name{}", i);
        let u = store.find_or_create_user("777", &name);
        assert_eq!(u.id, 1);
    }
    assert_eq!(store.len(), 1);
}

#[test]
fn update_then_lookup_by_new_platform_id() {
    let mut store = UserStore::new();
    let u = store.create_user("100", "alice").unwrap();
    let updated = store.update_user(u.id, "200", "newname").unwrap();
    assert_eq!(updated.id, u.id);
    let found = store.find_user("200").unwrap();
    assert_eq!(found.username, "newname");
    assert_eq!(found.id, u.id);
    assert_eq!(store.find_user("100").unwrap_err(), StoreError::NotFound);
}

#[test]
fn update_missing_id_is_not_found() {
    let mut store = UserStore::new();
    store.create_user("100", "alice").unwrap();
    assert_eq!(
        store.update_user(2, "200", "bob").unwrap_err(),
        StoreError::NotFound
    );
    assert_eq!(
        store.update_user(0, "200", "bob").unwrap_err(),
        StoreError::NotFound
    );
}

#[test]
fn update_to_colliding_platform_id_is_refused() {
    let mut store = UserStore::new();
    store.create_user("100", "alice").unwrap();
    let bob = store.create_user("200", "bob").unwrap();
    let err = store.update_user(bob.id, "100", "bob").unwrap_err();
    assert_eq!(err, StoreError::ConstraintViolation);
    // The store is unchanged.
    assert_eq!(store.find_user("200").unwrap().username, "bob");
}

#[test]
fn update_keeping_own_platform_id_is_allowed() {
    let mut store = UserStore::new();
    let u = store.create_user("100", "alice").unwrap();
    let updated = store.update_user(u.id, "100", "alice2").unwrap();
    assert_eq!(updated.username, "alice2");
    assert_eq!(store.find_user("100").unwrap().username, "alice2");
}

#[test]
fn list_users_respects_the_limit() {
    let mut store = UserStore::new();
    store.create_user("100", "alice").unwrap();
    store.create_user("200", "bob").unwrap();
    store.create_user("300", "carol").unwrap();
    let some = store.list_users(2);
    assert_eq!(some.len(), 2);
    assert_eq!(some[0].discord_id, "100");
    assert_eq!(some[1].discord_id, "200");
    let all = store.list_users(5);
    assert_eq!(all.len(), 3);
}
