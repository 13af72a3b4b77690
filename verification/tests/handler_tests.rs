use claim_bot::args::ClaimError;
use claim_bot::handler::handle_claim;
use claim_bot::store::UserStore;

#[test]
fn one_claim_creates_the_record_and_responds() {
    let mut store = UserStore::new();
    let msg = handle_claim(&mut store, "100", "alice", "/claim 3,4").unwrap();
    assert_eq!(msg, "**alice** ( **100** ) has claimed /goto 3 4");
    assert_eq!(store.len(), 1);
    let u = store.find_user("100").unwrap();
    assert_eq!(u.id, 1);
    assert_eq!(u.username, "alice");
}

#[test]
fn repeated_claims_reuse_one_record_and_refresh_the_name() {
    let mut store = UserStore::new();
    handle_claim(&mut store, "100", "alice", "/claim 1 2").unwrap();
    let msg = handle_claim(&mut store, "100", "renamed", "/claim 5 6").unwrap();
    assert_eq!(msg, "**renamed** ( **100** ) has claimed /goto 5 6");
    assert_eq!(store.len(), 1);
    assert_eq!(store.find_user("100").unwrap().username, "renamed");
}

#[test]
fn claims_from_two_authors_keep_two_records() {
    let mut store = UserStore::new();
    handle_claim(&mut store, "100", "alice", "/claim 1 2").unwrap();
    handle_claim(&mut store, "200", "bob", "/claim 3 4").unwrap();
    assert_eq!(store.len(), 2);
    assert_eq!(store.find_user("100").unwrap().id, 1);
    assert_eq!(store.find_user("200").unwrap().id, 2);
}

#[test]
fn invalid_arguments_still_reconcile_the_record() {
    let mut store = UserStore::new();
    let err = handle_claim(&mut store, "100", "alice", "/claim abc").unwrap_err();
    assert_eq!(err, ClaimError::InvalidArguments);
    assert_eq!(store.len(), 1);
    assert_eq!(store.find_user("100").unwrap().username, "alice");
}

#[test]
fn markup_in_the_author_name_is_escaped() {
    let mut store = UserStore::new();
    let msg = handle_claim(&mut store, "9", "ev*l", "/claim 1 2").unwrap();
    assert_eq!(msg, "**ev\\*l** ( **9** ) has claimed /goto 1 2");
}
