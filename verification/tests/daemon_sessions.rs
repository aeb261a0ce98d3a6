use ed25519_dalek::{Signer, SigningKey};
use filepipe::config::User;
use filepipe::endpoint::{
    a, gc_keys, hu, ss, AccessKeyStore, Answer, Body, Expirable, SessionStore, ACCESS_KEY_LIFETIME_MS, SESSION_IDLE_MS,
    SESSION_LIFETIME_MS,
};
use filepipe::endpoint::ss::RangeBound::{Included, Unbounded};
use filepipe::filepipe::{Repository, RepositoryAccess, RepositoryAccessAttribute, StreamType};
use std::sync::Arc;

const NOW: i64 = 1_700_000_000_000;

fn access(read: bool, write: bool) -> RepositoryAccess {
    RepositoryAccess {
        info: RepositoryAccessAttribute { read: true, write: false },
        content: RepositoryAccessAttribute { read, write },
    }
}

fn repositories() -> Vec<(String, Arc<Repository>)> {
    vec![
        (
            "docs".to_string(),
            Arc::new(Repository {
                name: "docs".to_string(),
                path: "/srv/docs".to_string(),
                access_list: vec![("ann".to_string(), access(true, true)), ("bob".to_string(), access(true, false))],
            }),
        ),
        (
            "pics".to_string(),
            Arc::new(Repository { name: "pics".to_string(), path: "/srv/pics".to_string(), access_list: vec![] }),
        ),
    ]
}

fn users() -> Vec<(String, User)> {
    vec![
        ("ann".to_string(), User { name: "ann".to_string(), pub_key_path: "ann.pub".to_string() }),
        ("bob".to_string(), User { name: "bob".to_string(), pub_key_path: "bob.pub".to_string() }),
    ]
}

fn error_of(a: &Answer) -> (u16, &str) {
    match &a.body {
        Body::Field { name, value } if name == "error" => (a.status, value.as_str()),
        _ => panic!("expected an error answer"),
    }
}

fn field_of<'a>(a: &'a Answer, field: &str) -> &'a str {
    match &a.body {
        Body::Field { name, value } if name == field => value.as_str(),
        _ => panic!("expected the field {field}"),
    }
}

#[test]
fn upload_session_is_registered_once() {
    let repos = repositories();
    let mut sessions = SessionStore::new();
    let key = sessions.register_upstream_session(&repos, "docs", NOW).ok().unwrap();
    assert_eq!(key.len(), 64);
    assert_eq!(sessions.register_upstream_session(&repos, "docs", NOW), Err(()));
    let (found_key, session) = sessions.find_active_upstream("docs").unwrap();
    assert_eq!(found_key, key);
    assert_eq!(session.stream_type, StreamType::UpStream);
    assert_eq!(session.expire, NOW + SESSION_LIFETIME_MS);
    assert_eq!(session.last_activity, NOW);
    assert!(session.file_list.is_empty());
    assert!(sessions.find_active_upstream("pics").is_none());
    assert!(sessions.register_upstream_session(&repos, "pics", NOW).is_ok());
}

#[test]
fn unknown_repository_gets_no_session() {
    let mut sessions = SessionStore::new();
    assert_eq!(sessions.register_upstream_session(&repositories(), "nope", NOW), Err(()));
}

#[test]
fn session_lookup_by_header() {
    let repos = repositories();
    let mut sessions = SessionStore::new();
    let key = sessions.register_upstream_session(&repos, "docs", NOW).ok().unwrap();
    let (k, s) = sessions.get_session_by_key_in_header_value(Some(&key));
    assert_eq!(k.as_deref(), Some(key.as_str()));
    assert_eq!(s.unwrap().repository.name, "docs");
    let (k, s) = sessions.get_session_by_key_in_header_value(Some("other"));
    assert_eq!(k.as_deref(), Some("other"));
    assert!(s.is_none());
    let (k, s) = sessions.get_session_by_key_in_header_value(None);
    assert!(k.is_none() && s.is_none());
}

#[test]
fn session_expiry() {
    let repos = repositories();
    let mut sessions = SessionStore::new();
    let key = sessions.register_upstream_session(&repos, "docs", NOW).ok().unwrap();
    let s = sessions.get_session_by_key(&key).unwrap();
    assert!(!s.is_expired(NOW + SESSION_IDLE_MS));
    assert!(s.is_expired(NOW + SESSION_IDLE_MS + 1));
    sessions.set_file_list(&key, vec![], NOW + SESSION_LIFETIME_MS - 10);
    let s = sessions.get_session_by_key(&key).unwrap();
    assert!(!s.is_expired(NOW + SESSION_LIFETIME_MS));
    assert!(s.is_expired(NOW + SESSION_LIFETIME_MS + 1));
}

#[test]
fn gc_drops_only_expired_entries() {
    let repos = repositories();
    let mut sessions = SessionStore::new();
    let mut keys = AccessKeyStore::new();
    let old = sessions.register_upstream_session(&repos, "docs", NOW).ok().unwrap();
    let fresh = sessions.register_upstream_session(&repos, "pics", NOW + SESSION_IDLE_MS).ok().unwrap();
    let stale_key = keys.issue_access_key(&users(), "ann", NOW).unwrap();
    let live_key = keys.issue_access_key(&users(), "bob", NOW + 10 * ACCESS_KEY_LIFETIME_MS).unwrap();
    gc_keys(&mut sessions, &mut keys, NOW + SESSION_IDLE_MS + 1);
    assert!(sessions.get_session_by_key(&old).is_none());
    assert!(sessions.get_session_by_key(&fresh).is_some());
    assert!(keys.access_key_user(&stale_key).is_none());
    assert_eq!(keys.access_key_user(&live_key).unwrap().name, "bob");
}

#[test]
fn access_keys_are_for_known_users() {
    let mut keys = AccessKeyStore::new();
    assert!(keys.issue_access_key(&users(), "eve", NOW).is_none());
    let k = keys.issue_access_key(&users(), "ann", NOW).unwrap();
    assert_eq!(k.len(), 16);
    assert_eq!(keys.access_key_user(&k).unwrap().name, "ann");
}

#[test]
fn unsigned_access_key_grants_nothing_and_is_used_up() {
    let mut keys = AccessKeyStore::new();
    let k = keys.issue_access_key(&users(), "ann", NOW).unwrap();
    assert!(keys.authenticate(Some(&k), &repositories(), "docs", NOW).is_none());
    assert!(keys.access_key_user(&k).is_none());
    assert!(keys.authenticate(None, &repositories(), "docs", NOW).is_none());
    assert!(keys.authenticate(Some("unknown"), &repositories(), "docs", NOW).is_none());
}

fn signing(seed: u8) -> SigningKey {
    SigningKey::from_bytes(&[seed; 32])
}

#[test]
fn signature_statuses() {
    let mut keys = AccessKeyStore::new();
    let k = keys.issue_access_key(&users(), "ann", NOW).unwrap();
    let key = signing(5);
    let public = key.verifying_key().to_bytes();
    let signature = key.sign(k.as_bytes()).to_bytes();
    assert_eq!(keys.signature_status(&k, &signature, &public), 200);
    assert_eq!(keys.signature_status("unknown", &signature, &public), 401);
    assert_eq!(keys.signature_status(&k, &signature[..63], &public), 400);
    let wrong = signing(6).sign(k.as_bytes()).to_bytes();
    assert_eq!(keys.signature_status(&k, &wrong, &public), 403);
}

#[test]
fn signed_key_answers() {
    let mut keys = AccessKeyStore::new();
    let k = keys.issue_access_key(&users(), "ann", NOW).unwrap();
    let key = signing(5);
    let public_keys = vec![("ann".to_string(), key.verifying_key().to_bytes())];
    let signature = key.sign(k.as_bytes()).to_bytes();
    assert_eq!(a::put(&keys, &public_keys, Some(Some(&k)), &signature).status, 200);
    assert_eq!(a::put(&keys, &public_keys, None, &signature).status, 401);
    assert_eq!(a::put(&keys, &public_keys, Some(None), &signature).status, 500);
    assert_eq!(a::put(&keys, &public_keys, Some(Some("unknown")), &signature).status, 401);
    assert_eq!(a::put(&keys, &public_keys, Some(Some(&k)), &signature[..10]).status, 400);
    assert_eq!(a::put(&keys, &vec![], Some(Some(&k)), &signature).status, 403);
    let wrong = signing(6).sign(k.as_bytes()).to_bytes();
    assert_eq!(a::put(&keys, &public_keys, Some(Some(&k)), &wrong).status, 403);
    assert!(matches!(a::put(&keys, &public_keys, Some(Some(&k)), &signature).body, Body::Empty));
}

#[test]
fn access_key_request_answers() {
    let mut keys = AccessKeyStore::new();
    let answer = a::post(&mut keys, &users(), "eve", NOW);
    assert_eq!(error_of(&answer), (401, "invalid user"));
    let answer = a::post(&mut keys, &users(), "ann", NOW);
    assert_eq!(answer.status, 200);
    let k = field_of(&answer, "accessKey");
    assert_eq!(k.len(), 16);
    assert_eq!(keys.access_key_user(k).unwrap().name, "ann");
}

#[test]
fn upload_request_needs_valid_access_key() {
    let mut sessions = SessionStore::new();
    let mut keys = AccessKeyStore::new();
    let answer = hu::post(&mut sessions, &mut keys, &repositories(), None, "docs", NOW);
    assert_eq!(error_of(&answer), (401, "invalid repository or invalid or missing access key"));
    let k = keys.issue_access_key(&users(), "ann", NOW).unwrap();
    let answer = hu::post(&mut sessions, &mut keys, &repositories(), Some(&k), "docs", NOW);
    assert_eq!(error_of(&answer), (401, "invalid repository or invalid or missing access key"));
    assert!(keys.access_key_user(&k).is_none());
    assert!(sessions.find_active_upstream("docs").is_none());
}

#[test]
fn unpack_errors_become_answers() {
    let e = filepipe::filepipe::unpack_repository_files_info("a:1:h;b:x:h").err().unwrap();
    let answer = hu::unpack_error_answer(&e);
    assert_eq!(
        error_of(&answer),
        (400, "invalid second element for size in bytes, and unsigned number is expected, index: 1")
    );
    let e = filepipe::filepipe::unpack_repository_files_info("a:1:h;b;c").err().unwrap();
    assert_eq!(error_of(&hu::unpack_error_answer(&e)), (400, "expected second element for size in bytes, index: 1"));
    let e = filepipe::filepipe::unpack_repository_files_info("a:1").err().unwrap();
    assert_eq!(error_of(&hu::unpack_error_answer(&e)), (400, "expected third element for hash, index: 0"));
    let e = filepipe::filepipe::UnpackError {
        index: 12,
        tuple_position: 2,
        error_kind: filepipe::filepipe::ErrorKind::InvalidRange,
    };
    assert_eq!(error_of(&hu::unpack_error_answer(&e)), (500, "unknown, index: 12"));
    let e = filepipe::filepipe::UnpackError {
        index: 3,
        tuple_position: 0,
        error_kind: filepipe::filepipe::ErrorKind::InvalidType,
    };
    assert_eq!(error_of(&hu::unpack_error_answer(&e)), (500, "unknown, index: 3"));
}

#[test]
fn listing_is_recorded_for_upload_session() {
    let repos = repositories();
    let mut sessions = SessionStore::new();
    let key = sessions.register_upstream_session(&repos, "docs", NOW).ok().unwrap();
    let payload = hu::PutReq { files: "a/x.txt:12:h1;/empty:0:h2;b:3:h3".to_string() };
    let plan = hu::put(&mut sessions, Some(Some(&key)), &payload, NOW + 5).ok().unwrap();
    assert_eq!(plan.repository_path, "/srv/docs");
    assert_eq!(plan.files.len(), 2);
    assert_eq!(plan.files[0].dir, "/srv/docs/.fp/utmp/a");
    assert_eq!(plan.files[0].path, "/srv/docs/.fp/utmp/a/x.txt");
    assert_eq!(plan.files[0].label, "docs/a/x.txt");
    assert_eq!(plan.files[0].size, 12);
    assert_eq!(plan.files[1].path, "/srv/docs/.fp/utmp//b");
    let s = sessions.get_session_by_key(&key).unwrap();
    assert_eq!(s.file_list.len(), 3);
    assert_eq!(s.last_activity, NOW + 5);
}

#[test]
fn listing_refusals() {
    let repos = repositories();
    let mut sessions = SessionStore::new();
    let key = sessions.register_upstream_session(&repos, "docs", NOW).ok().unwrap();
    let payload = hu::PutReq { files: "a:1:h".to_string() };
    let r = hu::put(&mut sessions, None, &payload, NOW).err().unwrap();
    assert_eq!(error_of(&r), (401, "invalid or missing session key"));
    let r = hu::put(&mut sessions, Some(None), &payload, NOW).err().unwrap();
    assert_eq!(error_of(&r), (401, "invalid or missing session key"));
    let r = hu::put(&mut sessions, Some(Some("nope")), &payload, NOW).err().unwrap();
    assert_eq!(error_of(&r), (401, "invalid or missing session key"));
    let r = hu::put(&mut sessions, Some(Some(&key)), &payload, NOW + SESSION_IDLE_MS + 1).err().unwrap();
    assert_eq!(error_of(&r), (410, "session expired"));
    let bad = hu::PutReq { files: "a:x:h".to_string() };
    let r = hu::put(&mut sessions, Some(Some(&key)), &bad, NOW).err().unwrap();
    assert_eq!(error_of(&r).0, 400);
    assert!(sessions.get_session_by_key(&key).unwrap().file_list.is_empty());
}

#[test]
fn failure_answers() {
    assert_eq!(error_of(&hu::listing_failure()), (500, "failed to fetch server files"));
    assert_eq!(error_of(&hu::create_failure("docs/a/b")), (500, "failed to create utmp file: docs/a/b"));
    assert_eq!(
        error_of(&hu::allocation_failure("docs/a/b", "disk full")),
        (500, "failed to allocate bytes to the disk for utmp file: docs/a/b: disk full")
    );
    assert_eq!(error_of(&ss::not_found()), (404, "resource not found"));
    assert_eq!(error_of(&ss::read_failure()), (500, "failed to access file in read mode"));
}

#[test]
fn download_needs_download_session_of_repository() {
    let repos = repositories();
    let mut sessions = SessionStore::new();
    let key = sessions.register_upstream_session(&repos, "docs", NOW).ok().unwrap();
    let r = ss::get(&sessions, Some(Some(&key)), "docs", "a.txt").err().unwrap();
    assert_eq!(error_of(&r), (403, "invalid stream type"));
    let r = ss::get(&sessions, Some(Some("nope")), "docs", "a.txt").err().unwrap();
    assert_eq!(error_of(&r), (401, "invalid or missing session key"));
    let r = ss::get(&sessions, None, "docs", "a.txt").err().unwrap();
    assert_eq!(error_of(&r), (401, "invalid or missing session key"));
}

#[test]
fn byte_ranges() {
    let r = ss::range_reply(None, 10).ok().unwrap();
    assert_eq!((r.begin, r.len, r.status, r.content_range.as_str()), (0, 10, 200, "bytes 0-9/10"));
    let range = Some(Some((ss::RangeBound::Included(2), ss::RangeBound::Included(5))));
    let r = ss::range_reply(range, 10).ok().unwrap();
    assert_eq!((r.begin, r.len, r.status, r.content_range.as_str()), (2, 4, 206, "bytes 2-5/10"));
    let range = Some(Some((ss::RangeBound::Included(7), ss::RangeBound::Unbounded)));
    let r = ss::range_reply(range, 10).ok().unwrap();
    assert_eq!((r.begin, r.len, r.content_range.as_str()), (7, 3, "bytes 7-9/10"));
    let range = Some(Some((ss::RangeBound::Unbounded, ss::RangeBound::Included(4))));
    let r = ss::range_reply(range, 10).ok().unwrap();
    assert_eq!((r.begin, r.len), (6, 4));
    let range = Some(Some((ss::RangeBound::Unbounded, ss::RangeBound::Included(40))));
    let r = ss::range_reply(range, 10).ok().unwrap();
    assert_eq!((r.begin, r.len), (0, 10));
    let r = ss::range_reply(Some(None), 10).err().unwrap();
    assert_eq!(error_of(&r), (416, "invalid range"));
    let range = Some(Some((ss::RangeBound::Excluded(1), ss::RangeBound::Included(4))));
    assert_eq!(ss::range_reply(range, 10).err().unwrap().status, 416);
}

#[test]
fn ranges_that_cannot_be_served() {
    assert!(!ss::is_range_computable(None, 0));
    assert!(ss::is_range_computable(None, 1));
    let backwards = Some(Some((ss::RangeBound::Included(5), ss::RangeBound::Included(2))));
    assert!(!ss::is_range_computable(backwards, 10));
    let past_end = Some(Some((ss::RangeBound::Included(10), ss::RangeBound::Unbounded)));
    assert!(!ss::is_range_computable(past_end, 10));
    let everything = Some(Some((ss::RangeBound::Included(0), ss::RangeBound::Included(u64::MAX))));
    assert!(!ss::is_range_computable(everything, 10));
    assert!(ss::is_range_computable(Some(None), 0));
}

#[test]
fn range_header_first_satisfiable_range() {
    assert_eq!(ss::first_range(None, 10), None);
    assert_eq!(ss::first_range(Some("bytes=2-5"), 10), Some(Some((Included(2), Included(5)))));
    assert_eq!(ss::first_range(Some("bytes=3-"), 10), Some(Some((Included(3), Unbounded))));
    assert_eq!(ss::first_range(Some("bytes=-4"), 10), Some(Some((Included(6), Unbounded))));
    assert_eq!(ss::first_range(Some("bytes=-40"), 10), Some(None));
    assert_eq!(ss::first_range(Some("bytes=x-1, 4-5"), 10), Some(Some((Included(4), Included(5)))));
    assert_eq!(ss::first_range(Some("items=0-1"), 10), Some(None));
    let r = ss::range_reply(ss::first_range(Some("bytes=-4"), 10), 10).ok().unwrap();
    assert_eq!((r.begin, r.len, r.status, r.content_range.as_str()), (6, 4, 206, "bytes 6-9/10"));
}
