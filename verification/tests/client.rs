use ed25519_dalek::pkcs8::EncodePrivateKey;
use ed25519_dalek::{Signer, SigningKey};
use filepipe::client::caller::{
    access_key_bytes, on_listing_reply, on_session_reply, on_signature_reply, open_stream_url, ChallengeReply,
    ClientState, FileActionCounters, FileActions, ListingReply, SenderError, SessionReply, SignatureReply,
};
use filepipe::client::config::{
    init_config, load_user, select_binding, Binding, BindingChoiceError, BindingValues, Config, ConfigError,
    ConfigValues, DefaultUserValue, User, UserValues,
};
use filepipe::client::stream::{chunk_range_header, chunk_url, source_path, upload_chunks, upload_end_url, CHUNK_SIZE};
use filepipe::config::{ConfigRun, ScriptFailure};
use filepipe::filepipe::{RepositoryFile, StreamType};
use std::sync::Arc;

fn pem_of(seed: u8) -> String {
    SigningKey::from_bytes(&[seed; 32]).to_pkcs8_pem(ssh_key::LineEnding::LF).unwrap().to_string()
}

fn user_values(name: Option<&str>, path: Option<&str>, pem: Option<String>) -> UserValues {
    UserValues { remote_username: name.map(|s| s.to_string()), priv_key_path: path.map(|s| s.to_string()), priv_key_pem: pem }
}

#[test]
fn user_entry_needs_every_field() {
    let n = "me".to_string();
    let e = load_user(&n, &user_values(None, Some("k"), Some(pem_of(1)))).err().unwrap();
    assert!(matches!(e, ConfigError::LuaInvalidUserRemoteUsernameValue { name } if name == "me"));
    let e = load_user(&n, &user_values(Some("ann"), None, Some(pem_of(1)))).err().unwrap();
    assert!(matches!(e, ConfigError::LuaInvalidUserPrivKeyPathValue { name } if name == "me"));
    let e = load_user(&n, &user_values(Some("ann"), Some("k"), None)).err().unwrap();
    assert!(matches!(e, ConfigError::FailedToOpenKeyFile { name } if name == "me"));
    let e = load_user(&n, &user_values(Some("ann"), Some("k"), Some("not a key".to_string()))).err().unwrap();
    assert!(matches!(e, ConfigError::FailedToSerializeSigningKey { name } if name == "me"));
}

#[test]
fn user_entry_reads_private_key() {
    let u = load_user(&"me".to_string(), &user_values(Some("ann"), Some("ann.key"), Some(pem_of(9)))).ok().unwrap();
    assert_eq!(u.remote_username, "ann");
    assert_eq!(u.priv_key_path, "ann.key");
    assert_eq!(u.priv_key, [9u8; 32]);
}

fn binding_values(default_user: Option<DefaultUserValue>) -> BindingValues {
    BindingValues {
        local_path: Some(".".to_string()),
        remote_repository_name: Some("docs".to_string()),
        remote_address: Some("http://host:1".to_string()),
        default_user,
    }
}

#[test]
fn client_configuration_loads_users_then_bindings() {
    let values = ConfigValues {
        users: Some(vec![
            ("main".to_string(), user_values(Some("ann"), Some("a.key"), Some(pem_of(1)))),
            ("broken".to_string(), user_values(None, None, None)),
        ]),
        bindings: Some(vec![
            ("b1".to_string(), binding_values(Some(DefaultUserValue::Name("main".to_string())))),
            ("b2".to_string(), binding_values(Some(DefaultUserValue::Name("broken".to_string())))),
            ("b3".to_string(), binding_values(Some(DefaultUserValue::Table(user_values(Some("zed"), Some("z"), Some(pem_of(2))))))),
            ("b4".to_string(), binding_values(Some(DefaultUserValue::Other))),
            ("b5".to_string(), binding_values(None)),
        ]),
    };
    let config = init_config(&"c".to_string(), ConfigRun::Ran(values)).ok().unwrap();
    assert_eq!(config.users.len(), 1);
    assert_eq!(config.users[0].0, "main");
    let names: Vec<&str> = config.bindings.iter().map(|b| b.0.as_str()).collect();
    assert_eq!(names, vec!["b1", "b3"]);
    assert_eq!(config.bindings[0].1.default_user.remote_username, "ann");
    assert_eq!(config.bindings[1].1.default_user.remote_username, "zed");
    assert_eq!(config.bindings[1].1.remote_repository_name, "docs");
}

#[test]
fn client_configuration_failures() {
    let p = "cfg.lua".to_string();
    let e = init_config(&p, ConfigRun::Unreadable).err().unwrap();
    assert!(matches!(&e[..], [ConfigError::FailedToLoadFileForConfig { path }] if path == "cfg.lua"));
    let e = init_config(&p, ConfigRun::LibsUnavailable).err().unwrap();
    assert!(matches!(&e[..], [ConfigError::FailedToLoadLuaLibs]));
    let e = init_config(&p, ConfigRun::Failed(ScriptFailure::Syntax { message: "x".to_string() })).err().unwrap();
    assert!(matches!(&e[..], [ConfigError::LuaErrorForConfig { message }] if message == "x"));
    let e = init_config(&p, ConfigRun::Failed(ScriptFailure::Runtime { message: "x".to_string() })).err().unwrap();
    assert!(matches!(&e[..], [ConfigError::LuaUnknownErrorForConfig]));
    let e = init_config(&p, ConfigRun::Ran(ConfigValues { users: None, bindings: Some(vec![]) })).err().unwrap();
    assert!(matches!(&e[..], [ConfigError::LuaInvalidUsersValue]));
    let e = init_config(&p, ConfigRun::Ran(ConfigValues { users: Some(vec![]), bindings: None })).err().unwrap();
    assert!(matches!(&e[..], [ConfigError::LuaInvalidBindingsValue]));
}

fn user(name: &str, seed: u8) -> Arc<User> {
    Arc::new(User { remote_username: name.to_string(), priv_key_path: "k".to_string(), priv_key: [seed; 32] })
}

fn binding(default_user: Arc<User>) -> Arc<Binding> {
    Arc::new(Binding {
        local_path: "/home/ann/docs".to_string(),
        remote_address: "http://host:8080".to_string(),
        remote_repository_name: "docs".to_string(),
        default_user,
    })
}

#[test]
fn binding_choice() {
    let one = Config { users: vec![], bindings: vec![("only".to_string(), binding(user("ann", 1)))] };
    assert_eq!(select_binding(&one, None).ok().unwrap().remote_repository_name, "docs");
    assert_eq!(select_binding(&one, Some("only")).ok().unwrap().local_path, "/home/ann/docs");
    assert_eq!(select_binding(&one, Some("other")).err(), Some(BindingChoiceError::NotFound));
    let none = Config { users: vec![], bindings: vec![] };
    assert_eq!(select_binding(&none, None).err(), Some(BindingChoiceError::NotSpecified));
    let two = Config {
        users: vec![],
        bindings: vec![("x".to_string(), binding(user("ann", 1))), ("y".to_string(), binding(user("bob", 2)))],
    };
    assert_eq!(select_binding(&two, None).err(), Some(BindingChoiceError::NotSpecified));
    assert_eq!(BindingChoiceError::NotFound.message(), "specified binding could not be found");
    assert_eq!(BindingChoiceError::NotSpecified.message(), "no binding specified");
}

fn state() -> ClientState {
    let ann = user("ann", 1);
    ClientState {
        config: Config { users: vec![("ann".to_string(), ann.clone()), ("bob".to_string(), user("bob", 2))], bindings: vec![] },
        current_binding: binding(ann),
        session_key: None,
    }
}

fn auth_message(e: SenderError) -> String {
    match e {
        SenderError::FailedToAuthenticate { message: Some(m) } => m,
        other => panic!("unexpected error {other:?}"),
    }
}

#[test]
fn authentication_picks_user() {
    let s = state();
    let (u, url) = s.begin_authentication(None).ok().unwrap();
    assert_eq!(u.remote_username, "ann");
    assert_eq!(url, "http://host:8080/a/ann");
    let (u, url) = s.begin_authentication(Some("bob".to_string())).ok().unwrap();
    assert_eq!(u.remote_username, "bob");
    assert_eq!(url, "http://host:8080/a/bob");
    let e = s.begin_authentication(Some("eve".to_string())).err().unwrap();
    assert!(matches!(e, SenderError::UserDoesNotExist { username } if username == "eve"));
}

#[test]
fn challenge_reply_signs_access_key() {
    let s = state();
    let u = user("ann", 4);
    let c = s.on_challenge_reply(&u, ChallengeReply::Accepted(Some(Some(Some("ABCDEFGH12345678".to_string()))))).ok().unwrap();
    assert_eq!(c.url, "http://host:8080/a");
    assert_eq!(c.access_key, "ABCDEFGH12345678");
    assert_eq!(&c.key_bytes, b"ABCDEFGH12345678");
    let expected = SigningKey::from_bytes(&[4u8; 32]).sign(b"ABCDEFGH12345678").to_bytes();
    assert_eq!(c.signature, expected.to_vec());
}

#[test]
fn challenge_reply_failures() {
    let s = state();
    let u = user("ann", 4);
    let m = |r: ChallengeReply| auth_message(s.on_challenge_reply(&u, r).err().unwrap());
    assert_eq!(m(ChallengeReply::Unreachable), "the client couldn't fetch the post request");
    assert_eq!(m(ChallengeReply::Refused(None)), "an unknown error has occurred during the post request");
    assert_eq!(m(ChallengeReply::Refused(Some(Some(Some("invalid user".to_string()))))), "invalid user");
    let unexplained =
        "an error has occurred during the post request, additionally, the client couldn't extract the error message";
    assert_eq!(m(ChallengeReply::Refused(Some(None))), unexplained);
    assert_eq!(m(ChallengeReply::Refused(Some(Some(None)))), unexplained);
    assert_eq!(m(ChallengeReply::Accepted(None)), "the server sent an invalid response");
    assert_eq!(m(ChallengeReply::Accepted(Some(None))), "the expected key from the server was not provided");
    assert_eq!(m(ChallengeReply::Accepted(Some(Some(None)))), "failed to read the access key sent by the server");
    assert_eq!(
        m(ChallengeReply::Accepted(Some(Some(Some("short".to_string()))))),
        "an error occurred on the client side during the byte conversion for the access key"
    );
}

#[test]
fn access_key_needs_sixteen_bytes() {
    assert_eq!(access_key_bytes("ABCDEFGH12345678"), Some(*b"ABCDEFGH12345678"));
    assert_eq!(access_key_bytes("ABCDEFGH1234567"), None);
    assert_eq!(access_key_bytes("ABCDEFGH12345678X"), None);
    // 15 characters, 16 bytes
    assert_eq!(access_key_bytes("ABCDEFGH123456é").map(|b| b.len()), Some(16));
}

#[test]
fn signature_reply() {
    let k = *b"ABCDEFGH12345678";
    assert_eq!(on_signature_reply(k, SignatureReply::Accepted).ok(), Some(k));
    assert_eq!(auth_message(on_signature_reply(k, SignatureReply::Unreachable).err().unwrap()), "the client couldn't fetch the put request");
    assert_eq!(auth_message(on_signature_reply(k, SignatureReply::Refused).err().unwrap()), "corrupted access key");
    assert_eq!(auth_message(on_signature_reply(k, SignatureReply::Unreadable).err().unwrap()), "corrupted access key");
}

fn stream_message(e: SenderError) -> String {
    match e {
        SenderError::FailedToInitializeStream { message } => message,
        other => panic!("unexpected error {other:?}"),
    }
}

#[test]
fn session_and_listing_replies() {
    assert_eq!(on_session_reply(SessionReply::Accepted(Some("KEY".to_string()))).ok().as_deref(), Some("KEY"));
    assert_eq!(stream_message(on_session_reply(SessionReply::Unreachable).err().unwrap()), "idk1");
    assert_eq!(stream_message(on_session_reply(SessionReply::Refused(Some("busy".to_string()))).err().unwrap()), "busy");
    assert_eq!(stream_message(on_session_reply(SessionReply::Refused(None)).err().unwrap()), "unknown");
    assert_eq!(stream_message(on_session_reply(SessionReply::Accepted(None)).err().unwrap()), "idk2");
    assert_eq!(stream_message(on_listing_reply(ListingReply::Unreachable).err().unwrap()), "idk1");
    assert_eq!(stream_message(on_listing_reply(ListingReply::Refused("no".to_string())).err().unwrap()), "no");
    assert_eq!(stream_message(on_listing_reply(ListingReply::Accepted(None)).err().unwrap()), "idk2");
    assert_eq!(open_stream_url(&binding(user("ann", 1))), "http://host:8080/hu/docs");
}

fn entry(dir: &str, name: &str) -> RepositoryFile {
    RepositoryFile { path_dir: dir.to_string(), name: name.to_string(), size: 5, hash: "h".to_string() }
}

#[test]
fn entries_for_network_use_temporary_names() {
    let mut s = state();
    let actions = FileActions {
        counters: FileActionCounters { moved: 0, copied: 0, network: 2, deleted: 0 },
        transfer: vec!["d/T1.tmp".to_string(), "c".to_string()],
        temps: vec![("d/T1.tmp".to_string(), "d/a".to_string())],
    };
    let entries = vec![entry("d", "a"), entry("", "b"), entry("", "c")];
    let info = s.finish_open_stream(StreamType::UpStream, "SESSION".to_string(), actions, &entries);
    assert_eq!(s.session_key.as_deref(), Some("SESSION"));
    assert_eq!(info.session_key, "SESSION");
    assert_eq!(info.stream_type, StreamType::UpStream);
    let got: Vec<(&str, &str)> =
        info.filtered_entries_for_network.iter().map(|f| (f.path_dir.as_str(), f.name.as_str())).collect();
    assert_eq!(got, vec![("d", "T1.tmp"), ("", "c")]);
}

#[test]
fn chunks_cover_the_file() {
    assert!(upload_chunks(0).is_empty());
    assert_eq!(upload_chunks(1), vec![(0, 1)]);
    assert_eq!(upload_chunks(CHUNK_SIZE), vec![(0, CHUNK_SIZE)]);
    assert_eq!(upload_chunks(CHUNK_SIZE + 1), vec![(0, CHUNK_SIZE), (CHUNK_SIZE, 1)]);
    let size = 3 * CHUNK_SIZE + 17;
    let chunks = upload_chunks(size);
    assert_eq!(chunks.len(), 4);
    let mut next = 0;
    for (offset, len) in &chunks {
        assert_eq!(*offset, next);
        assert!(*len > 0 && *len <= CHUNK_SIZE);
        next = offset + len;
    }
    assert_eq!(next, size);
}

#[test]
fn chunk_requests() {
    assert_eq!(chunk_range_header(0, 262144), "bytes=0-262144");
    assert_eq!(chunk_range_header(262144, 10), "bytes=262144-262154");
    let b = binding(user("ann", 1));
    assert_eq!(chunk_url(&b, &entry("d", "a")), "http://host:8080/ss/docs/d/a");
    assert_eq!(chunk_url(&b, &entry("", "a")), "http://host:8080/ss/docs/a");
    assert_eq!(upload_end_url(&b), "http://host:8080/ss");
    let temps = vec![("d/T1.tmp".to_string(), "d/a".to_string())];
    assert_eq!(source_path("/home", &temps, &entry("d", "T1.tmp")), "/home/d/a");
    assert_eq!(source_path("/home", &temps, &entry("", "c")), "/home/c");
}
