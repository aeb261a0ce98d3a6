use filepipe::config::{
    complete_config, init_config, load_repositories, load_repository, load_repository_access, AccessValues,
    AttributeValues, ConfigError, ConfigRun, ConfigStage, ConfigValues, RepositoryValues, ScriptFailure, ScriptRun,
    UserValues,
};

fn globals(users: Option<Vec<(String, UserValues)>>, list: Option<&str>) -> ConfigValues {
    ConfigValues {
        users,
        server_address: Some("127.0.0.1".to_string()),
        server_port: Some(8080),
        repository_list: list.map(|s| s.to_string()),
    }
}

fn user_entry(path: Option<&str>) -> UserValues {
    UserValues { pub_key_path: path.map(|s| s.to_string()) }
}

fn failed(stage: ConfigStage) -> Vec<ConfigError> {
    match stage {
        ConfigStage::Failed(es) => es,
        ConfigStage::Pending(_) => panic!("expected a failure"),
    }
}

#[test]
fn unreadable_config_file() {
    let path = "config.lua".to_string();
    assert_eq!(
        failed(init_config(&path, ConfigRun::Unreadable)),
        vec![ConfigError::FailedToLoadFileForConfig { path: "config.lua".to_string() }]
    );
}

#[test]
fn script_failures_of_config() {
    let path = "c".to_string();
    let e = failed(init_config(&path, ConfigRun::Failed(ScriptFailure::Syntax { message: "bad".to_string() })));
    assert_eq!(e, vec![ConfigError::LuaErrorForConfig { message: "bad".to_string() }]);
    let e = failed(init_config(&path, ConfigRun::Failed(ScriptFailure::Runtime { message: "boom".to_string() })));
    assert_eq!(e, vec![ConfigError::LuaUnknownErrorForConfig]);
    let e = failed(init_config(&path, ConfigRun::Failed(ScriptFailure::Other)));
    assert_eq!(e, vec![ConfigError::LuaUnknownErrorForConfig]);
    let e = failed(init_config(&path, ConfigRun::LibsUnavailable));
    assert_eq!(e, vec![ConfigError::FailedToLoadLuaLibs]);
}

#[test]
fn missing_globals() {
    let path = "c".to_string();
    let e = failed(init_config(&path, ConfigRun::Ran(globals(None, Some("r.lua")))));
    assert_eq!(e, vec![ConfigError::FailedToLoadUsers]);
    let mut g = globals(Some(vec![]), Some("r.lua"));
    g.server_address = None;
    assert_eq!(failed(init_config(&path, ConfigRun::Ran(g))), vec![ConfigError::NoAddress]);
    let mut g = globals(Some(vec![]), Some("r.lua"));
    g.server_port = None;
    assert_eq!(failed(init_config(&path, ConfigRun::Ran(g))), vec![ConfigError::NoPort]);
}

#[test]
fn missing_repository_list_keeps_user_errors() {
    let path = "c".to_string();
    let users = vec![("bob".to_string(), user_entry(None))];
    let e = failed(init_config(&path, ConfigRun::Ran(globals(Some(users), None))));
    assert_eq!(e, vec![ConfigError::InvalidUserPubKeyPath { name: "bob".to_string() }, ConfigError::NoRepositoryList]);
}

fn repository(path: Option<&str>, access: Option<Vec<(String, AccessValues)>>) -> RepositoryValues {
    RepositoryValues { path: path.map(|s| s.to_string()), access_list: access }
}

fn rw(read: Option<bool>, write: Option<bool>) -> Option<AttributeValues> {
    Some(AttributeValues { read, write })
}

#[test]
fn access_defaults_to_nothing() {
    let a = load_repository_access(&"u".to_string(), &AccessValues { info: rw(Some(true), None), content: None });
    assert!(a.info.read && !a.info.write);
    assert!(!a.content.read && !a.content.write);
    let a = load_repository_access(&"u".to_string(), &AccessValues { info: None, content: rw(Some(false), Some(true)) });
    assert!(!a.info.read && !a.info.write && !a.content.read && a.content.write);
}

#[test]
fn repository_needs_a_path() {
    let r = load_repository(&"docs".to_string(), &repository(None, None));
    assert_eq!(r.err(), Some(ConfigError::InvalidRepositoryPath { repository_name: "docs".to_string() }));
    let r = load_repository(&"docs".to_string(), &repository(Some("/srv/docs"), None)).ok().unwrap();
    assert_eq!(r.name, "docs");
    assert_eq!(r.path, "/srv/docs");
    assert!(r.access_list.is_empty());
}

#[test]
fn later_access_entry_replaces_earlier() {
    let entries = vec![
        ("ann".to_string(), AccessValues { info: rw(Some(true), Some(true)), content: None }),
        ("bob".to_string(), AccessValues { info: None, content: None }),
        ("ann".to_string(), AccessValues { info: None, content: rw(Some(true), None) }),
    ];
    let r = load_repository(&"docs".to_string(), &repository(Some("/d"), Some(entries))).ok().unwrap();
    assert_eq!(r.access_list.len(), 2);
    assert_eq!(r.access_list[0].0, "ann");
    assert!(!r.access_list[0].1.info.read && r.access_list[0].1.content.read);
    assert_eq!(r.access_list[1].0, "bob");
}

#[test]
fn repository_list_failures() {
    let path = "list.lua".to_string();
    let mut errors = Vec::new();
    let r = load_repositories(&path, ScriptRun::Unreadable, &mut errors);
    assert_eq!(r.err(), Some(ConfigError::FailedToLoadFileForRepositoryList { path: "list.lua".to_string() }));
    let r = load_repositories(&path, ScriptRun::Failed(ScriptFailure::Runtime { message: "m".to_string() }), &mut errors);
    assert_eq!(r.err(), Some(ConfigError::LuaErrorForRepositoryList { message: "m".to_string() }));
    let r = load_repositories(&path, ScriptRun::Failed(ScriptFailure::Syntax { message: "s".to_string() }), &mut errors);
    assert_eq!(r.err(), Some(ConfigError::LuaErrorForRepositoryList { message: "s".to_string() }));
    let r = load_repositories(&path, ScriptRun::Failed(ScriptFailure::Other), &mut errors);
    assert_eq!(r.err(), Some(ConfigError::LuaUnknownErrorForRepositoryList));
    let r = load_repositories(&path, ScriptRun::Ran(None), &mut errors);
    assert_eq!(r.err(), Some(ConfigError::FailedToLoadRepositoryList));
    assert!(errors.is_empty());
}

#[test]
fn repository_list_collects_entry_errors() {
    let path = "list.lua".to_string();
    let mut errors = Vec::new();
    let entries = vec![("a".to_string(), repository(Some("/a"), None)), ("b".to_string(), repository(None, None))];
    let r = load_repositories(&path, ScriptRun::Ran(Some(entries)), &mut errors).ok().unwrap();
    assert_eq!(r.len(), 1);
    assert_eq!(r[0].0, "a");
    assert_eq!(r[0].1.name, "a");
    assert_eq!(errors, vec![ConfigError::InvalidRepositoryPath { repository_name: "b".to_string() }]);
}

#[test]
fn complete_configuration_loads() {
    let path = "c".to_string();
    let users = vec![("ann".to_string(), user_entry(Some("ann.pub"))), ("bob".to_string(), user_entry(Some("bob.pub")))];
    let pending = match init_config(&path, ConfigRun::Ran(globals(Some(users), Some("r.lua")))) {
        ConfigStage::Pending(p) => p,
        ConfigStage::Failed(_) => panic!("expected the repository list to be next"),
    };
    assert_eq!(pending.repository_list_path, "r.lua");
    let access = vec![("ann".to_string(), AccessValues { info: None, content: rw(Some(true), Some(true)) })];
    let list = vec![("docs".to_string(), repository(Some("/srv/docs"), Some(access)))];
    let config = complete_config(pending, ScriptRun::Ran(Some(list))).ok().unwrap();
    assert_eq!(config.users.len(), 2);
    assert_eq!(config.users[1].1.name, "bob");
    assert_eq!(config.users[1].1.pub_key_path, "bob.pub");
    assert_eq!(config.repositories.len(), 1);
    assert_eq!(config.repositories[0].1.path, "/srv/docs");
    assert!(config.repositories[0].1.access_list[0].1.content.write);
    assert_eq!(config.address, "127.0.0.1");
    assert_eq!(config.port, 8080);
    assert_eq!(config.repository_list_path, "r.lua");
}

#[test]
fn any_error_fails_the_configuration() {
    let path = "c".to_string();
    let users = vec![("ann".to_string(), user_entry(None))];
    let pending = match init_config(&path, ConfigRun::Ran(globals(Some(users), Some("r.lua")))) {
        ConfigStage::Pending(p) => p,
        ConfigStage::Failed(_) => panic!("expected the repository list to be next"),
    };
    let r = complete_config(pending, ScriptRun::Ran(Some(vec![])));
    assert_eq!(r.err(), Some(vec![ConfigError::InvalidUserPubKeyPath { name: "ann".to_string() }]));
}

#[test]
fn unloadable_repository_list_fails_the_configuration() {
    let path = "c".to_string();
    let pending = match init_config(&path, ConfigRun::Ran(globals(Some(vec![]), Some("r.lua")))) {
        ConfigStage::Pending(p) => p,
        ConfigStage::Failed(_) => panic!("expected the repository list to be next"),
    };
    let r = complete_config(pending, ScriptRun::Unreadable);
    assert_eq!(r.err(), Some(vec![ConfigError::FailedToLoadFileForRepositoryList { path: "r.lua".to_string() }]));
}
