//! The client's configuration: its users (remote name and signing key) and
//! its bindings (a local directory tied to a remote repository).

use vstd::prelude::*;
use std::sync::Arc;
use crate::config::{
    ConfigRun, ScriptFailure, first_index, insert_entry, inserted, keys_distinct, lemma_inserted_distinct, lookup, find_index,
};
use crate::key_gen::{pkcs8_secret_key, secret_key_from_pem};

verus! {

/// A local user: the name the daemon knows them by, where their private key
/// is kept, and the key's 32 secret bytes.
#[derive(Debug)]
pub struct User {
    pub remote_username: String,
    pub priv_key_path: String,
    pub priv_key: [u8; 32],
}

/// A user as plain values.
pub open spec fn user_view(u: User) -> (Seq<char>, Seq<char>, Seq<u8>) {
    (u.remote_username@, u.priv_key_path@, u.priv_key@)
}

/// A local directory kept in step with a remote repository, and the user
/// who does so unless another is named.
#[derive(Debug)]
pub struct Binding {
    pub local_path: String,
    pub remote_address: String,
    pub remote_repository_name: String,
    pub default_user: Arc<User>,
}

/// A binding as plain values.
pub open spec fn binding_view(b: Binding) -> (Seq<char>, Seq<char>, Seq<char>, (Seq<char>, Seq<char>, Seq<u8>)) {
    (b.local_path@, b.remote_address@, b.remote_repository_name@, user_view(*b.default_user))
}

/// The client's configuration: users and bindings by name.
#[derive(Debug)]
pub struct Config {
    pub users: Vec<(String, Arc<User>)>,
    pub bindings: Vec<(String, Arc<Binding>)>,
}

/// What went wrong while loading the client's configuration.
#[derive(Debug)]
pub enum ConfigError {
    FailedToLoadFileForConfig { path: String },
    FailedToLoadLuaLibs,
    LuaErrorForConfig { message: String },
    LuaUnknownErrorForConfig,
    LuaInvalidUsersValue,
    LuaInvalidBindingsValue,
    LuaInvalidUserRemoteUsernameValue { name: String },
    LuaInvalidUserPrivKeyPathValue { name: String },
    LuaInvalidBindingLocalPathValue { name: String },
    LuaInvalidBindingRemoteRepositoryNameValue { name: String },
    LuaInvalidBindingRemoteAddressValue { name: String },
    LuaInvalidBindingDefaultUserValue { name: String },
    LuaUserNotExistentForBinding { name: String, username: String },
    LuaUserInvalidObjectForBinding { name: String },
    LuaInvalidBindingDefaultUserValueType { name: String },
    FailedToOpenKeyFile { name: String },
    FailedToSerializeSigningKey { name: String },
}

/// A user's entry: `remote_username` and `priv_key_path` when they are
/// strings, and the text of the private key file (`None`: it could not be
/// opened).
#[derive(Debug)]
pub struct UserValues {
    pub remote_username: Option<String>,
    pub priv_key_path: Option<String>,
    pub priv_key_pem: Option<String>,
}

/// A binding's `default_user`: a user's name, a user's entry, or anything
/// else.
#[derive(Debug)]
pub enum DefaultUserValue {
    Name(String),
    Table(UserValues),
    Other,
}

/// A binding's entry: its fields, when they are strings, and its
/// `default_user`, when it could be read.
#[derive(Debug)]
pub struct BindingValues {
    pub local_path: Option<String>,
    pub remote_repository_name: Option<String>,
    pub remote_address: Option<String>,
    pub default_user: Option<DefaultUserValue>,
}

/// The values the client's configuration script defines: the entries of
/// `users` and of `bindings` when they are tables (those read before one
/// that was not a name and a table).
#[derive(Debug)]
pub struct ConfigValues {
    pub users: Option<Vec<(String, UserValues)>>,
    pub bindings: Option<Vec<(String, BindingValues)>>,
}

/// The user an entry named `name` describes, or why it does not: it needs
/// `remote_username`, `priv_key_path`, a key file that opens and a PKCS#8
/// Ed25519 private key in it.
pub open spec fn user_of(name: String, v: UserValues) -> Result<(Seq<char>, Seq<char>, Seq<u8>), ConfigError> {
    match v.remote_username {
        None => Err(ConfigError::LuaInvalidUserRemoteUsernameValue { name }),
        Some(remote_username) => match v.priv_key_path {
            None => Err(ConfigError::LuaInvalidUserPrivKeyPathValue { name }),
            Some(priv_key_path) => match v.priv_key_pem {
                None => Err(ConfigError::FailedToOpenKeyFile { name }),
                Some(pem) => match pkcs8_secret_key(pem@) {
                    None => Err(ConfigError::FailedToSerializeSigningKey { name }),
                    Some(key) => Ok((remote_username@, priv_key_path@, key)),
                },
            },
        },
    }
}

/// The user an entry describes, if it describes one.
pub open spec fn user_fields(v: UserValues) -> Option<(Seq<char>, Seq<char>, Seq<u8>)> {
    match (v.remote_username, v.priv_key_path, v.priv_key_pem) {
        (Some(u), Some(p), Some(pem)) => match pkcs8_secret_key(pem@) {
            Some(key) => Some((u@, p@, key)),
            None => None,
        },
        _ => None,
    }
}

/// Reads the user entry named `name`.
pub fn load_user(name: &String, v: &UserValues) -> (r: Result<User, ConfigError>)
    ensures
        match user_of(*name, *v) {
            Ok(u) => r matches Ok(user) && user_view(user) == u,
            Err(e) => r == Err::<User, ConfigError>(e),
        },
{
    let remote_username = match &v.remote_username {
        Some(value) => value.clone(),
        None => {
            return Err(ConfigError::LuaInvalidUserRemoteUsernameValue { name: name.clone() });
        },
    };
    let priv_key_path = match &v.priv_key_path {
        Some(value) => value.clone(),
        None => {
            return Err(ConfigError::LuaInvalidUserPrivKeyPathValue { name: name.clone() });
        },
    };
    let pem = match &v.priv_key_pem {
        Some(pem) => pem,
        None => {
            return Err(ConfigError::FailedToOpenKeyFile { name: name.clone() });
        },
    };
    let priv_key = match secret_key_from_pem(pem.as_str()) {
        Some(key) => key,
        None => {
            return Err(ConfigError::FailedToSerializeSigningKey { name: name.clone() });
        },
    };
    Ok(User { remote_username, priv_key_path, priv_key })
}

/// The users of a `users` table, from its entries in order; entries that
/// describe no user are left out.
pub open spec fn users_of(entries: Seq<(String, UserValues)>) -> Seq<(String, (Seq<char>, Seq<char>, Seq<u8>))>
    decreases entries.len(),
{
    if entries.len() == 0 {
        Seq::empty()
    } else {
        let t = users_of(entries.drop_last());
        match user_of(entries.last().0, entries.last().1) {
            Ok(u) => inserted(t, entries.last().0, u),
            Err(_) => t,
        }
    }
}

/// The users of a table as plain values.
pub open spec fn users_view(t: Seq<(String, Arc<User>)>) -> Seq<(String, (Seq<char>, Seq<char>, Seq<u8>))> {
    t.map_values(|e: (String, Arc<User>)| (e.0, user_view(*e.1)))
}

/// The bindings of a table as plain values.
pub open spec fn bindings_view(t: Seq<(String, Arc<Binding>)>) -> Seq<
    (String, (Seq<char>, Seq<char>, Seq<char>, (Seq<char>, Seq<char>, Seq<u8>))),
> {
    t.map_values(|e: (String, Arc<Binding>)| (e.0, binding_view(*e.1)))
}

/// The binding an entry describes, given the users already read: it needs
/// its three strings and a default user, either the name of one of the
/// users or a user entry of its own; entries that fail describe none.
pub open spec fn binding_of(v: BindingValues, users: Seq<(String, (Seq<char>, Seq<char>, Seq<u8>))>) -> Option<
    (Seq<char>, Seq<char>, Seq<char>, (Seq<char>, Seq<char>, Seq<u8>)),
> {
    match (v.local_path, v.remote_repository_name, v.remote_address, v.default_user) {
        (Some(l), Some(n), Some(a), Some(d)) => {
            let user = match d {
                DefaultUserValue::Name(u) => lookup(users, u@),
                DefaultUserValue::Table(t) => user_fields(t),
                DefaultUserValue::Other => None,
            };
            match user {
                Some(u) => Some((l@, a@, n@, u)),
                None => None,
            }
        },
        _ => None,
    }
}

/// The bindings of a `bindings` table, from its entries in order, given the
/// users; entries that describe no binding are left out.
pub open spec fn bindings_of(
    entries: Seq<(String, BindingValues)>,
    users: Seq<(String, (Seq<char>, Seq<char>, Seq<u8>))>,
) -> Seq<(String, (Seq<char>, Seq<char>, Seq<char>, (Seq<char>, Seq<char>, Seq<u8>)))>
    decreases entries.len(),
{
    if entries.len() == 0 {
        Seq::empty()
    } else {
        let t = bindings_of(entries.drop_last(), users);
        match binding_of(entries.last().1, users) {
            Some(b) => inserted(t, entries.last().0, b),
            None => t,
        }
    }
}

fn load_users(entries: &Vec<(String, UserValues)>) -> (r: Vec<(String, Arc<User>)>)
    ensures
        users_view(r@) == users_of(entries@),
        keys_distinct(r@),
{
    let mut users: Vec<(String, Arc<User>)> = Vec::new();
    let mut i: usize = 0;
    while i < entries.len()
        invariant
            i <= entries.len(),
            users_view(users@) == users_of(entries@.take(i as int)),
            keys_distinct(users@),
        decreases entries.len() - i,
    {
        proof {
            assert(entries@.take(i + 1).drop_last() =~= entries@.take(i as int));
            assert(entries@.take(i + 1).last() == entries@[i as int]);
        }
        match load_user(&entries[i].0, &entries[i].1) {
            Ok(user) => {
                let shared = Arc::new(user);
                proof {
                    crate::config::lemma_inserted_map(users@, entries@[i as int].0, shared,
                        |e: (String, Arc<User>)| (e.0, user_view(*e.1)));
                    lemma_inserted_distinct(users@, entries@[i as int].0, shared);
                }
                insert_entry(&mut users, entries[i].0.clone(), shared);
            },
            Err(_) => {},
        }
        i = i + 1;
    }
    assert(entries@.take(i as int) =~= entries@);
    users
}

/// The shared user stored under `name`.
fn find_user(users: &Vec<(String, Arc<User>)>, name: &str) -> (r: Option<Arc<User>>)
    ensures
        match r {
            Some(u) => lookup(users_view(users@), name@) == Some(user_view(*u)),
            None => lookup(users_view(users@), name@) is None,
        },
{
    proof {
        lemma_lookup_map(users@, name@);
    }
    match find_index(users, name) {
        Some(i) => Some(crate::config::arc_clone(&users[i].1)),
        None => None,
    }
}

proof fn lemma_lookup_map(t: Seq<(String, Arc<User>)>, k: Seq<char>)
    ensures
        lookup(users_view(t), k) == match lookup(t, k) {
            Some(u) => Some(user_view(*u)),
            None => None,
        },
    decreases t.len(),
{
    if t.len() > 0 {
        assert(users_view(t).drop_first() =~= users_view(t.drop_first()));
        assert(users_view(t)[0] == (t[0].0, user_view(*t[0].1)));
        lemma_lookup_map(t.drop_first(), k);
    }
}

fn load_binding(v: &BindingValues, users: &Vec<(String, Arc<User>)>) -> (r: Option<Binding>)
    ensures
        match binding_of(*v, users_view(users@)) {
            Some(b) => r matches Some(binding) && binding_view(binding) == b,
            None => r is None,
        },
{
    let local_path = match &v.local_path {
        Some(value) => value.clone(),
        None => {
            return None;
        },
    };
    let remote_repository_name = match &v.remote_repository_name {
        Some(value) => value.clone(),
        None => {
            return None;
        },
    };
    let remote_address = match &v.remote_address {
        Some(value) => value.clone(),
        None => {
            return None;
        },
    };
    let default_user = match &v.default_user {
        Some(value) => value,
        None => {
            return None;
        },
    };
    let default_user = match default_user {
        DefaultUserValue::Name(username) => match find_user(users, username.as_str()) {
            Some(user) => user,
            None => {
                return None;
            },
        },
        DefaultUserValue::Table(entry) => {
            let anon = "<anon>".to_owned();
            match load_user(&anon, entry) {
                Ok(user) => Arc::new(user),
                Err(_) => {
                    return None;
                },
            }
        },
        DefaultUserValue::Other => {
            return None;
        },
    };
    Some(Binding { local_path, remote_address, remote_repository_name, default_user })
}

fn load_bindings(entries: &Vec<(String, BindingValues)>, users: &Vec<(String, Arc<User>)>) -> (r: Vec<(String, Arc<Binding>)>)
    ensures
        bindings_view(r@) == bindings_of(entries@, users_view(users@)),
        keys_distinct(r@),
{
    let mut bindings: Vec<(String, Arc<Binding>)> = Vec::new();
    let mut i: usize = 0;
    while i < entries.len()
        invariant
            i <= entries.len(),
            bindings_view(bindings@) == bindings_of(entries@.take(i as int), users_view(users@)),
            keys_distinct(bindings@),
        decreases entries.len() - i,
    {
        proof {
            assert(entries@.take(i + 1).drop_last() =~= entries@.take(i as int));
            assert(entries@.take(i + 1).last() == entries@[i as int]);
        }
        match load_binding(&entries[i].1, users) {
            Some(binding) => {
                let shared = Arc::new(binding);
                proof {
                    crate::config::lemma_inserted_map(bindings@, entries@[i as int].0, shared,
                        |e: (String, Arc<Binding>)| (e.0, binding_view(*e.1)));
                    lemma_inserted_distinct(bindings@, entries@[i as int].0, shared);
                }
                insert_entry(&mut bindings, entries[i].0.clone(), shared);
            },
            None => {},
        }
        i = i + 1;
    }
    assert(entries@.take(i as int) =~= entries@);
    bindings
}

/// Takes in the client's configuration script at `path`, as `run` gives
/// it. It fails when the file cannot be read, the standard libraries cannot
/// be loaded, the script does not parse (its message) or fails otherwise,
/// or `users` or `bindings` is not a table. Otherwise the configuration
/// holds the users and then the bindings that the entries describe, each
/// stored under its name; entries that describe none are left out.
pub fn init_config(path: &String, run: ConfigRun<ConfigValues>) -> (r: Result<Config, Vec<ConfigError>>)
    ensures
        match run {
            ConfigRun::Unreadable => r matches Err(es) && es@ == seq![ConfigError::FailedToLoadFileForConfig { path: *path }],
            ConfigRun::LibsUnavailable => r matches Err(es) && es@ == seq![ConfigError::FailedToLoadLuaLibs],
            ConfigRun::Failed(ScriptFailure::Syntax { message }) => r matches Err(es)
                && es@ == seq![ConfigError::LuaErrorForConfig { message }],
            ConfigRun::Failed(_) => r matches Err(es) && es@ == seq![ConfigError::LuaUnknownErrorForConfig],
            ConfigRun::Ran(g) => match (g.users, g.bindings) {
                (None, _) => r matches Err(es) && es@ == seq![ConfigError::LuaInvalidUsersValue],
                (Some(_), None) => r matches Err(es) && es@ == seq![ConfigError::LuaInvalidBindingsValue],
                (Some(u), Some(b)) => r matches Ok(c) && {
                    &&& users_view(c.users@) == users_of(u@)
                    &&& bindings_view(c.bindings@) == bindings_of(b@, users_of(u@))
                    &&& keys_distinct(c.users@)
                    &&& keys_distinct(c.bindings@)
                },
            },
        },
{
    let g = match run {
        ConfigRun::Unreadable => {
            return Err(vec![ConfigError::FailedToLoadFileForConfig { path: path.clone() }]);
        },
        ConfigRun::LibsUnavailable => {
            return Err(vec![ConfigError::FailedToLoadLuaLibs]);
        },
        ConfigRun::Failed(ScriptFailure::Syntax { message }) => {
            return Err(vec![ConfigError::LuaErrorForConfig { message }]);
        },
        ConfigRun::Failed(_) => {
            return Err(vec![ConfigError::LuaUnknownErrorForConfig]);
        },
        ConfigRun::Ran(g) => g,
    };
    let user_entries = match g.users {
        Some(u) => u,
        None => {
            return Err(vec![ConfigError::LuaInvalidUsersValue]);
        },
    };
    let binding_entries = match g.bindings {
        Some(b) => b,
        None => {
            return Err(vec![ConfigError::LuaInvalidBindingsValue]);
        },
    };
    let users = load_users(&user_entries);
    let bindings = load_bindings(&binding_entries, &users);
    Ok(Config { users, bindings })
}

/// Why no binding was chosen.
#[derive(Clone, Copy, Debug, PartialEq, Eq, Structural)]
pub enum BindingChoiceError {
    /// The named binding does not exist.
    NotFound,
    /// No binding was named and there is not exactly one.
    NotSpecified,
}

impl BindingChoiceError {
    /// What to tell the user.
    pub fn message(&self) -> (r: String)
        ensures
            r@ == match *self {
                BindingChoiceError::NotFound => "specified binding could not be found"@,
                BindingChoiceError::NotSpecified => "no binding specified"@,
            },
    {
        match self {
            BindingChoiceError::NotFound => "specified binding could not be found".to_owned(),
            BindingChoiceError::NotSpecified => "no binding specified".to_owned(),
        }
    }
}

/// The binding to work on: the one named `id`, or, when none is named, the
/// only one there is.
pub fn select_binding(config: &Config, id: Option<&str>) -> (r: Result<Arc<Binding>, BindingChoiceError>)
    ensures
        match id {
            Some(i) => match lookup(config.bindings@, i@) {
                Some(b) => r == Ok::<Arc<Binding>, BindingChoiceError>(b),
                None => r == Err::<Arc<Binding>, BindingChoiceError>(BindingChoiceError::NotFound),
            },
            None => if config.bindings@.len() == 1 {
                r == Ok::<Arc<Binding>, BindingChoiceError>(config.bindings@[0].1)
            } else {
                r == Err::<Arc<Binding>, BindingChoiceError>(BindingChoiceError::NotSpecified)
            },
        },
{
    match id {
        Some(i) => match find_index(&config.bindings, i) {
            Some(k) => Ok(crate::config::arc_clone(&config.bindings[k].1)),
            None => Err(BindingChoiceError::NotFound),
        },
        None => {
            if config.bindings.len() != 1 {
                return Err(BindingChoiceError::NotSpecified);
            }
            Ok(crate::config::arc_clone(&config.bindings[0].1))
        },
    }
}

/// A binding keeps each of its entry's values in its own place: its local
/// path is the entry's `local_path`, its remote address the entry's
/// `remote_address` and its repository name the entry's
/// `remote_repository_name`; an entry without all three describes none.
pub proof fn lemma_binding_keeps_entry_values(v: BindingValues, users: Seq<(String, (Seq<char>, Seq<char>, Seq<u8>))>)
    ensures
        binding_of(v, users) is Some ==> v.local_path is Some && v.remote_address is Some
            && v.remote_repository_name is Some && v.default_user is Some,
        binding_of(v, users) matches Some(b) ==> b.0 == v.local_path.unwrap()@ && b.1 == v.remote_address.unwrap()@
            && b.2 == v.remote_repository_name.unwrap()@,
{
}

} // verus!
