//! The daemon's configuration: users, repositories and the server address,
//! assembled from the values the configuration scripts define.

use vstd::prelude::*;
use std::sync::Arc;
use crate::filepipe::{Repository, RepositoryAccess, RepositoryAccessAttribute};

verus! {

/// A user of the daemon and where their public key is kept.
#[derive(Debug)]
pub struct User {
    pub name: String,
    pub pub_key_path: String,
}

impl Clone for User {
    fn clone(&self) -> (r: Self)
        ensures
            r == *self,
    {
        User { name: self.name.clone(), pub_key_path: self.pub_key_path.clone() }
    }
}

/// The daemon's configuration; users and repositories are keyed by name.
#[derive(Debug)]
pub struct Config {
    pub users: Vec<(String, User)>,
    pub repository_list_path: String,
    pub repositories: Vec<(String, Arc<Repository>)>,
    pub address: String,
    pub port: u16,
}

/// What went wrong while loading the configuration.
#[derive(Clone, Debug, PartialEq, Eq)]
pub enum ConfigError {
    FailedToLoadLuaLibs,
    FailedToLoadUsers,
    InvalidUserPubKeyPath { name: String },
    NoRepositoryList,
    FailedToLoadFileForRepositoryList { path: String },
    LuaErrorForRepositoryList { message: String },
    LuaUnknownErrorForRepositoryList,
    FailedToLoadRepositoryList,
    LuaErrorForConfig { message: String },
    LuaUnknownErrorForConfig,
    FailedToLoadFileForConfig { path: String },
    InvalidRepositoryPath { repository_name: String },
    NoAddress,
    NoPort,
}

/// Another handle on the same shared value (`Arc::clone`).
#[verifier::external_body]
pub(crate) fn arc_clone<T>(a: &Arc<T>) -> (r: Arc<T>)
    ensures
        r == *a,
{
    Arc::clone(a)
}

/// The entry stored under `key`, if any (the first one).
pub open spec fn lookup<V>(entries: Seq<(String, V)>, key: Seq<char>) -> Option<V>
    decreases entries.len(),
{
    if entries.len() == 0 {
        None
    } else if entries[0].0@ == key {
        Some(entries[0].1)
    } else {
        lookup(entries.drop_first(), key)
    }
}

/// What `lookup` finds is stored under the key it was asked for.
pub proof fn lemma_lookup_some<V>(entries: Seq<(String, V)>, key: Seq<char>)
    requires
        lookup(entries, key) is Some,
    ensures
        exists|i: int| 0 <= i < entries.len() && (#[trigger] entries[i]).0@ == key && entries[i].1 == lookup(entries, key).unwrap(),
    decreases entries.len(),
{
    if entries[0].0@ != key {
        lemma_lookup_some(entries.drop_first(), key);
        let i = choose|i: int| 0 <= i < entries.drop_first().len() && (#[trigger] entries.drop_first()[i]).0@ == key
            && entries.drop_first()[i].1 == lookup(entries.drop_first(), key).unwrap();
        assert(entries[i + 1] == entries.drop_first()[i]);
    } else {
        assert(entries[0].0@ == key);
    }
}

/// Index of the first entry stored under `key`, if any.
pub open spec fn first_index<V>(entries: Seq<(String, V)>, key: Seq<char>) -> Option<int>
    decreases entries.len(),
{
    if entries.len() == 0 {
        None
    } else if entries[0].0@ == key {
        Some(0)
    } else {
        match first_index(entries.drop_first(), key) {
            Some(i) => Some(i + 1),
            None => None,
        }
    }
}

/// The first `i` entries are not stored under `key`: the first entry
/// under `key` is the `i`-th if that one is, and there is none if `i` is
/// the length.
proof fn lemma_first_index<V>(entries: Seq<(String, V)>, key: Seq<char>, i: int)
    requires
        0 <= i <= entries.len(),
        forall|j: int| 0 <= j < i ==> (#[trigger] entries[j]).0@ != key,
        i < entries.len() ==> entries[i].0@ == key,
    ensures
        i < entries.len() ==> first_index(entries, key) == Some(i) && lookup(entries, key) == Some(entries[i].1),
        i == entries.len() ==> first_index(entries, key) is None && lookup(entries, key) is None,
    decreases i,
{
    if i > 0 {
        let d = entries.drop_first();
        assert forall|j: int| 0 <= j < i - 1 implies (#[trigger] d[j]).0@ != key by {
            assert(d[j] == entries[j + 1]);
        }
        if i < entries.len() {
            assert(d[i - 1] == entries[i]);
        }
        lemma_first_index(d, key, i - 1);
        assert(entries[0].0@ != key);
    }
}

/// Index of the entry stored under `key`, if any (the first one).
pub fn find_index<V>(entries: &Vec<(String, V)>, key: &str) -> (r: Option<usize>)
    ensures
        match r {
            Some(i) => i < entries.len() && entries@[i as int].0@ == key@ && lookup(entries@, key@) == Some(entries@[i as int].1)
                && first_index(entries@, key@) == Some(i as int),
            None => lookup(entries@, key@) is None && first_index(entries@, key@) is None,
        },
{
    let mut i: usize = 0;
    while i < entries.len()
        invariant
            i <= entries.len(),
            forall|j: int| 0 <= j < i ==> (#[trigger] entries@[j]).0@ != key@,
        decreases entries.len() - i,
    {
        if str_eq(entries[i].0.as_str(), key) {
            proof {
                lemma_first_index(entries@, key@, i as int);
            }
            return Some(i);
        }
        i = i + 1;
    }
    proof {
        lemma_first_index(entries@, key@, i as int);
    }
    None
}

/// The table with `v` stored under `k`: in place of the value of the first
/// entry under `k` (whose key stays), or as a new last entry.
pub open spec fn inserted<V>(t: Seq<(String, V)>, k: String, v: V) -> Seq<(String, V)> {
    match first_index(t, k@) {
        Some(i) => t.update(i, (t[i].0, v)),
        None => t.push((k, v)),
    }
}

/// The keys of a table are distinct.
pub open spec fn keys_distinct<V>(s: Seq<(String, V)>) -> bool {
    forall|i: int, j: int| 0 <= i < s.len() && 0 <= j < s.len() && i != j ==> (#[trigger] s[i].0)@ != (#[trigger] s[j].0)@
}

/// Storing a value keeps the keys of a table distinct.
pub proof fn lemma_inserted_distinct<V>(t: Seq<(String, V)>, k: String, v: V)
    requires
        keys_distinct(t),
    ensures
        keys_distinct(inserted(t, k, v)),
        inserted(t, k, v).len() == t.len() + if first_index(t, k@) is Some { 0int } else { 1int },
{
    match first_index(t, k@) {
        Some(i) => {
            lemma_first_index_found(t, k@);
            let n = inserted(t, k, v);
            assert forall|a: int, b: int| 0 <= a < n.len() && 0 <= b < n.len() && a != b implies (#[trigger] n[a].0)@
                != (#[trigger] n[b].0)@ by {
                assert(n[a].0 == t[a].0 && n[b].0 == t[b].0);
            }
        },
        None => {
            lemma_first_index_absent(t, k@);
            let n = inserted(t, k, v);
            assert forall|a: int, b: int| 0 <= a < n.len() && 0 <= b < n.len() && a != b implies (#[trigger] n[a].0)@
                != (#[trigger] n[b].0)@ by {
                if a < t.len() && b < t.len() {
                    assert(n[a] == t[a] && n[b] == t[b]);
                } else if a == t.len() {
                    assert(n[b] == t[b]);
                } else {
                    assert(n[a] == t[a]);
                }
            }
        },
    }
}

pub proof fn lemma_first_index_absent<V>(t: Seq<(String, V)>, k: Seq<char>)
    requires
        first_index(t, k) is None,
    ensures
        forall|i: int| 0 <= i < t.len() ==> (#[trigger] t[i]).0@ != k,
    decreases t.len(),
{
    if t.len() > 0 {
        lemma_first_index_absent(t.drop_first(), k);
        assert forall|i: int| 0 <= i < t.len() implies (#[trigger] t[i]).0@ != k by {
            if i > 0 {
                assert(t[i] == t.drop_first()[i - 1]);
            }
        }
    }
}

/// Stores `v` under `k`, replacing the value already stored under `k`.
pub fn insert_entry<V>(t: &mut Vec<(String, V)>, k: String, v: V)
    ensures
        final(t)@ == inserted(old(t)@, k, v),
{
    match find_index(t, k.as_str()) {
        Some(i) => {
            let (key, _) = t.remove(i);
            t.insert(i, (key, v));
            assert(t@ =~= inserted(old(t)@, k, v));
        },
        None => {
            t.push((k, v));
        },
    }
}

/// Whether two strings are equal (`==` on `str`).
#[verifier::external_body]
pub(crate) fn str_eq(a: &str, b: &str) -> (r: bool)
    ensures
        r == (a@ == b@),
{
    a == b
}

/// The shared repository stored under `name`.
pub fn find_repository(repositories: &Vec<(String, Arc<Repository>)>, name: &str) -> (r: Option<Arc<Repository>>)
    ensures
        r == lookup(repositories@, name@),
{
    match find_index(repositories, name) {
        Some(i) => Some(arc_clone(&repositories[i].1)),
        None => None,
    }
}

/// The access rights stored for `user` in a repository's access list.
pub fn find_access(access_list: &Vec<(String, RepositoryAccess)>, user: &str) -> (r: Option<RepositoryAccess>)
    ensures
        r == lookup(access_list@, user@),
{
    match find_index(access_list, user) {
        Some(i) => Some(access_list[i].1),
        None => None,
    }
}

/// Every repository is stored under its own name.
pub open spec fn named_by_key(repositories: Seq<(String, Arc<Repository>)>) -> bool {
    forall|i: int| 0 <= i < repositories.len() ==> (#[trigger] repositories[i]).1.name@ == repositories[i].0@
}

/// Why a configuration script did not run.
#[derive(Debug)]
pub enum ScriptFailure {
    /// It does not parse.
    Syntax { message: String },
    /// It raised an error.
    Runtime { message: String },
    /// Anything else.
    Other,
}

/// What reading and running a configuration file gave: the values it
/// defines, or the stage that failed.
#[derive(Debug)]
pub enum ConfigRun<T> {
    /// The file could not be read.
    Unreadable,
    /// The standard libraries could not be loaded.
    LibsUnavailable,
    /// The script did not run.
    Failed(ScriptFailure),
    /// The script ran and defined these values.
    Ran(T),
}

/// What reading and running a script gave.
#[derive(Debug)]
pub enum ScriptRun<T> {
    /// The file could not be read.
    Unreadable,
    /// The script did not run.
    Failed(ScriptFailure),
    /// The script ran and defined these values.
    Ran(T),
}

/// The `read` and `write` flags of a permission table, when they are
/// booleans.
#[derive(Clone, Copy, Debug)]
pub struct AttributeValues {
    pub read: Option<bool>,
    pub write: Option<bool>,
}

/// A user's entry in an access list: its `info` and `content` tables, when
/// they are tables.
#[derive(Clone, Copy, Debug)]
pub struct AccessValues {
    pub info: Option<AttributeValues>,
    pub content: Option<AttributeValues>,
}

/// A repository's entry: its `path`, when it is a string, and the entries
/// of its `access_list`, when that is a table (those read before one that
/// was not a name and a table).
#[derive(Debug)]
pub struct RepositoryValues {
    pub path: Option<String>,
    pub access_list: Option<Vec<(String, AccessValues)>>,
}

/// A user's entry: its `pub_key_path`, when it is a string.
#[derive(Debug)]
pub struct UserValues {
    pub pub_key_path: Option<String>,
}

/// The values the daemon's configuration script defines: the entries of
/// `users` when it is a table (those read before one that was not a name
/// and a table), `server_address`, `server_port` and `repository_list`.
#[derive(Debug)]
pub struct ConfigValues {
    pub users: Option<Vec<(String, UserValues)>>,
    pub server_address: Option<String>,
    pub server_port: Option<u16>,
    pub repository_list: Option<String>,
}

pub open spec fn flag(b: Option<bool>) -> bool {
    match b {
        Some(b) => b,
        None => false,
    }
}

/// The permissions a permission table gives: what it says, and no
/// permission where it says nothing.
pub open spec fn attribute_of(a: Option<AttributeValues>) -> RepositoryAccessAttribute {
    match a {
        Some(t) => RepositoryAccessAttribute { read: flag(t.read), write: flag(t.write) },
        None => RepositoryAccessAttribute { read: false, write: false },
    }
}

/// The rights an access list entry gives.
pub open spec fn access_of(a: AccessValues) -> RepositoryAccess {
    RepositoryAccess { info: attribute_of(a.info), content: attribute_of(a.content) }
}

/// The access list of a repository, from its entries in order.
pub open spec fn access_list_of(entries: Seq<(String, AccessValues)>) -> Seq<(String, RepositoryAccess)>
    decreases entries.len(),
{
    if entries.len() == 0 {
        Seq::empty()
    } else {
        inserted(access_list_of(entries.drop_last()), entries.last().0, access_of(entries.last().1))
    }
}

fn load_attribute(a: Option<AttributeValues>) -> (r: RepositoryAccessAttribute)
    ensures
        r == attribute_of(a),
{
    match a {
        Some(t) => RepositoryAccessAttribute { read: t.read.unwrap_or(false), write: t.write.unwrap_or(false) },
        None => RepositoryAccessAttribute { read: false, write: false },
    }
}

/// The rights an access list entry gives a user.
pub fn load_repository_access(_username: &String, access_values: &AccessValues) -> (r: RepositoryAccess)
    ensures
        r == access_of(*access_values),
{
    RepositoryAccess { info: load_attribute(access_values.info), content: load_attribute(access_values.content) }
}

/// A repository as plain values: name, path and access list.
pub open spec fn repository_view(r: Repository) -> (Seq<char>, Seq<char>, Seq<(String, RepositoryAccess)>) {
    (r.name@, r.path@, r.access_list@)
}

/// The repository an entry under `key` describes, or why it does not.
pub open spec fn repository_of(key: String, values: RepositoryValues) -> Result<
    (Seq<char>, Seq<char>, Seq<(String, RepositoryAccess)>),
    ConfigError,
> {
    match values.path {
        None => Err(ConfigError::InvalidRepositoryPath { repository_name: key }),
        Some(p) => Ok((key@, p@, match values.access_list {
            None => Seq::empty(),
            Some(entries) => access_list_of(entries@),
        })),
    }
}

/// Reads the repository stored under `key`: it needs a `path`; its access
/// list is empty when it has none.
pub fn load_repository(key: &String, repository_table: &RepositoryValues) -> (r: Result<Repository, ConfigError>)
    ensures
        match repository_of(*key, *repository_table) {
            Ok(v) => r matches Ok(repo) && repository_view(repo) == v,
            Err(e) => r == Err::<Repository, ConfigError>(e),
        },
{
    let path = match &repository_table.path {
        Some(p) => p.clone(),
        None => {
            return Err(ConfigError::InvalidRepositoryPath { repository_name: key.clone() });
        },
    };
    let mut access_list: Vec<(String, RepositoryAccess)> = Vec::new();
    if let Some(entries) = &repository_table.access_list {
        let mut i: usize = 0;
        while i < entries.len()
            invariant
                i <= entries.len(),
                access_list@ == access_list_of(entries@.take(i as int)),
            decreases entries.len() - i,
        {
            proof {
                assert(entries@.take(i + 1).drop_last() =~= entries@.take(i as int));
            }
            let access = load_repository_access(&entries[i].0, &entries[i].1);
            insert_entry(&mut access_list, entries[i].0.clone(), access);
            i = i + 1;
        }
        assert(entries@.take(i as int) =~= entries@);
    }
    Ok(Repository { name: key.clone(), path, access_list })
}

/// The repositories of a repository list, from its entries in order, and
/// the errors of the entries that describe none.
pub open spec fn repositories_of(entries: Seq<(String, RepositoryValues)>) -> (
    Seq<(String, (Seq<char>, Seq<char>, Seq<(String, RepositoryAccess)>))>,
    Seq<ConfigError>,
)
    decreases entries.len(),
{
    if entries.len() == 0 {
        (Seq::empty(), Seq::empty())
    } else {
        let (t, es) = repositories_of(entries.drop_last());
        match repository_of(entries.last().0, entries.last().1) {
            Ok(v) => (inserted(t, entries.last().0, v), es),
            Err(e) => (t, es.push(e)),
        }
    }
}

/// The repositories of a table as plain values.
pub open spec fn repositories_view(t: Seq<(String, Arc<Repository>)>) -> Seq<(String, (Seq<char>, Seq<char>, Seq<(String, RepositoryAccess)>))> {
    t.map_values(|e: (String, Arc<Repository>)| (e.0, repository_view(*e.1)))
}

/// Storing a value commutes with mapping the values of a table.
pub proof fn lemma_inserted_map<V, W>(t: Seq<(String, V)>, k: String, v: V, f: spec_fn((String, V)) -> (String, W))
    requires
        forall|e: (String, V)| #[trigger] f(e).0 == e.0,
        forall|a: String, b: String, x: V| #[trigger] f((a, x)).1 == #[trigger] f((b, x)).1,
    ensures
        inserted(t, k, v).map_values(f) == inserted(t.map_values(f), k, f((k, v)).1),
{
    lemma_first_index_map(t, f, k@);
    let tv = t.map_values(f);
    match first_index(t, k@) {
        Some(i) => {
            lemma_first_index_found(t, k@);
            assert(tv[i] == f(t[i]));
            assert(f((t[i].0, v)).0 == t[i].0);
            assert(f((t[i].0, v)).1 == f((k, v)).1);
            assert(inserted(t, k, v).map_values(f) =~= tv.update(i, (tv[i].0, f((k, v)).1)));
        },
        None => {
            assert(f((k, v)).0 == k);
            assert(inserted(t, k, v).map_values(f) =~= tv.push((k, f((k, v)).1)));
        },
    }
}

/// Mapping the values of a table does not move its keys.
proof fn lemma_first_index_map<V, W>(t: Seq<(String, V)>, f: spec_fn((String, V)) -> (String, W), k: Seq<char>)
    requires
        forall|e: (String, V)| #[trigger] f(e).0 == e.0,
    ensures
        first_index(t.map_values(f), k) == first_index(t, k),
    decreases t.len(),
{
    if t.len() > 0 {
        assert(t.map_values(f).drop_first() =~= t.drop_first().map_values(f));
        assert(t.map_values(f)[0] == f(t[0]));
        lemma_first_index_map(t.drop_first(), f, k);
    }
}

/// Every repository of a table built by `repositories_of` is stored under
/// its own name.
proof fn lemma_repositories_named(entries: Seq<(String, RepositoryValues)>)
    ensures
        forall|i: int| 0 <= i < repositories_of(entries).0.len() ==> (#[trigger] repositories_of(entries).0[i]).1.0
            == repositories_of(entries).0[i].0@,
    decreases entries.len(),
{
    if entries.len() > 0 {
        lemma_repositories_named(entries.drop_last());
        let t = repositories_of(entries.drop_last()).0;
        let k = entries.last().0;
        if let Some(i) = first_index(t, k@) {
            lemma_first_index_found(t, k@);
        }
    }
}

pub proof fn lemma_first_index_found<V>(t: Seq<(String, V)>, k: Seq<char>)
    requires
        first_index(t, k) is Some,
    ensures
        0 <= first_index(t, k).unwrap() < t.len(),
        t[first_index(t, k).unwrap()].0@ == k,
    decreases t.len(),
{
    if t[0].0@ != k {
        lemma_first_index_found(t.drop_first(), k);
    }
}

/// Reads a repository list, the result of running `path`: fails when the
/// file cannot be read or run, or defines no `repositories` table (`None`);
/// otherwise gives the repositories its entries describe, stored under
/// their names, and adds the errors of the entries that describe none to
/// `errors`.
pub fn load_repositories(
    path: &String,
    run: ScriptRun<Option<Vec<(String, RepositoryValues)>>>,
    errors: &mut Vec<ConfigError>,
) -> (r: Result<Vec<(String, Arc<Repository>)>, ConfigError>)
    ensures
        match run {
            ScriptRun::Unreadable => r == Err::<Vec<(String, Arc<Repository>)>, ConfigError>(
                ConfigError::FailedToLoadFileForRepositoryList { path: *path },
            ) && final(errors)@ == old(errors)@,
            ScriptRun::Failed(ScriptFailure::Syntax { message }) => r == Err::<Vec<(String, Arc<Repository>)>, ConfigError>(
                ConfigError::LuaErrorForRepositoryList { message },
            ) && final(errors)@ == old(errors)@,
            ScriptRun::Failed(ScriptFailure::Runtime { message }) => r == Err::<Vec<(String, Arc<Repository>)>, ConfigError>(
                ConfigError::LuaErrorForRepositoryList { message },
            ) && final(errors)@ == old(errors)@,
            ScriptRun::Failed(ScriptFailure::Other) => r == Err::<Vec<(String, Arc<Repository>)>, ConfigError>(
                ConfigError::LuaUnknownErrorForRepositoryList,
            ) && final(errors)@ == old(errors)@,
            ScriptRun::Ran(None) => r == Err::<Vec<(String, Arc<Repository>)>, ConfigError>(
                ConfigError::FailedToLoadRepositoryList,
            ) && final(errors)@ == old(errors)@,
            ScriptRun::Ran(Some(entries)) => r matches Ok(t) && repositories_view(t@) == repositories_of(entries@).0
                && final(errors)@ == old(errors)@ + repositories_of(entries@).1 && named_by_key(t@),
        },
{
    let entries = match run {
        ScriptRun::Unreadable => {
            return Err(ConfigError::FailedToLoadFileForRepositoryList { path: path.clone() });
        },
        ScriptRun::Failed(ScriptFailure::Syntax { message }) => {
            return Err(ConfigError::LuaErrorForRepositoryList { message });
        },
        ScriptRun::Failed(ScriptFailure::Runtime { message }) => {
            return Err(ConfigError::LuaErrorForRepositoryList { message });
        },
        ScriptRun::Failed(ScriptFailure::Other) => {
            return Err(ConfigError::LuaUnknownErrorForRepositoryList);
        },
        ScriptRun::Ran(None) => {
            return Err(ConfigError::FailedToLoadRepositoryList);
        },
        ScriptRun::Ran(Some(entries)) => entries,
    };
    let mut repositories: Vec<(String, Arc<Repository>)> = Vec::new();
    let mut i: usize = 0;
    while i < entries.len()
        invariant
            i <= entries.len(),
            repositories_view(repositories@) == repositories_of(entries@.take(i as int)).0,
            errors@ == old(errors)@ + repositories_of(entries@.take(i as int)).1,
        decreases entries.len() - i,
    {
        proof {
            assert(entries@.take(i + 1).drop_last() =~= entries@.take(i as int));
            assert(entries@.take(i + 1).last() == entries@[i as int]);
        }
        match load_repository(&entries[i].0, &entries[i].1) {
            Ok(repository) => {
                let shared = Arc::new(repository);
                proof {
                    lemma_inserted_map(repositories@, entries@[i as int].0, shared,
                        |e: (String, Arc<Repository>)| (e.0, repository_view(*e.1)));
                }
                insert_entry(&mut repositories, entries[i].0.clone(), shared);
            },
            Err(error) => {
                errors.push(error);
                assert(errors@ =~= old(errors)@ + repositories_of(entries@.take(i + 1)).1);
            },
        }
        i = i + 1;
    }
    proof {
        assert(entries@.take(i as int) =~= entries@);
        lemma_repositories_named(entries@);
        assert forall|j: int| 0 <= j < repositories@.len() implies (#[trigger] repositories@[j]).1.name@ == repositories@[j].0@ by {
            assert(repositories_view(repositories@)[j] == (repositories@[j].0, repository_view(*repositories@[j].1)));
        }
    }
    Ok(repositories)
}

/// What a repository list gives: the repositories (as plain values) or the
/// error that stops the loading, and the errors of the entries that
/// describe no repository.
pub open spec fn list_result(path: String, run: ScriptRun<Option<Vec<(String, RepositoryValues)>>>) -> (
    Result<Seq<(String, (Seq<char>, Seq<char>, Seq<(String, RepositoryAccess)>))>, ConfigError>,
    Seq<ConfigError>,
) {
    match run {
        ScriptRun::Unreadable => (Err(ConfigError::FailedToLoadFileForRepositoryList { path }), Seq::empty()),
        ScriptRun::Failed(ScriptFailure::Syntax { message }) => (Err(ConfigError::LuaErrorForRepositoryList { message }), Seq::empty()),
        ScriptRun::Failed(ScriptFailure::Runtime { message }) => (Err(ConfigError::LuaErrorForRepositoryList { message }), Seq::empty()),
        ScriptRun::Failed(ScriptFailure::Other) => (Err(ConfigError::LuaUnknownErrorForRepositoryList), Seq::empty()),
        ScriptRun::Ran(None) => (Err(ConfigError::FailedToLoadRepositoryList), Seq::empty()),
        ScriptRun::Ran(Some(entries)) => (Ok(repositories_of(entries@).0), repositories_of(entries@).1),
    }
}

/// The users of a `users` table, from its entries in order, and the errors
/// of the entries without a `pub_key_path`.
pub open spec fn users_of(entries: Seq<(String, UserValues)>) -> (Seq<(String, User)>, Seq<ConfigError>)
    decreases entries.len(),
{
    if entries.len() == 0 {
        (Seq::empty(), Seq::empty())
    } else {
        let (t, es) = users_of(entries.drop_last());
        let k = entries.last().0;
        match entries.last().1.pub_key_path {
            Some(p) => (inserted(t, k, User { name: k, pub_key_path: p }), es),
            None => (t, es.push(ConfigError::InvalidUserPubKeyPath { name: k })),
        }
    }
}

/// A configuration whose repository list is still to be read: the users,
/// the list's path, the address and port, and the errors so far.
#[derive(Debug)]
pub struct PendingConfig {
    pub users: Vec<(String, User)>,
    pub repository_list_path: String,
    pub address: String,
    pub port: u16,
    pub errors: Vec<ConfigError>,
}

/// Where loading the configuration stands after its main script.
#[derive(Debug)]
pub enum ConfigStage {
    /// Loading failed with these errors.
    Failed(Vec<ConfigError>),
    /// The repository list named in it is to be read next.
    Pending(PendingConfig),
}

fn load_users(entries: &Vec<(String, UserValues)>, errors: &mut Vec<ConfigError>) -> (r: Vec<(String, User)>)
    ensures
        r@ == users_of(entries@).0,
        final(errors)@ == old(errors)@ + users_of(entries@).1,
{
    let mut users: Vec<(String, User)> = Vec::new();
    let mut i: usize = 0;
    while i < entries.len()
        invariant
            i <= entries.len(),
            users@ == users_of(entries@.take(i as int)).0,
            errors@ == old(errors)@ + users_of(entries@.take(i as int)).1,
        decreases entries.len() - i,
    {
        proof {
            assert(entries@.take(i + 1).drop_last() =~= entries@.take(i as int));
            assert(entries@.take(i + 1).last() == entries@[i as int]);
        }
        match &entries[i].1.pub_key_path {
            Some(p) => {
                let user = User { name: entries[i].0.clone(), pub_key_path: p.clone() };
                insert_entry(&mut users, entries[i].0.clone(), user);
            },
            None => {
                errors.push(ConfigError::InvalidUserPubKeyPath { name: entries[i].0.clone() });
                assert(errors@ =~= old(errors)@ + users_of(entries@.take(i + 1)).1);
            },
        }
        i = i + 1;
    }
    assert(entries@.take(i as int) =~= entries@);
    users
}

/// Takes in the daemon's configuration script at `path`, as `run` gives
/// it. Errors that stop the loading: the file cannot be read, the script
/// does not parse (its message) or fails otherwise, the standard libraries
/// cannot be loaded, `users` is not a table, `server_address` is not a
/// string, `server_port` is not a port number, and, after the users were
/// read, `repository_list` is not a string. Users without a
/// `pub_key_path` are left out, each with an error.
pub fn init_config(path: &String, run: ConfigRun<ConfigValues>) -> (r: ConfigStage)
    ensures
        match run {
            ConfigRun::Unreadable => r matches ConfigStage::Failed(es)
                && es@ == seq![ConfigError::FailedToLoadFileForConfig { path: *path }],
            ConfigRun::Failed(ScriptFailure::Syntax { message }) => r matches ConfigStage::Failed(es)
                && es@ == seq![ConfigError::LuaErrorForConfig { message }],
            ConfigRun::Failed(_) => r matches ConfigStage::Failed(es) && es@ == seq![ConfigError::LuaUnknownErrorForConfig],
            ConfigRun::LibsUnavailable => r matches ConfigStage::Failed(es) && es@ == seq![ConfigError::FailedToLoadLuaLibs],
            ConfigRun::Ran(g) => match (g.users, g.server_address, g.server_port) {
                (None, _, _) => r matches ConfigStage::Failed(es) && es@ == seq![ConfigError::FailedToLoadUsers],
                (Some(_), None, _) => r matches ConfigStage::Failed(es) && es@ == seq![ConfigError::NoAddress],
                (Some(_), Some(_), None) => r matches ConfigStage::Failed(es) && es@ == seq![ConfigError::NoPort],
                (Some(u), Some(address), Some(port)) => match g.repository_list {
                    None => r matches ConfigStage::Failed(es) && es@ == users_of(u@).1.push(ConfigError::NoRepositoryList),
                    Some(list) => r matches ConfigStage::Pending(p) && p.users@ == users_of(u@).0
                        && p.errors@ == users_of(u@).1 && p.repository_list_path == list && p.address == address
                        && p.port == port,
                },
            },
        },
{
    let g = match run {
        ConfigRun::Unreadable => {
            return ConfigStage::Failed(vec![ConfigError::FailedToLoadFileForConfig { path: path.clone() }]);
        },
        ConfigRun::Failed(ScriptFailure::Syntax { message }) => {
            return ConfigStage::Failed(vec![ConfigError::LuaErrorForConfig { message }]);
        },
        ConfigRun::Failed(_) => {
            return ConfigStage::Failed(vec![ConfigError::LuaUnknownErrorForConfig]);
        },
        ConfigRun::LibsUnavailable => {
            return ConfigStage::Failed(vec![ConfigError::FailedToLoadLuaLibs]);
        },
        ConfigRun::Ran(g) => g,
    };
    let user_entries = match g.users {
        Some(u) => u,
        None => {
            return ConfigStage::Failed(vec![ConfigError::FailedToLoadUsers]);
        },
    };
    let address = match g.server_address {
        Some(a) => a,
        None => {
            return ConfigStage::Failed(vec![ConfigError::NoAddress]);
        },
    };
    let port = match g.server_port {
        Some(p) => p,
        None => {
            return ConfigStage::Failed(vec![ConfigError::NoPort]);
        },
    };
    let mut errors: Vec<ConfigError> = Vec::new();
    let users = load_users(&user_entries, &mut errors);
    assert(errors@ =~= users_of(user_entries@).1);
    match g.repository_list {
        None => {
            errors.push(ConfigError::NoRepositoryList);
            ConfigStage::Failed(errors)
        },
        Some(repository_list_path) => ConfigStage::Pending(
            PendingConfig { users, repository_list_path, address, port, errors },
        ),
    }
}

/// Finishes loading with the repository list, as `run` gives it. Fails
/// with the errors so far when the list cannot be loaded (and the error
/// why) or when any error occurred; otherwise the configuration has the
/// users, the repositories stored under their names, the list's path, the
/// address and the port.
pub fn complete_config(pending: PendingConfig, run: ScriptRun<Option<Vec<(String, RepositoryValues)>>>) -> (r: Result<Config, Vec<ConfigError>>)
    ensures
        match list_result(pending.repository_list_path, run) {
            (Err(e), _) => r matches Err(es) && es@ == pending.errors@.push(e),
            (Ok(t), more) => if (pending.errors@ + more).len() > 0 {
                r matches Err(es) && es@ == pending.errors@ + more
            } else {
                r matches Ok(c) && {
                    &&& c.users@ == pending.users@
                    &&& repositories_view(c.repositories@) == t
                    &&& named_by_key(c.repositories@)
                    &&& c.repository_list_path == pending.repository_list_path
                    &&& c.address == pending.address
                    &&& c.port == pending.port
                }
            },
        },
{
    let PendingConfig { users, repository_list_path, address, port, errors } = pending;
    let mut errors = errors;
    let repositories = match load_repositories(&repository_list_path, run, &mut errors) {
        Ok(list) => list,
        Err(error) => {
            errors.push(error);
            return Err(errors);
        },
    };
    if errors.len() > 0 {
        return Err(errors);
    }
    Ok(Config { users, repository_list_path, repositories, address, port })
}

} // verus!
