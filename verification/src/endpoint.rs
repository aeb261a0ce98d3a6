//! The daemon's bookkeeping of transfer sessions and of the access keys that
//! users sign to authenticate. Times are milliseconds since the Unix epoch.

use vstd::prelude::*;
use vstd::string::StringSliceAdditionalSpecFns;
use std::sync::Arc;
use crate::config::{User, keys_distinct, named_by_key, arc_clone, find_repository, find_access, find_index, lookup, lemma_lookup_some, lemma_first_index_absent};
use crate::filepipe::{Repository, RepositoryAccess, RepositoryFile};
pub use crate::filepipe::StreamType;
use crate::key_gen::{generate_random_string, is_random_key, ed25519_signature_valid, verify_signature, key_number, numbered_key,
    lemma_numbered_key_is_key, lemma_numbered_key_injective, lemma_pow36_covers_usize};

pub mod a;
pub mod hu;
pub mod ss;

verus! {

/// The body of an answer: nothing, or a JSON object with one string field.
#[derive(Debug)]
pub enum Body {
    Empty,
    Field { name: String, value: String },
}

/// The body of an answer as plain values.
pub enum BodyView {
    Empty,
    Field(Seq<char>, Seq<char>),
}

/// An HTTP answer of the daemon: its status and its body.
#[derive(Debug)]
pub struct Answer {
    pub status: u16,
    pub body: Body,
}

impl View for Answer {
    type V = (u16, BodyView);

    open spec fn view(&self) -> (u16, BodyView) {
        (self.status, match self.body {
            Body::Empty => BodyView::Empty,
            Body::Field { name, value } => BodyView::Field(name@, value@),
        })
    }
}

/// An answer with an empty body.
pub fn empty_answer(status: u16) -> (r: Answer)
    ensures
        r@ == (status, BodyView::Empty),
{
    Answer { status, body: Body::Empty }
}

/// An answer whose body is `{"<name>": "<value>"}`.
pub fn field_answer(status: u16, name: &str, value: String) -> (r: Answer)
    ensures
        r@ == (status, BodyView::Field(name@, value@)),
{
    Answer { status, body: Body::Field { name: name.to_owned(), value } }
}

/// An answer whose body is `{"error": "<message>"}`.
pub fn error_answer(status: u16, message: &str) -> (r: Answer)
    ensures
        r@ == (status, BodyView::Field("error"@, message@)),
{
    field_answer(status, "error", message.to_owned())
}

/// How long an upload session lives at most.
pub const SESSION_LIFETIME_MS: i64 = 86_400_000;

/// How long a session may stay idle.
pub const SESSION_IDLE_MS: i64 = 1_800_000;

/// How long an access key may be used.
pub const ACCESS_KEY_LIFETIME_MS: i64 = 300_000;

/// The largest time the daemon handles (the end of the calendar range that
/// the time library supports), so that adding a lifetime cannot overflow.
pub const TIME_MAX_MS: i64 = 8_210_266_876_799_999;

/// A transfer session: its direction, its repository, when it ends, when it
/// was last used, and the file list the client announced.
#[derive(Debug)]
pub struct Session {
    pub stream_type: StreamType,
    pub repository: Arc<Repository>,
    pub expire: i64,
    pub last_activity: i64,
    pub file_list: Vec<RepositoryFile>,
}

/// A session as plain values.
pub type SessionView = (StreamType, Arc<Repository>, i64, i64, Seq<RepositoryFile>);

pub open spec fn session_view(s: Session) -> SessionView {
    (s.stream_type, s.repository, s.expire, s.last_activity, s.file_list@)
}

fn clone_files(v: &Vec<RepositoryFile>) -> (r: Vec<RepositoryFile>)
    ensures
        r@ == v@,
{
    let mut r: Vec<RepositoryFile> = Vec::new();
    let mut i: usize = 0;
    while i < v.len()
        invariant
            i <= v.len(),
            r@ == v@.take(i as int),
        decreases v.len() - i,
    {
        r.push(v[i].clone());
        assert(r@ =~= v@.take(i + 1));
        i = i + 1;
    }
    assert(v@.take(i as int) =~= v@);
    r
}

impl Clone for Session {
    /// A copy of the session.
    fn clone(&self) -> (r: Session)
        ensures
            session_view(r) == session_view(*self),
    {
        Session {
            stream_type: self.stream_type,
            repository: arc_clone(&self.repository),
            expire: self.expire,
            last_activity: self.last_activity,
            file_list: clone_files(&self.file_list),
        }
    }
}

impl Session {
    /// Records activity at `now`.
    pub fn update_last_activity(&mut self, now: i64)
        ensures
            final(self).last_activity == now,
            final(self).stream_type == old(self).stream_type,
            final(self).repository == old(self).repository,
            final(self).expire == old(self).expire,
            final(self).file_list@ == old(self).file_list@,
    {
        self.last_activity = now;
    }
}

/// A session is expired after its end, or after a long enough idle time.
pub open spec fn session_expired(s: SessionView, now: i64) -> bool {
    now > s.2 || now > s.3 + SESSION_IDLE_MS
}

/// A challenge handed to a user: it must be signed before it expires.
#[derive(Debug)]
pub struct AccessKey {
    user: User,
    signed: bool,
    expire: i64,
}

impl AccessKey {
    /// The user the key was handed to.
    pub closed spec fn user_view(&self) -> User {
        self.user
    }

    /// Whether the key was signed.
    pub closed spec fn signed_view(&self) -> bool {
        self.signed
    }

    /// When the key ends.
    pub closed spec fn expire_view(&self) -> i64 {
        self.expire
    }

    /// The user the key was handed to.
    pub fn user(&self) -> (r: User)
        ensures
            r == self.user_view(),
    {
        self.user.clone()
    }
}

/// An access key is expired a grace period after its end.
pub open spec fn access_key_expired(expire: i64, now: i64) -> bool {
    now > expire + ACCESS_KEY_LIFETIME_MS
}

/// Things that expire.
pub trait Expirable {
    fn is_expired(&self, now: i64) -> bool;
}

impl Expirable for Session {
    fn is_expired(&self, now: i64) -> (r: bool)
        ensures
            r == session_expired(session_view(*self), now),
    {
        now > self.expire || (now as i128) > (self.last_activity as i128) + (SESSION_IDLE_MS as i128)
    }
}

impl Expirable for AccessKey {
    fn is_expired(&self, now: i64) -> (r: bool)
        ensures
            r == access_key_expired(self.expire_view(), now),
    {
        (now as i128) > (self.expire as i128) + (ACCESS_KEY_LIFETIME_MS as i128)
    }
}

/// The session is an upload session of the repository named `name`.
pub open spec fn is_upstream_for(s: SessionView, name: Seq<char>) -> bool {
    s.0 == StreamType::UpStream && s.1.name@ == name
}

/// No repository has two upload sessions.
pub open spec fn single_upstream(v: Seq<(Seq<char>, SessionView)>) -> bool {
    forall|i: int, j: int| 0 <= i < v.len() && 0 <= j < v.len() && i != j
        && (#[trigger] v[i]).1.0 == StreamType::UpStream && (#[trigger] v[j]).1.0 == StreamType::UpStream
        ==> v[i].1.1.name@ != v[j].1.1.name@
}

/// The keys of a table, in order.
pub open spec fn table_keys<V>(entries: Seq<(String, V)>) -> Seq<Seq<char>> {
    entries.map_values(|e: (String, V)| e.0@)
}

/// A table of `n` entries cannot hold all of the `n + 1` first numbered
/// keys.
proof fn lemma_numbered_keys_not_all_taken(keys: Seq<Seq<char>>, len: nat)
    requires
        len >= 16,
        keys.len() <= usize::MAX,
    ensures
        exists|i: int| 0 <= i <= keys.len() && !keys.contains(#[trigger] numbered_key(i as nat, len)),
{
    broadcast use vstd::seq_lib::seq_to_set_is_finite;

    let n = keys.len();
    if forall|i: int| 0 <= i <= n ==> keys.contains(#[trigger] numbered_key(i as nat, len)) {
        let cands = Seq::new((n + 1) as nat, |i: int| numbered_key(i as nat, len));
        lemma_pow36_covers_usize(len);
        assert forall|a: int, b: int| 0 <= a < cands.len() && 0 <= b < cands.len() && a != b implies cands[a]
            != cands[b] by {
            if cands[a] == cands[b] {
                lemma_numbered_key_injective(a as nat, b as nat, len);
            }
        }
        assert(cands.no_duplicates());
        cands.unique_seq_to_set();
        keys.lemma_cardinality_of_set();
        assert forall|x: Seq<char>| cands.to_set().contains(x) implies keys.to_set().contains(x) by {
            let i = choose|i: int| 0 <= i < cands.len() && cands[i] == x;
            assert(x == numbered_key(i as nat, len));
        }
        vstd::set_lib::lemma_len_subset(cands.to_set(), keys.to_set());
    }
}

/// The first numbered key of `len` characters (see `numbered_key`) under
/// which nothing is stored in `entries`; there always is one.
fn unused_numbered_key<V>(entries: &Vec<(String, V)>, len: usize) -> (r: String)
    requires
        len >= 16,
    ensures
        is_random_key(r@, len as nat),
        forall|i: int| 0 <= i < entries@.len() ==> (#[trigger] entries@[i]).0@ != r@,
{
    let n = entries.len();
    let ghost keys = table_keys(entries@);
    let mut j: usize = 0;
    while j < n
        invariant
            j <= n,
            n == entries@.len(),
            keys == table_keys(entries@),
            forall|i: int| 0 <= i < j ==> keys.contains(#[trigger] numbered_key(i as nat, len as nat)),
        decreases n - j,
    {
        let key = key_number(j, len);
        match find_index(entries, key.as_str()) {
            None => {
                proof {
                    lemma_first_index_absent(entries@, key@);
                    lemma_numbered_key_is_key(j as nat, len as nat);
                }
                return key;
            },
            Some(k) => {
                assert(keys[k as int] == key@);
            },
        }
        j = j + 1;
    }
    let key = key_number(n, len);
    match find_index(entries, key.as_str()) {
        None => {
            proof {
                lemma_first_index_absent(entries@, key@);
                lemma_numbered_key_is_key(n as nat, len as nat);
            }
        },
        Some(k) => {
            proof {
                assert(keys[k as int] == key@);
                lemma_numbered_keys_not_all_taken(keys, len as nat);
                let i = choose|i: int| 0 <= i <= keys.len() && !keys.contains(#[trigger] numbered_key(i as nat, len as nat));
                if i < n {
                    assert(keys.contains(numbered_key(i as nat, len as nat)));
                }
                assert(false);
            }
        },
    }
    key
}

/// What registering a new entry under a chosen key gave.
#[derive(Debug, PartialEq, Eq)]
pub enum Registration {
    /// The entry is not allowed.
    Refused,
    /// An entry with that key exists.
    KeyTaken,
    /// The entry was recorded under this key.
    Registered(String),
}

/// The open sessions, by session key.
pub struct SessionStore {
    sessions: Vec<(String, Session)>,
}

impl SessionStore {
    /// The sessions as (key, session) pairs.
    pub closed spec fn view(&self) -> Seq<(Seq<char>, SessionView)> {
        self.sessions@.map_values(|e: (String, Session)| (e.0@, session_view(e.1)))
    }

    #[verifier::type_invariant]
    closed spec fn inv(self) -> bool {
        keys_distinct(self.sessions@)
    }

    /// No sessions.
    pub fn new() -> (r: SessionStore)
        ensures
            r.view().len() == 0,
    {
        SessionStore { sessions: Vec::new() }
    }

    fn contains_key(&self, key: &str) -> (r: bool)
        ensures
            r == exists|i: int| 0 <= i < self.view().len() && (#[trigger] self.view()[i]).0 == key@,
    {
        let r = find_index(&self.sessions, key);
        proof {
            if let Some(i) = r {
                assert(self.view()[i as int].0 == key@);
            } else {
                lemma_lookup_none(self.sessions@, key@);
                assert forall|i: int| 0 <= i < self.view().len() implies (#[trigger] self.view()[i]).0 != key@ by {
                    assert(self.view()[i].0 == self.sessions@[i].0@);
                }
            }
        }
        r.is_some()
    }

    /// An upload session of the repository named `name`, with its key.
    pub fn find_active_upstream(&self, name: &str) -> (r: Option<(String, Session)>)
        ensures
            r is None <==> !exists|i: int| 0 <= i < self.view().len() && is_upstream_for((#[trigger] self.view()[i]).1, name@),
            r matches Some(p) ==> exists|i: int| 0 <= i < self.view().len()
                && (#[trigger] self.view()[i]) == (p.0@, session_view(p.1)) && is_upstream_for(self.view()[i].1, name@),
    {
        let mut i: usize = 0;
        while i < self.sessions.len()
            invariant
                i <= self.sessions.len() == self.view().len(),
                forall|j: int| 0 <= j < i ==> !is_upstream_for((#[trigger] self.view()[j]).1, name@),
            decreases self.sessions.len() - i,
        {
            let s = &self.sessions[i].1;
            assert(self.view()[i as int] == (self.sessions@[i as int].0@, session_view(*s)));
            if s.stream_type == StreamType::UpStream && crate::config::str_eq(s.repository.name.as_str(), name) {
                return Some((self.sessions[i].0.clone(), s.clone()));
            }
            i = i + 1;
        }
        None
    }

    /// Opens an upload session for the repository named `repository_name`
    /// under the key `key`: refused when no such repository is configured or
    /// when it already has an upload session; `KeyTaken` when a session
    /// already has that key. The new session lives a day and starts idle at
    /// `now`.
    pub fn register_upstream_session_with_key(
        &mut self,
        repositories: &Vec<(String, Arc<Repository>)>,
        repository_name: &str,
        key: String,
        now: i64,
    ) -> (r: Registration)
        requires
            now <= TIME_MAX_MS,
        ensures
            if lookup(repositories@, repository_name@) is None || exists|i: int| 0 <= i < old(self).view().len()
                && is_upstream_for((#[trigger] old(self).view()[i]).1, repository_name@) {
                r == Registration::Refused && final(self).view() == old(self).view()
            } else if exists|i: int| 0 <= i < old(self).view().len() && (#[trigger] old(self).view()[i]).0 == key@ {
                r == Registration::KeyTaken && final(self).view() == old(self).view()
            } else {
                r == Registration::Registered(key) && final(self).view() == old(self).view().push((key@, (StreamType::UpStream,
                    lookup(repositories@, repository_name@).unwrap(), (now + SESSION_LIFETIME_MS) as i64, now, Seq::empty())))
            },
            named_by_key(repositories@) && single_upstream(old(self).view()) ==> single_upstream(final(self).view()),
    {
        let repository = match find_repository(repositories, repository_name) {
            Some(repository) => repository,
            None => {
                return Registration::Refused;
            },
        };
        if self.find_active_upstream(repository_name).is_some() {
            return Registration::Refused;
        }
        if self.contains_key(key.as_str()) {
            return Registration::KeyTaken;
        }
        let session = Session {
            stream_type: StreamType::UpStream,
            repository,
            expire: now + SESSION_LIFETIME_MS,
            last_activity: now,
            file_list: Vec::new(),
        };
        let entry = (key.clone(), session);
        let ghost ev = (entry.0@, session_view(entry.1));
        self.insert_new(entry);
        proof {
            assert(ev.1 == (StreamType::UpStream, repository, (now + SESSION_LIFETIME_MS) as i64, now, Seq::<RepositoryFile>::empty()));
            if named_by_key(repositories@) && single_upstream(old(self).view()) {
                lemma_lookup_some(repositories@, repository_name@);
                let v = self.view();
                let n = old(self).view().len();
                assert(v[n as int] == ev);
                assert forall|a: int, b: int| 0 <= a < v.len() && 0 <= b < v.len() && a != b
                    && (#[trigger] v[a]).1.0 == StreamType::UpStream && (#[trigger] v[b]).1.0 == StreamType::UpStream
                    implies v[a].1.1.name@ != v[b].1.1.name@ by {
                    if a == n {
                        assert(v[b] == old(self).view()[b]);
                        assert(!is_upstream_for(old(self).view()[b].1, repository_name@));
                    } else if b == n {
                        assert(v[a] == old(self).view()[a]);
                        assert(!is_upstream_for(old(self).view()[a].1, repository_name@));
                    } else {
                        assert(v[a] == old(self).view()[a]);
                        assert(v[b] == old(self).view()[b]);
                    }
                }
            }
        }
        Registration::Registered(key)
    }

    /// Opens an upload session for the repository named `repository_name`
    /// (see `register_upstream_session_with_key`) under a fresh random key of
    /// 64 characters. Should `u64::MAX` random keys in a row all be taken,
    /// the first free numbered key of 64 characters is used instead, so a
    /// configured repository without an upload session always gets one.
    pub fn register_upstream_session(
        &mut self,
        repositories: &Vec<(String, Arc<Repository>)>,
        repository_name: &str,
        now: i64,
    ) -> (r: Result<String, ()>)
        requires
            now <= TIME_MAX_MS,
        ensures
            r is Err <==> (lookup(repositories@, repository_name@) is None || exists|i: int| 0 <= i < old(self).view().len()
                && is_upstream_for((#[trigger] old(self).view()[i]).1, repository_name@)),
            r is Err ==> final(self).view() == old(self).view(),
            named_by_key(repositories@) && single_upstream(old(self).view()) ==> single_upstream(final(self).view()),
            r matches Ok(key) ==> {
                &&& is_random_key(key@, 64)
                &&& !exists|i: int| 0 <= i < old(self).view().len() && (#[trigger] old(self).view()[i]).0 == key@
                &&& final(self).view() == old(self).view().push((key@, (StreamType::UpStream,
                    lookup(repositories@, repository_name@).unwrap(), (now + SESSION_LIFETIME_MS) as i64, now, Seq::empty())))
                &&& index_of_key(final(self).view(), key@) == Some(old(self).view().len() as int)
            },
    {
        let mut attempts: u64 = 0;
        while attempts < u64::MAX
            invariant
                self.view() == old(self).view(),
                now <= TIME_MAX_MS,
            decreases u64::MAX - attempts,
        {
            let key = generate_random_string(64);
            let ghost k = key;
            match self.register_upstream_session_with_key(repositories, repository_name, key, now) {
                Registration::Refused => {
                    return Err(());
                },
                Registration::KeyTaken => {},
                Registration::Registered(key) => {
                    assert(key == k);
                    proof {
                        lemma_fresh_key_found(old(self).view(), key@, (StreamType::UpStream,
                            lookup(repositories@, repository_name@).unwrap(), (now + SESSION_LIFETIME_MS) as i64, now,
                            Seq::<RepositoryFile>::empty()));
                    }
                    return Ok(key);
                },
            }
            attempts = attempts + 1;
        }
        let key = unused_numbered_key(&self.sessions, 64);
        let ghost k = key;
        proof {
            assert forall|i: int| 0 <= i < old(self).view().len() implies (#[trigger] old(self).view()[i]).0 != k@ by {
                assert(old(self).view()[i].0 == self.sessions@[i].0@);
            }
        }
        match self.register_upstream_session_with_key(repositories, repository_name, key, now) {
            Registration::Registered(key) => {
                assert(key == k);
                proof {
                    lemma_fresh_key_found(old(self).view(), key@, (StreamType::UpStream,
                        lookup(repositories@, repository_name@).unwrap(), (now + SESSION_LIFETIME_MS) as i64, now,
                        Seq::<RepositoryFile>::empty()));
                }
                Ok(key)
            },
            _ => Err(()),
        }
    }

    fn insert_new(&mut self, entry: (String, Session))
        requires
            !exists|i: int| 0 <= i < old(self).view().len() && (#[trigger] old(self).view()[i]).0 == entry.0@,
        ensures
            final(self).view() == old(self).view().push((entry.0@, session_view(entry.1))),
    {
        proof {
            use_type_invariant(&*self);
        }
        let ghost old_sessions = self.sessions@;
        let mut sessions = Vec::new();
        std::mem::swap(&mut sessions, &mut self.sessions);
        proof {
            assert forall|i: int| 0 <= i < old_sessions.len() implies (#[trigger] old_sessions[i].0)@ != entry.0@ by {
                assert(old(self).view()[i].0 == old_sessions[i].0@);
            }
        }
        sessions.push(entry);
        assert(keys_distinct(sessions@));
        self.sessions = sessions;
        assert(self.view() =~= old(self).view().push((entry.0@, session_view(entry.1))));
    }

    /// The session stored under `key`, with the key; nothing without a key.
    pub fn get_session_by_key_in_header_value(&self, key: Option<&str>) -> (r: (Option<String>, Option<Session>))
        ensures
            match key {
                None => r.0 is None && r.1 is None,
                Some(k) => r.0 matches Some(rk) && rk@ == k@ && match index_of_key(self.view(), k@) {
                    None => r.1 is None,
                    Some(i) => r.1 matches Some(s) && session_view(s) == self.view()[i].1,
                },
            },
    {
        let key = match key {
            Some(k) => k,
            None => {
                return (None, None);
            },
        };
        (Some(key.to_owned()), self.get_session_by_key(key))
    }

    /// The session stored under `key`.
    pub fn get_session_by_key(&self, key: &str) -> (r: Option<Session>)
        ensures
            match index_of_key(self.view(), key@) {
                None => r is None,
                Some(i) => r matches Some(s) && session_view(s) == self.view()[i].1,
            },
    {
        proof {
            use_type_invariant(self);
        }
        match find_index(&self.sessions, key) {
            Some(i) => {
                let s = self.sessions[i].1.clone();
                proof {
                    lemma_session_index(self.sessions@, i as int);
                }
                assert(self.view()[i as int] == (key@, session_view(s)));
                Some(s)
            },
            None => {
                proof {
                    lemma_lookup_none(self.sessions@, key@);
                    assert forall|i: int| 0 <= i < self.view().len() implies (#[trigger] self.view()[i]).0 != key@ by {
                        assert(self.view()[i].0 == self.sessions@[i].0@);
                    }
                    lemma_index_of_key_none(self.view(), key@);
                }
                None
            },
        }
    }

    /// Records the file list announced for the session `key` and marks the
    /// session active at `now`; false when there is no such session.
    pub fn set_file_list(&mut self, key: &str, files: Vec<RepositoryFile>, now: i64) -> (r: bool)
        ensures
            r == exists|i: int| 0 <= i < old(self).view().len() && (#[trigger] old(self).view()[i]).0 == key@,
            final(self).view().len() == old(self).view().len(),
            single_upstream(old(self).view()) ==> single_upstream(final(self).view()),
            index_of_key(final(self).view(), key@) == index_of_key(old(self).view(), key@),
            match index_of_key(old(self).view(), key@) {
                None => final(self).view() == old(self).view(),
                Some(i) => final(self).view() == old(self).view().update(i, (key@, (old(self).view()[i].1.0,
                    old(self).view()[i].1.1, old(self).view()[i].1.2, now, files@))),
            },
            forall|i: int| 0 <= i < old(self).view().len() ==> #[trigger] final(self).view()[i] == if old(self).view()[i].0 == key@ {
                (key@, (old(self).view()[i].1.0, old(self).view()[i].1.1, old(self).view()[i].1.2, now, files@))
            } else {
                old(self).view()[i]
            },
    {
        proof {
            use_type_invariant(&*self);
        }
        match find_index(&self.sessions, key) {
            Some(i) => {
                let ghost old_s = self.sessions@;
                let mut sessions = Vec::new();
                std::mem::swap(&mut sessions, &mut self.sessions);
                let (k, mut s) = sessions.remove(i);
                s.update_last_activity(now);
                s.file_list = files;
                sessions.insert(i, (k, s));
                proof {
                    assert forall|a: int, b: int| 0 <= a < sessions@.len() && 0 <= b < sessions@.len() && a != b
                        implies (#[trigger] sessions@[a].0)@ != (#[trigger] sessions@[b].0)@ by {
                        assert(sessions@[a].0 == old_s[a].0);
                        assert(sessions@[b].0 == old_s[b].0);
                    }
                }
                self.sessions = sessions;
                proof {
                    assert forall|j: int| 0 <= j < old(self).view().len() implies #[trigger] self.view()[j] == if old(self).view()[j].0 == key@ {
                        (key@, (old(self).view()[j].1.0, old(self).view()[j].1.1, old(self).view()[j].1.2, now, files@))
                    } else {
                        old(self).view()[j]
                    } by {
                        assert(old(self).view()[j].0 == old_s[j].0@);
                        if j != i {
                            assert(self.sessions@[j] == old_s[j]);
                            assert(old_s[j].0@ != old_s[i as int].0@);
                        }
                    }
                    assert(old(self).view()[i as int].0 == key@);
                    lemma_session_index(old_s, i as int);
                    lemma_session_index(self.sessions@, i as int);
                    assert(self.view() =~= old(self).view().update(i as int, (key@, (old(self).view()[i as int].1.0,
                        old(self).view()[i as int].1.1, old(self).view()[i as int].1.2, now, files@))));
                    let ov = old(self).view();
                    let nv = self.view();
                    if single_upstream(ov) {
                        assert forall|a: int, b: int| 0 <= a < nv.len() && 0 <= b < nv.len() && a != b
                            && (#[trigger] nv[a]).1.0 == StreamType::UpStream && (#[trigger] nv[b]).1.0 == StreamType::UpStream
                            implies nv[a].1.1.name@ != nv[b].1.1.name@ by {
                            assert(nv[a].1.0 == ov[a].1.0 && nv[a].1.1 == ov[a].1.1);
                            assert(nv[b].1.0 == ov[b].1.0 && nv[b].1.1 == ov[b].1.1);
                        }
                    }
                }
                true
            },
            None => {
                proof {
                    lemma_lookup_none(self.sessions@, key@);
                    assert forall|j: int| 0 <= j < self.view().len() implies (#[trigger] self.view()[j]).0 != key@ by {
                        assert(self.view()[j].0 == self.sessions@[j].0@);
                    }
                    lemma_index_of_key_none(self.view(), key@);
                }
                false
            },
        }
    }

    /// Drops the sessions that are expired at `now`.
    pub fn remove_expired(&mut self, now: i64)
        ensures
            final(self).view() == old(self).view().filter(|e: (Seq<char>, SessionView)| !session_expired(e.1, now)),
            forall|i: int| 0 <= i < final(self).view().len() ==> !session_expired((#[trigger] final(self).view()[i]).1, now),
            single_upstream(old(self).view()) ==> single_upstream(final(self).view()),
    {
        proof {
            let keep = |e: (Seq<char>, SessionView)| !session_expired(e.1, now);
            broadcast use vstd::seq_lib::group_filter_ensures;
            if single_upstream(old(self).view()) {
                lemma_single_upstream_filter(old(self).view(), keep);
            }
        }
        proof {
            use_type_invariant(&*self);
        }
        let ghost old_s = self.sessions@;
        let ghost keep = |e: (Seq<char>, SessionView)| !session_expired(e.1, now);
        let mut sessions = Vec::new();
        std::mem::swap(&mut sessions, &mut self.sessions);
        let mut kept: Vec<(String, Session)> = Vec::new();
        let mut i: usize = 0;
        while i < sessions.len()
            invariant
                i <= sessions.len(),
                sessions@ == old_s,
                keys_distinct(old_s),
                forall|e: (Seq<char>, SessionView)| #[trigger] keep(e) == !session_expired(e.1, now),
                kept@.map_values(|e: (String, Session)| (e.0@, session_view(e.1)))
                    == old_s.map_values(|e: (String, Session)| (e.0@, session_view(e.1))).take(i as int).filter(keep),
                forall|j: int| 0 <= j < kept@.len() ==> exists|k: int| 0 <= k < i && (#[trigger] kept@[j]).0@ == (#[trigger] old_s[k]).0@,
                keys_distinct(kept@),
                forall|x: int, y: int| 0 <= x < kept@.len() && i <= y < old_s.len() ==> (#[trigger] kept@[x].0)@ != (#[trigger] old_s[y].0)@,
            decreases sessions.len() - i,
        {
            let ghost mv = old_s.map_values(|e: (String, Session)| (e.0@, session_view(e.1)));
            proof {
                assert(mv.take(i + 1) =~= mv.take(i as int).push(mv[i as int]));
                mv.take(i as int).lemma_filter_push(mv[i as int], keep);
            }
            if !sessions[i].1.is_expired(now) {
                let ghost ok = kept@;
                kept.push((sessions[i].0.clone(), sessions[i].1.clone()));
                proof {
                    assert(kept@.map_values(|e: (String, Session)| (e.0@, session_view(e.1)))
                        =~= ok.map_values(|e: (String, Session)| (e.0@, session_view(e.1))).push(mv[i as int]));
                    assert forall|a: int, b: int| 0 <= a < kept@.len() && 0 <= b < kept@.len() && a != b
                        implies (#[trigger] kept@[a].0)@ != (#[trigger] kept@[b].0)@ by {
                        if b == kept@.len() - 1 && a < ok.len() {
                            assert(ok[a].0@ != old_s[i as int].0@);
                        } else if a == kept@.len() - 1 && b < ok.len() {
                            assert(ok[b].0@ != old_s[i as int].0@);
                        }
                    }
                    assert forall|j: int| 0 <= j < kept@.len() implies exists|k: int| 0 <= k < i + 1 && (#[trigger] kept@[j]).0@ == (#[trigger] old_s[k]).0@ by {
                        if j == kept@.len() - 1 {
                            assert(kept@[j].0@ == old_s[i as int].0@);
                        } else {
                            assert(kept@[j] == ok[j]);
                        }
                    }
                    assert forall|x: int, y: int| 0 <= x < kept@.len() && i + 1 <= y < old_s.len() implies (#[trigger] kept@[x].0)@ != (#[trigger] old_s[y].0)@ by {
                        if x == kept@.len() - 1 {
                            assert(old_s[i as int].0@ != old_s[y].0@);
                        } else {
                            assert(kept@[x] == ok[x]);
                        }
                    }
                }
            }
            i = i + 1;
        }
        proof {
            let mv = old_s.map_values(|e: (String, Session)| (e.0@, session_view(e.1)));
            assert(mv.take(i as int) =~= mv);
        }
        self.sessions = kept;
    }
}

proof fn lemma_lookup_none<V>(entries: Seq<(String, V)>, key: Seq<char>)
    requires
        lookup(entries, key) is None,
    ensures
        forall|i: int| 0 <= i < entries.len() ==> (#[trigger] entries[i].0)@ != key,
    decreases entries.len(),
{
    if entries.len() > 0 {
        lemma_lookup_none(entries.drop_first(), key);
        assert forall|i: int| 0 <= i < entries.len() implies (#[trigger] entries[i].0)@ != key by {
            if i > 0 {
                assert(entries[i] == entries.drop_first()[i - 1]);
            }
        }
    }
}

/// Dropping sessions keeps the repositories' upload sessions single.
proof fn lemma_single_upstream_filter(v: Seq<(Seq<char>, SessionView)>, keep: spec_fn((Seq<char>, SessionView)) -> bool)
    requires
        single_upstream(v),
    ensures
        single_upstream(v.filter(keep)),
    decreases v.len(),
{
    if v.len() > 0 {
        let d = v.drop_last();
        let e = v.last();
        assert(v =~= d.push(e));
        assert forall|i: int, j: int| 0 <= i < d.len() && 0 <= j < d.len() && i != j
            && (#[trigger] d[i]).1.0 == StreamType::UpStream && (#[trigger] d[j]).1.0 == StreamType::UpStream
            implies d[i].1.1.name@ != d[j].1.1.name@ by {
            assert(d[i] == v[i] && d[j] == v[j]);
        }
        lemma_single_upstream_filter(d, keep);
        d.lemma_filter_push(e, keep);
        let fd = d.filter(keep);
        if keep(e) {
            let f = fd.push(e);
            assert forall|a: int, b: int| 0 <= a < f.len() && 0 <= b < f.len() && a != b
                && (#[trigger] f[a]).1.0 == StreamType::UpStream && (#[trigger] f[b]).1.0 == StreamType::UpStream
                implies f[a].1.1.name@ != f[b].1.1.name@ by {
                if a == fd.len() {
                    assert(fd.contains(fd[b]));
                    d.lemma_filter_contains_rev(keep, fd[b]);
                    let k = choose|k: int| 0 <= k < d.len() && d[k] == fd[b];
                    assert(v[k] == d[k]);
                    assert(v[v.len() - 1] == e);
                } else if b == fd.len() {
                    assert(fd.contains(fd[a]));
                    d.lemma_filter_contains_rev(keep, fd[a]);
                    let k = choose|k: int| 0 <= k < d.len() && d[k] == fd[a];
                    assert(v[k] == d[k]);
                    assert(v[v.len() - 1] == e);
                } else {
                    assert(f[a] == fd[a] && f[b] == fd[b]);
                }
            }
        }
    } else {
        assert(v.filter(keep) =~= v);
    }
}

/// An access key as plain values: its user, whether it was signed, its end.
pub type AccessKeyView = (User, bool, i64);

pub open spec fn access_key_view(k: AccessKey) -> AccessKeyView {
    (k.user_view(), k.signed_view(), k.expire_view())
}

impl Clone for AccessKey {
    fn clone(&self) -> (r: AccessKey)
        ensures
            access_key_view(r) == access_key_view(*self),
    {
        AccessKey { user: self.user.clone(), signed: self.signed, expire: self.expire }
    }
}

/// The outstanding access keys, by key.
pub struct AccessKeyStore {
    keys: Vec<(String, AccessKey)>,
}

impl AccessKeyStore {
    /// The access keys as (key, access key) pairs.
    pub closed spec fn view(&self) -> Seq<(Seq<char>, AccessKeyView)> {
        self.keys@.map_values(|e: (String, AccessKey)| (e.0@, access_key_view(e.1)))
    }

    #[verifier::type_invariant]
    closed spec fn inv(self) -> bool {
        keys_distinct(self.keys@)
    }

    /// No access keys.
    pub fn new() -> (r: AccessKeyStore)
        ensures
            r.view().len() == 0,
    {
        AccessKeyStore { keys: Vec::new() }
    }

    fn index_of(&self, key: &str) -> (r: Option<usize>)
        ensures
            match r {
                Some(i) => i < self.view().len() && self.view()[i as int].0 == key@,
                None => !exists|i: int| 0 <= i < self.view().len() && (#[trigger] self.view()[i]).0 == key@,
            },
    {
        let r = find_index(&self.keys, key);
        proof {
            if let Some(i) = r {
                assert(self.view()[i as int].0 == key@);
            } else {
                lemma_lookup_none(self.keys@, key@);
                assert forall|i: int| 0 <= i < self.view().len() implies (#[trigger] self.view()[i]).0 != key@ by {
                    assert(self.view()[i].0 == self.keys@[i].0@);
                }
            }
        }
        r
    }

    /// Hands the user named `username` the access key `key`, to be signed
    /// within the access key lifetime from `now`: refused for an unknown
    /// user; `KeyTaken` when the key is already handed out.
    pub fn issue_access_key_with_key(&mut self, users: &Vec<(String, User)>, username: &str, key: String, now: i64) -> (r: Registration)
        requires
            now <= TIME_MAX_MS,
        ensures
            if lookup(users@, username@) is None {
                r == Registration::Refused && final(self).view() == old(self).view()
            } else if exists|i: int| 0 <= i < old(self).view().len() && (#[trigger] old(self).view()[i]).0 == key@ {
                r == Registration::KeyTaken && final(self).view() == old(self).view()
            } else {
                r == Registration::Registered(key) && final(self).view() == old(self).view().push((key@, (lookup(users@,
                    username@).unwrap(), false, (now + ACCESS_KEY_LIFETIME_MS) as i64)))
            },
    {
        let user = match find_index(users, username) {
            Some(i) => users[i].1.clone(),
            None => {
                return Registration::Refused;
            },
        };
        if self.index_of(key.as_str()).is_some() {
            return Registration::KeyTaken;
        }
        let access_key = AccessKey { user, signed: false, expire: now + ACCESS_KEY_LIFETIME_MS };
        self.insert_new((key.clone(), access_key));
        Registration::Registered(key)
    }

    /// Hands the user named `username` a fresh random access key of 16
    /// characters (see `issue_access_key_with_key`); nothing for an unknown
    /// user. Should `u64::MAX` random keys in a row all be taken, the first
    /// free numbered key of 16 characters is used instead, so a known user
    /// always gets a key.
    pub fn issue_access_key(&mut self, users: &Vec<(String, User)>, username: &str, now: i64) -> (r: Option<String>)
        requires
            now <= TIME_MAX_MS,
        ensures
            r is None <==> lookup(users@, username@) is None,
            r is None ==> final(self).view() == old(self).view(),
            r matches Some(key) ==> {
                &&& is_random_key(key@, 16)
                &&& !exists|i: int| 0 <= i < old(self).view().len() && (#[trigger] old(self).view()[i]).0 == key@
                &&& final(self).view() == old(self).view().push((key@, (lookup(users@, username@).unwrap(), false,
                    (now + ACCESS_KEY_LIFETIME_MS) as i64)))
                &&& key_user(final(self).view(), key@) == lookup(users@, username@)
            },
    {
        let mut attempts: u64 = 0;
        while attempts < u64::MAX
            invariant
                self.view() == old(self).view(),
                now <= TIME_MAX_MS,
            decreases u64::MAX - attempts,
        {
            let key = generate_random_string(16);
            let ghost k = key;
            match self.issue_access_key_with_key(users, username, key, now) {
                Registration::Refused => {
                    return None;
                },
                Registration::KeyTaken => {},
                Registration::Registered(key) => {
                    assert(key == k);
                    proof {
                        lemma_fresh_key_found(old(self).view(), key@, (lookup(users@, username@).unwrap(), false,
                            (now + ACCESS_KEY_LIFETIME_MS) as i64));
                    }
                    return Some(key);
                },
            }
            attempts = attempts + 1;
        }
        let key = unused_numbered_key(&self.keys, 16);
        let ghost k = key;
        proof {
            assert forall|i: int| 0 <= i < old(self).view().len() implies (#[trigger] old(self).view()[i]).0 != k@ by {
                assert(old(self).view()[i].0 == self.keys@[i].0@);
            }
        }
        match self.issue_access_key_with_key(users, username, key, now) {
            Registration::Registered(key) => {
                assert(key == k);
                proof {
                    lemma_fresh_key_found(old(self).view(), key@, (lookup(users@, username@).unwrap(), false,
                        (now + ACCESS_KEY_LIFETIME_MS) as i64));
                }
                Some(key)
            },
            _ => None,
        }
    }

    fn insert_new(&mut self, entry: (String, AccessKey))
        requires
            !exists|i: int| 0 <= i < old(self).view().len() && (#[trigger] old(self).view()[i]).0 == entry.0@,
        ensures
            final(self).view() == old(self).view().push((entry.0@, access_key_view(entry.1))),
    {
        proof {
            use_type_invariant(&*self);
        }
        let ghost old_keys = self.keys@;
        let mut keys = Vec::new();
        std::mem::swap(&mut keys, &mut self.keys);
        proof {
            assert forall|i: int| 0 <= i < old_keys.len() implies (#[trigger] old_keys[i].0)@ != entry.0@ by {
                assert(old(self).view()[i].0 == old_keys[i].0@);
            }
        }
        keys.push(entry);
        assert(keys_distinct(keys@));
        self.keys = keys;
        assert(self.view() =~= old(self).view().push((entry.0@, access_key_view(entry.1))));
    }

    /// The user an access key was handed to.
    pub fn access_key_user(&self, key: &str) -> (r: Option<User>)
        ensures
            r == key_user(self.view(), key@),
    {
        proof {
            use_type_invariant(self);
        }
        match self.index_of(key) {
            Some(i) => {
                let u = self.keys[i].1.user();
                proof {
                    lemma_index_of_key_some(self.keys@, i as int);
                }
                assert(self.view()[i as int].1.0 == u);
                Some(u)
            },
            None => {
                proof {
                    lemma_index_of_key_none(self.view(), key@);
                }
                None
            },
        }
    }

    /// The answer to a signed access key, as an HTTP status: 401 for an
    /// unknown key, 400 when the signature is not 64 bytes, 200 when it is a
    /// valid signature of the key's bytes under `public_key` (the key of the
    /// key's user), 403 otherwise.
    pub fn signature_status(&self, key: &str, signature: &[u8], public_key: &[u8; 32]) -> (r: u16)
        ensures
            r == if !exists|i: int| 0 <= i < self.view().len() && (#[trigger] self.view()[i]).0 == key@ {
                401u16
            } else if signature@.len() != 64 {
                400u16
            } else if ed25519_signature_valid(public_key@, key.spec_bytes(), signature@) {
                200u16
            } else {
                403u16
            },
    {
        if self.index_of(key).is_none() {
            return 401;
        }
        if signature.len() != 64 {
            return 400;
        }
        let sig = signature_bytes(signature);
        match verify_signature(public_key, key.as_bytes(), &sig) {
            Ok(()) => 200,
            Err(_) => 403,
        }
    }

    /// Consumes the access key `key` and, when it was signed and has not
    /// expired at `now`, gives the rights of its user on the repository named
    /// `repository_name`. The key is removed whenever it exists.
    pub fn authenticate(
        &mut self,
        key: Option<&str>,
        repositories: &Vec<(String, Arc<Repository>)>,
        repository_name: &str,
        now: i64,
    ) -> (r: Option<RepositoryAccess>)
        ensures
            match key {
                None => r is None && final(self).view() == old(self).view(),
                Some(k) => !exists|i: int| 0 <= i < final(self).view().len() && (#[trigger] final(self).view()[i]).0 == k@,
            },
            match key {
                None => true,
                Some(k) => {
                    &&& r == access_for(old(self).view(), k@, repositories@, repository_name@, now)
                    &&& match index_of_key(old(self).view(), k@) {
                        None => final(self).view() == old(self).view(),
                        Some(i) => final(self).view() == old(self).view().remove(i),
                    }
                },
            },
    {
        let key = match key {
            Some(k) => k,
            None => {
                return None;
            },
        };
        proof {
            use_type_invariant(&*self);
        }
        let i = match self.index_of(key) {
            Some(i) => i,
            None => {
                proof {
                    lemma_index_of_key_none(old(self).view(), key@);
                }
                return None;
            },
        };
        proof {
            lemma_index_of_key_some(self.keys@, i as int);
        }
        let ghost old_keys = self.keys@;
        let mut keys = Vec::new();
        std::mem::swap(&mut keys, &mut self.keys);
        let (_k, access_key) = keys.remove(i);
        proof {
            assert forall|a: int, b: int| 0 <= a < keys@.len() && 0 <= b < keys@.len() && a != b
                implies (#[trigger] keys@[a].0)@ != (#[trigger] keys@[b].0)@ by {
                let a2 = if a < i { a } else { a + 1 };
                let b2 = if b < i { b } else { b + 1 };
                assert(keys@[a] == old_keys[a2]);
                assert(keys@[b] == old_keys[b2]);
            }
        }
        self.keys = keys;
        assert(self.view() =~= old(self).view().remove(i as int));
        proof {
            assert forall|j: int| 0 <= j < self.view().len() implies (#[trigger] self.view()[j]).0 != key@ by {
                let j2 = if j < i { j } else { j + 1 };
                assert(self.view()[j] == old(self).view()[j2]);
                assert(old(self).view()[j2].0 == old_keys[j2].0@);
                assert(old_keys[i as int].0@ == key@);
            }
        }
        if access_key.is_expired(now) {
            return None;
        }
        if !access_key.signed {
            return None;
        }
        let repository = match find_repository(repositories, repository_name) {
            Some(repository) => repository,
            None => {
                return None;
            },
        };
        find_access(&repository.access_list, access_key.user.name.as_str())
    }

    /// Drops the access keys that are expired at `now`.
    pub fn remove_expired(&mut self, now: i64)
        ensures
            final(self).view() == old(self).view().filter(|e: (Seq<char>, AccessKeyView)| !access_key_expired(e.1.2, now)),
            forall|i: int| 0 <= i < final(self).view().len() ==> !access_key_expired((#[trigger] final(self).view()[i]).1.2, now),
    {
        proof {
            broadcast use vstd::seq_lib::group_filter_ensures;
        }
        proof {
            use_type_invariant(&*self);
        }
        let ghost old_s = self.keys@;
        let ghost keep = |e: (Seq<char>, AccessKeyView)| !access_key_expired(e.1.2, now);
        let mut keys = Vec::new();
        std::mem::swap(&mut keys, &mut self.keys);
        let mut kept: Vec<(String, AccessKey)> = Vec::new();
        let mut i: usize = 0;
        while i < keys.len()
            invariant
                i <= keys.len(),
                keys@ == old_s,
                keys_distinct(old_s),
                forall|e: (Seq<char>, AccessKeyView)| #[trigger] keep(e) == !access_key_expired(e.1.2, now),
                kept@.map_values(|e: (String, AccessKey)| (e.0@, access_key_view(e.1)))
                    == old_s.map_values(|e: (String, AccessKey)| (e.0@, access_key_view(e.1))).take(i as int).filter(keep),
                keys_distinct(kept@),
                forall|x: int, y: int| 0 <= x < kept@.len() && i <= y < old_s.len() ==> (#[trigger] kept@[x].0)@ != (#[trigger] old_s[y].0)@,
            decreases keys.len() - i,
        {
            let ghost mv = old_s.map_values(|e: (String, AccessKey)| (e.0@, access_key_view(e.1)));
            proof {
                assert(mv.take(i + 1) =~= mv.take(i as int).push(mv[i as int]));
                mv.take(i as int).lemma_filter_push(mv[i as int], keep);
            }
            if !keys[i].1.is_expired(now) {
                let ghost ok = kept@;
                kept.push((keys[i].0.clone(), keys[i].1.clone()));
                proof {
                    assert(kept@.map_values(|e: (String, AccessKey)| (e.0@, access_key_view(e.1)))
                        =~= ok.map_values(|e: (String, AccessKey)| (e.0@, access_key_view(e.1))).push(mv[i as int]));
                    assert forall|a: int, b: int| 0 <= a < kept@.len() && 0 <= b < kept@.len() && a != b
                        implies (#[trigger] kept@[a].0)@ != (#[trigger] kept@[b].0)@ by {
                        if b == kept@.len() - 1 && a < ok.len() {
                            assert(ok[a].0@ != old_s[i as int].0@);
                        } else if a == kept@.len() - 1 && b < ok.len() {
                            assert(ok[b].0@ != old_s[i as int].0@);
                        }
                    }
                    assert forall|x: int, y: int| 0 <= x < kept@.len() && i + 1 <= y < old_s.len() implies (#[trigger] kept@[x].0)@ != (#[trigger] old_s[y].0)@ by {
                        if x == kept@.len() - 1 {
                            assert(old_s[i as int].0@ != old_s[y].0@);
                        } else {
                            assert(kept@[x] == ok[x]);
                        }
                    }
                }
            }
            i = i + 1;
        }
        proof {
            let mv = old_s.map_values(|e: (String, AccessKey)| (e.0@, access_key_view(e.1)));
            assert(mv.take(i as int) =~= mv);
        }
        self.keys = kept;
    }
}

/// Index of the entry with key `k`, if any (the first).
pub open spec fn index_of_key<V>(s: Seq<(Seq<char>, V)>, k: Seq<char>) -> Option<int> {
    if exists|i: int| 0 <= i < s.len() && (#[trigger] s[i]).0 == k {
        Some(choose|i: int| 0 <= i < s.len() && (#[trigger] s[i]).0 == k)
    } else {
        None
    }
}

/// The user an access key was handed to.
pub open spec fn key_user(v: Seq<(Seq<char>, AccessKeyView)>, k: Seq<char>) -> Option<User> {
    match index_of_key(v, k) {
        Some(i) => Some(v[i].1.0),
        None => None,
    }
}

/// The rights an access key grants on the repository named `name` at `now`:
/// those of its user, when the key exists, was signed and has not expired.
pub open spec fn access_for(
    v: Seq<(Seq<char>, AccessKeyView)>,
    k: Seq<char>,
    repositories: Seq<(String, Arc<Repository>)>,
    name: Seq<char>,
    now: i64,
) -> Option<RepositoryAccess> {
    match index_of_key(v, k) {
        None => None,
        Some(i) => {
            let ak = v[i].1;
            if access_key_expired(ak.2, now) || !ak.1 {
                None
            } else {
                match lookup(repositories, name) {
                    None => None,
                    Some(repo) => lookup(repo.access_list@, ak.0.name@),
                }
            }
        },
    }
}

/// An entry stored under a key that was not in use is what that key finds.
pub proof fn lemma_fresh_key_found<V>(v: Seq<(Seq<char>, V)>, k: Seq<char>, e: V)
    requires
        !exists|i: int| 0 <= i < v.len() && (#[trigger] v[i]).0 == k,
    ensures
        index_of_key(v.push((k, e)), k) == Some(v.len() as int),
{
    let n = v.push((k, e));
    assert(n[v.len() as int].0 == k);
    let j = choose|j: int| 0 <= j < n.len() && (#[trigger] n[j]).0 == k;
    if j < v.len() {
        assert(n[j] == v[j]);
    }
}

proof fn lemma_index_of_key_none<V>(s: Seq<(Seq<char>, V)>, k: Seq<char>)
    requires
        !exists|i: int| 0 <= i < s.len() && (#[trigger] s[i]).0 == k,
    ensures
        index_of_key(s, k) is None,
{
}

proof fn lemma_index_of_key_some(keys: Seq<(String, AccessKey)>, i: int)
    requires
        keys_distinct(keys),
        0 <= i < keys.len(),
    ensures
        index_of_key(keys.map_values(|e: (String, AccessKey)| (e.0@, access_key_view(e.1))), keys[i].0@) == Some(i),
{
    let v = keys.map_values(|e: (String, AccessKey)| (e.0@, access_key_view(e.1)));
    assert(v[i].0 == keys[i].0@);
    let j = choose|j: int| 0 <= j < v.len() && (#[trigger] v[j]).0 == keys[i].0@;
    assert(v[j].0 == keys[j].0@);
}

proof fn lemma_session_index(sessions: Seq<(String, Session)>, i: int)
    requires
        keys_distinct(sessions),
        0 <= i < sessions.len(),
    ensures
        index_of_key(sessions.map_values(|e: (String, Session)| (e.0@, session_view(e.1))), sessions[i].0@) == Some(i),
{
    let v = sessions.map_values(|e: (String, Session)| (e.0@, session_view(e.1)));
    assert(v[i].0 == sessions[i].0@);
    let j = choose|j: int| 0 <= j < v.len() && (#[trigger] v[j]).0 == sessions[i].0@;
    assert(v[j].0 == sessions[j].0@);
}

/// The 64 bytes of a signature.
fn signature_bytes(b: &[u8]) -> (r: [u8; 64])
    requires
        b@.len() == 64,
    ensures
        r@ == b@,
{
    let mut r = [0u8; 64];
    let mut i: usize = 0;
    while i < 64
        invariant
            i <= 64,
            b@.len() == 64,
            r@.len() == 64,
            forall|j: int| 0 <= j < i ==> r@[j] == b@[j],
        decreases 64 - i,
    {
        r[i] = b[i];
        i = i + 1;
    }
    assert(r@ =~= b@);
    r
}

/// Drops every session and access key that is expired at `now`.
pub fn gc_keys(sessions: &mut SessionStore, access_keys: &mut AccessKeyStore, now: i64)
    ensures
        final(sessions).view() == old(sessions).view().filter(|e: (Seq<char>, SessionView)| !session_expired(e.1, now)),
        final(access_keys).view() == old(access_keys).view().filter(|e: (Seq<char>, AccessKeyView)| !access_key_expired(e.1.2, now)),
{
    access_keys.remove_expired(now);
    sessions.remove_expired(now);
}

} // verus!
