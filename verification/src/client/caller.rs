//! The client's side of the conversation with the daemon: authenticating
//! with a signed access key and opening a transfer session.

use vstd::prelude::*;
use vstd::string::StringSliceAdditionalSpecFns;
use std::sync::Arc;
use crate::aio::{IOError, compose_path_dir_and_name, composed, extract_path_dir_and_name, split_dir_name};
use crate::client::config::{Binding, Config, User, user_view, users_view};
use crate::config::{find_index, lookup, str_eq};
use crate::filepipe::{RepositoryFile, StreamType, file_view};
use crate::key_gen::{ed25519_sign, ed25519_signature};
use crate::text::append_str;

verus! {

/// Why a request to the daemon failed.
#[derive(Clone, Debug)]
pub enum SenderError {
    UserDoesNotExist { username: String },
    FailedToAuthenticate { message: Option<String> },
    FailedToInitializeStream { message: String },
    IOError { error: IOError },
}

/// The access key the daemon hands out, as bytes.
pub type AccessKey = [u8; 16];

/// The key of a transfer session.
pub type SessionKey = String;

/// How many files each kind of operation touches.
#[derive(Clone, Copy, Debug)]
pub struct FileActionCounters {
    pub moved: usize,
    pub copied: usize,
    pub network: usize,
    pub deleted: usize,
}

/// What the daemon asks of the client after it received the listing: the
/// paths whose contents are to be sent, and the temporary paths to use
/// (temporary path, original path).
#[derive(Debug)]
pub struct FileActions {
    pub counters: FileActionCounters,
    pub transfer: Vec<String>,
    pub temps: Vec<(String, String)>,
}

/// An opened transfer session: its key, the daemon's requests, its
/// direction, and the files whose contents are to be sent, named as the
/// daemon expects them.
#[derive(Debug)]
pub struct OpenStreamRequestInfo {
    pub session_key: SessionKey,
    pub actions: FileActions,
    pub stream_type: StreamType,
    pub filtered_entries_for_network: Vec<RepositoryFile>,
}

/// The client's state: its configuration, the binding it works on, and the
/// key of the session it opened, if any.
#[derive(Debug)]
pub struct ClientState {
    pub config: Config,
    pub current_binding: Arc<Binding>,
    pub session_key: Option<SessionKey>,
}

/// A string field of a JSON reply: `None` when the body is no JSON,
/// `Some(None)` without the field, `Some(Some(None))` when it is not a
/// string.
pub type JsonField = Option<Option<Option<String>>>;

/// The daemon's reply to a request for an access key.
#[derive(Debug)]
pub enum ChallengeReply {
    /// The request could not be sent.
    Unreachable,
    /// A status other than success, and the reply's `error` field.
    Refused(JsonField),
    /// Success, and the reply's `accessKey` field.
    Accepted(JsonField),
}

/// The daemon's reply to a signed access key.
#[derive(Debug)]
pub enum SignatureReply {
    Unreachable,
    Refused,
    /// Success, but the body could not be read.
    Unreadable,
    Accepted,
}

/// A signed access key, ready to be sent.
#[derive(Debug)]
pub struct SignedChallenge {
    /// Where to send it.
    pub url: String,
    /// The access key, as the daemon sent it.
    pub access_key: String,
    /// The access key's bytes.
    pub key_bytes: AccessKey,
    /// The signature of the access key's bytes.
    pub signature: Vec<u8>,
}

/// The message of a failed authentication.
pub open spec fn auth_failure(e: SenderError) -> Option<Seq<char>> {
    match e {
        SenderError::FailedToAuthenticate { message: Some(m) } => Some(m@),
        _ => None,
    }
}

fn auth_error(message: &str) -> (r: SenderError)
    ensures
        auth_failure(r) == Some(message@),
{
    SenderError::FailedToAuthenticate { message: Some(message.to_owned()) }
}

fn stream_error(message: &str) -> (r: SenderError)
    ensures
        r matches SenderError::FailedToInitializeStream { message: m } && m@ == message@,
{
    SenderError::FailedToInitializeStream { message: message.to_owned() }
}

/// The access key's bytes, when it has exactly 16.
pub fn access_key_bytes(key: &str) -> (r: Option<AccessKey>)
    ensures
        match r {
            Some(b) => key.spec_bytes().len() == 16 && b@ == key.spec_bytes(),
            None => key.spec_bytes().len() != 16,
        },
{
    let bytes = key.as_bytes();
    if bytes.len() != 16 {
        return None;
    }
    let mut r = [0u8; 16];
    let mut i: usize = 0;
    while i < 16
        invariant
            i <= 16,
            bytes@.len() == 16,
            r@.len() == 16,
            forall|j: int| 0 <= j < i ==> r@[j] == bytes@[j],
        decreases 16 - i,
    {
        r[i] = bytes[i];
        i = i + 1;
    }
    assert(r@ =~= bytes@);
    Some(r)
}

/// The long message of a refusal without a readable reason.
pub open spec fn unexplained_refusal() -> Seq<char> {
    "an error has occurred during the post request, additionally, the client couldn't extract the error message"@
}

/// The URL under which the daemon answers requests of `path` kind for the
/// binding's remote.
pub open spec fn daemon_url(binding: Binding, path: Seq<char>) -> Seq<char> {
    binding.remote_address@ + path
}

impl ClientState {
    /// The user to authenticate as (the one named `username`, else the
    /// binding's default user) and where to ask for their access key:
    /// `<remote address>/a/<remote user name>`.
    pub fn begin_authentication(&self, username: Option<String>) -> (r: Result<(Arc<User>, String), SenderError>)
        ensures
            match username {
                Some(name) => match lookup(users_view(self.config.users@), name@) {
                    None => r == Err::<(Arc<User>, String), SenderError>(SenderError::UserDoesNotExist { username: name }),
                    Some(u) => r matches Ok((user, url)) && user_view(*user) == u
                        && url@ == daemon_url(*self.current_binding, "/a/"@ + u.0),
                },
                None => r matches Ok((user, url)) && user == self.current_binding.default_user
                    && url@ == daemon_url(*self.current_binding, "/a/"@ + user.remote_username@),
            },
    {
        let user = match username {
            Some(name) => {
                proof {
                    lemma_users_lookup(self.config.users@, name@);
                }
                match find_index(&self.config.users, name.as_str()) {
                    Some(i) => crate::config::arc_clone(&self.config.users[i].1),
                    None => {
                        return Err(SenderError::UserDoesNotExist { username: name });
                    },
                }
            },
            None => crate::config::arc_clone(&self.current_binding.default_user),
        };
        let mut url = self.current_binding.remote_address.clone();
        append_str(&mut url, "/a/");
        append_str(&mut url, user.remote_username.as_str());
        Ok((user, url))
    }

    /// Reads the daemon's reply to the request for an access key and signs
    /// the key with the user's secret key; the signed key goes to
    /// `<remote address>/a`.
    pub fn on_challenge_reply(&self, user: &User, reply: ChallengeReply) -> (r: Result<SignedChallenge, SenderError>)
        ensures
            match reply {
                ChallengeReply::Unreachable => r matches Err(e)
                    && auth_failure(e) == Some("the client couldn't fetch the post request"@),
                ChallengeReply::Refused(None) => r matches Err(e)
                    && auth_failure(e) == Some("an unknown error has occurred during the post request"@),
                ChallengeReply::Refused(Some(Some(Some(m)))) => r matches Err(e) && auth_failure(e) == Some(m@),
                ChallengeReply::Refused(Some(_)) => r matches Err(e) && auth_failure(e) == Some(unexplained_refusal()),
                ChallengeReply::Accepted(None) => r matches Err(e)
                    && auth_failure(e) == Some("the server sent an invalid response"@),
                ChallengeReply::Accepted(Some(None)) => r matches Err(e)
                    && auth_failure(e) == Some("the expected key from the server was not provided"@),
                ChallengeReply::Accepted(Some(Some(None))) => r matches Err(e)
                    && auth_failure(e) == Some("failed to read the access key sent by the server"@),
                ChallengeReply::Accepted(Some(Some(Some(k)))) => if vstd::utf8::encode_utf8(k@).len() != 16 {
                    r matches Err(e) && auth_failure(e) == Some(
                        "an error occurred on the client side during the byte conversion for the access key"@,
                    )
                } else {
                    r matches Ok(c) && c.access_key@ == k@ && c.key_bytes@ == vstd::utf8::encode_utf8(k@)
                        && c.signature@ == ed25519_signature(user.priv_key@, vstd::utf8::encode_utf8(k@))
                        && c.url@ == daemon_url(*self.current_binding, "/a"@)
                },
            },
    {
        let key = match reply {
            ChallengeReply::Unreachable => {
                return Err(auth_error("the client couldn't fetch the post request"));
            },
            ChallengeReply::Refused(None) => {
                return Err(auth_error("an unknown error has occurred during the post request"));
            },
            ChallengeReply::Refused(Some(Some(Some(m)))) => {
                return Err(SenderError::FailedToAuthenticate { message: Some(m) });
            },
            ChallengeReply::Refused(Some(_)) => {
                return Err(
                    auth_error(
                        "an error has occurred during the post request, additionally, the client couldn't extract the error message",
                    ),
                );
            },
            ChallengeReply::Accepted(None) => {
                return Err(auth_error("the server sent an invalid response"));
            },
            ChallengeReply::Accepted(Some(None)) => {
                return Err(auth_error("the expected key from the server was not provided"));
            },
            ChallengeReply::Accepted(Some(Some(None))) => {
                return Err(auth_error("failed to read the access key sent by the server"));
            },
            ChallengeReply::Accepted(Some(Some(Some(k)))) => k,
        };
        let key_bytes = match access_key_bytes(key.as_str()) {
            Some(b) => b,
            None => {
                return Err(auth_error("an error occurred on the client side during the byte conversion for the access key"));
            },
        };
        let signature = ed25519_sign(&user.priv_key, &key_bytes);
        let mut url = self.current_binding.remote_address.clone();
        append_str(&mut url, "/a");
        Ok(SignedChallenge { url, access_key: key, key_bytes, signature: signature_vec(&signature) })
    }
}

fn signature_vec(s: &[u8; 64]) -> (r: Vec<u8>)
    ensures
        r@ == s@,
{
    let mut r: Vec<u8> = Vec::new();
    let mut i: usize = 0;
    while i < 64
        invariant
            i <= 64,
            r@ == s@.take(i as int),
        decreases 64 - i,
    {
        r.push(s[i]);
        assert(r@ =~= s@.take(i + 1));
        i = i + 1;
    }
    assert(s@.take(64) =~= s@);
    r
}

proof fn lemma_users_lookup(t: Seq<(String, Arc<User>)>, k: Seq<char>)
    ensures
        lookup(users_view(t), k) == match lookup(t, k) {
            Some(u) => Some(user_view(*u)),
            None => None,
        },
    decreases t.len(),
{
    if t.len() > 0 {
        assert(users_view(t).drop_first() =~= users_view(t.drop_first()));
        assert(users_view(t)[0] == (t[0].0, user_view(*t[0].1)));
        lemma_users_lookup(t.drop_first(), k);
    }
}

/// Reads the daemon's reply to the signed access key: the access key's
/// bytes when it accepted it.
pub fn on_signature_reply(key_bytes: AccessKey, reply: SignatureReply) -> (r: Result<AccessKey, SenderError>)
    ensures
        match reply {
            SignatureReply::Unreachable => r matches Err(e) && auth_failure(e) == Some("the client couldn't fetch the put request"@),
            SignatureReply::Accepted => r == Ok::<AccessKey, SenderError>(key_bytes),
            _ => r matches Err(e) && auth_failure(e) == Some("corrupted access key"@),
        },
{
    match reply {
        SignatureReply::Unreachable => Err(auth_error("the client couldn't fetch the put request")),
        SignatureReply::Accepted => Ok(key_bytes),
        _ => Err(auth_error("corrupted access key")),
    }
}

/// The daemon's reply to a request to open a transfer session.
#[derive(Debug)]
pub enum SessionReply {
    Unreachable,
    /// A status other than success, and the reply's text if it could be read.
    Refused(Option<String>),
    /// Success, and the reply's `key` field, when it is a string (`None`:
    /// the body is no JSON).
    Accepted(Option<String>),
}

/// The daemon's reply to the client's file listing.
#[derive(Debug)]
pub enum ListingReply {
    Unreachable,
    /// A status other than success, and the reply's text.
    Refused(String),
    /// Success, and the requests it holds, if it could be read as such.
    Accepted(Option<FileActions>),
}

/// Where a transfer session of the binding is opened, and its listing sent:
/// `<remote address>/hu/<remote repository name>`.
pub fn open_stream_url(binding: &Binding) -> (r: String)
    ensures
        r@ == daemon_url(*binding, "/hu/"@ + binding.remote_repository_name@),
{
    let mut url = binding.remote_address.clone();
    append_str(&mut url, "/hu/");
    append_str(&mut url, binding.remote_repository_name.as_str());
    url
}

/// Reads the daemon's reply to the request to open a session: the session
/// key.
pub fn on_session_reply(reply: SessionReply) -> (r: Result<SessionKey, SenderError>)
    ensures
        match reply {
            SessionReply::Unreachable => r matches Err(SenderError::FailedToInitializeStream { message }) && message@ == "idk1"@,
            SessionReply::Refused(Some(t)) => r matches Err(SenderError::FailedToInitializeStream { message }) && message@ == t@,
            SessionReply::Refused(None) => r matches Err(SenderError::FailedToInitializeStream { message })
                && message@ == "unknown"@,
            SessionReply::Accepted(None) => r matches Err(SenderError::FailedToInitializeStream { message }) && message@ == "idk2"@,
            SessionReply::Accepted(Some(k)) => r == Ok::<SessionKey, SenderError>(k),
        },
{
    match reply {
        SessionReply::Unreachable => Err(stream_error("idk1")),
        SessionReply::Refused(Some(t)) => Err(SenderError::FailedToInitializeStream { message: t }),
        SessionReply::Refused(None) => Err(stream_error("unknown")),
        SessionReply::Accepted(None) => Err(stream_error("idk2")),
        SessionReply::Accepted(Some(k)) => Ok(k),
    }
}

/// Reads the daemon's reply to the file listing: its requests.
pub fn on_listing_reply(reply: ListingReply) -> (r: Result<FileActions, SenderError>)
    ensures
        match reply {
            ListingReply::Unreachable => r matches Err(SenderError::FailedToInitializeStream { message }) && message@ == "idk1"@,
            ListingReply::Refused(t) => r matches Err(SenderError::FailedToInitializeStream { message }) && message@ == t@,
            ListingReply::Accepted(None) => r matches Err(SenderError::FailedToInitializeStream { message }) && message@ == "idk2"@,
            ListingReply::Accepted(Some(a)) => r == Ok::<FileActions, SenderError>(a),
        },
{
    match reply {
        ListingReply::Unreachable => Err(stream_error("idk1")),
        ListingReply::Refused(t) => Err(SenderError::FailedToInitializeStream { message: t }),
        ListingReply::Accepted(None) => Err(stream_error("idk2")),
        ListingReply::Accepted(Some(a)) => Ok(a),
    }
}

/// The temporary path the daemon chose for the file at `path`: the first
/// one recorded for it.
pub open spec fn temp_for(temps: Seq<(String, String)>, path: Seq<char>) -> Option<Seq<char>>
    decreases temps.len(),
{
    if temps.len() == 0 {
        None
    } else if temps[0].1@ == path {
        Some(temps[0].0@)
    } else {
        temp_for(temps.drop_first(), path)
    }
}

/// A file as the daemon expects it: under its temporary path, if it has one.
pub open spec fn network_file(f: (Seq<char>, Seq<char>, u64, Seq<char>), temps: Seq<(String, String)>) -> (
    Seq<char>,
    Seq<char>,
    u64,
    Seq<char>,
) {
    match temp_for(temps, composed(f.0, f.1)) {
        Some(t) => (split_dir_name(t).0, split_dir_name(t).1, f.2, f.3),
        None => f,
    }
}

/// The files whose contents the daemon asked for, in order, each as the
/// daemon expects it.
pub open spec fn network_files(
    fs: Seq<(Seq<char>, Seq<char>, u64, Seq<char>)>,
    temps: Seq<(String, String)>,
    transfer: Seq<String>,
) -> Seq<(Seq<char>, Seq<char>, u64, Seq<char>)>
    decreases fs.len(),
{
    if fs.len() == 0 {
        Seq::empty()
    } else {
        let rest = network_files(fs.drop_last(), temps, transfer);
        let g = network_file(fs.last(), temps);
        if exists|i: int| 0 <= i < transfer.len() && (#[trigger] transfer[i])@ == composed(g.0, g.1) {
            rest.push(g)
        } else {
            rest
        }
    }
}

fn find_temp(temps: &Vec<(String, String)>, path: &str) -> (r: Option<String>)
    ensures
        match r {
            Some(t) => temp_for(temps@, path@) == Some(t@),
            None => temp_for(temps@, path@) is None,
        },
{
    let mut i: usize = 0;
    proof {
        assert(temps@.skip(0) =~= temps@);
    }
    while i < temps.len()
        invariant
            i <= temps.len(),
            temp_for(temps@, path@) == temp_for(temps@.skip(i as int), path@),
        decreases temps.len() - i,
    {
        proof {
            assert(temps@.skip(i as int)[0] == temps@[i as int]);
            assert(temps@.skip(i as int).drop_first() =~= temps@.skip(i + 1));
        }
        if str_eq(temps[i].1.as_str(), path) {
            return Some(temps[i].0.clone());
        }
        i = i + 1;
    }
    None
}

fn contains_path(transfer: &Vec<String>, path: &str) -> (r: bool)
    ensures
        r == exists|i: int| 0 <= i < transfer@.len() && (#[trigger] transfer@[i])@ == path@,
{
    let mut i: usize = 0;
    while i < transfer.len()
        invariant
            i <= transfer.len(),
            forall|j: int| 0 <= j < i ==> (#[trigger] transfer@[j])@ != path@,
        decreases transfer.len() - i,
    {
        if str_eq(transfer[i].as_str(), path) {
            return true;
        }
        i = i + 1;
    }
    false
}

/// The files whose contents the daemon asked for (`actions.transfer`), each
/// renamed to the temporary path the daemon chose for it, if any.
pub fn filtered_entries_for_network(entries: &Vec<RepositoryFile>, actions: &FileActions) -> (r: Vec<RepositoryFile>)
    ensures
        r@.map_values(|f: RepositoryFile| file_view(f)) == network_files(
            entries@.map_values(|f: RepositoryFile| file_view(f)),
            actions.temps@,
            actions.transfer@,
        ),
{
    let ghost fv = entries@.map_values(|f: RepositoryFile| file_view(f));
    let mut out: Vec<RepositoryFile> = Vec::new();
    let mut i: usize = 0;
    while i < entries.len()
        invariant
            i <= entries.len(),
            fv == entries@.map_values(|f: RepositoryFile| file_view(f)),
            out@.map_values(|f: RepositoryFile| file_view(f)) == network_files(fv.take(i as int), actions.temps@, actions.transfer@),
        decreases entries.len() - i,
    {
        proof {
            assert(fv.take(i + 1).drop_last() =~= fv.take(i as int));
            assert(fv.take(i + 1).last() == file_view(entries@[i as int]));
        }
        let entry = &entries[i];
        let entry_path = compose_path_dir_and_name(entry.path_dir.as_str(), entry.name.as_str());
        let renamed = match find_temp(&actions.temps, entry_path.as_str()) {
            Some(temp) => {
                let (path_dir, name) = extract_path_dir_and_name(temp.as_str());
                RepositoryFile { path_dir, name, size: entry.size, hash: entry.hash.clone() }
            },
            None => entry.clone(),
        };
        let path = compose_path_dir_and_name(renamed.path_dir.as_str(), renamed.name.as_str());
        if contains_path(&actions.transfer, path.as_str()) {
            let ghost before = out@;
            out.push(renamed);
            assert(out@.map_values(|f: RepositoryFile| file_view(f)) =~= before.map_values(|f: RepositoryFile| file_view(f)).push(
                file_view(renamed),
            ));
        }
        i = i + 1;
    }
    assert(fv.take(i as int) =~= fv);
    out
}

impl ClientState {
    /// Records the opened session and describes it: its key, the daemon's
    /// requests, the direction, and the files to send (see
    /// `filtered_entries_for_network`).
    pub fn finish_open_stream(
        &mut self,
        stream_type: StreamType,
        session_key: SessionKey,
        actions: FileActions,
        entries: &Vec<RepositoryFile>,
    ) -> (r: OpenStreamRequestInfo)
        ensures
            final(self).session_key == Some(session_key),
            final(self).config == old(self).config,
            final(self).current_binding == old(self).current_binding,
            r.session_key == session_key,
            r.stream_type == stream_type,
            r.actions == actions,
            r.filtered_entries_for_network@.map_values(|f: RepositoryFile| file_view(f)) == network_files(
                entries@.map_values(|f: RepositoryFile| file_view(f)),
                actions.temps@,
                actions.transfer@,
            ),
    {
        self.session_key = Some(session_key.clone());
        let filtered_entries_for_network = filtered_entries_for_network(entries, &actions);
        OpenStreamRequestInfo { session_key, actions, stream_type, filtered_entries_for_network }
    }
}

impl ClientState {
    /// Asks to cancel the open session: refused when no session was
    /// opened.
    pub fn send_cancel_stream_request(&self) -> (r: Result<(), ()>)
        ensures
            r is Ok <==> self.session_key is Some,
    {
        match &self.session_key {
            Some(_) => Ok(()),
            None => Err(()),
        }
    }
}

/// A file sent over the network keeps the size and the hash of the listed
/// file it comes from; only its directory and name may change.
pub proof fn lemma_network_file_keeps_contents(f: (Seq<char>, Seq<char>, u64, Seq<char>), temps: Seq<(String, String)>)
    ensures
        network_file(f, temps).2 == f.2,
        network_file(f, temps).3 == f.3,
{
}

/// Every file picked for the network is one the daemon asked for, by the
/// path it is sent under, and has the size and the hash of one of the
/// listed files.
pub proof fn lemma_network_files_keep_contents(
    fs: Seq<(Seq<char>, Seq<char>, u64, Seq<char>)>,
    temps: Seq<(String, String)>,
    transfer: Seq<String>,
)
    ensures
        forall|i: int| 0 <= i < network_files(fs, temps, transfer).len() ==> {
            let g = #[trigger] network_files(fs, temps, transfer)[i];
            &&& exists|j: int| 0 <= j < fs.len() && g.2 == fs[j].2 && g.3 == fs[j].3
            &&& exists|k: int| 0 <= k < transfer.len() && (#[trigger] transfer[k])@ == composed(g.0, g.1)
        },
    decreases fs.len(),
{
    if fs.len() > 0 {
        let d = fs.drop_last();
        lemma_network_files_keep_contents(d, temps, transfer);
        let rest = network_files(d, temps, transfer);
        let out = network_files(fs, temps, transfer);
        let g0 = network_file(fs.last(), temps);
        if exists|k: int| 0 <= k < transfer.len() && (#[trigger] transfer[k])@ == composed(g0.0, g0.1) {
            assert(out == rest.push(g0));
        } else {
            assert(out == rest);
        }
        assert forall|i: int| 0 <= i < out.len() implies {
            let g = #[trigger] out[i];
            &&& exists|j: int| 0 <= j < fs.len() && g.2 == fs[j].2 && g.3 == fs[j].3
            &&& exists|k: int| 0 <= k < transfer.len() && (#[trigger] transfer[k])@ == composed(g.0, g.1)
        } by {
            if i < rest.len() {
                assert(out[i] == rest[i]);
                let g = rest[i];
                let j = choose|j: int| 0 <= j < d.len() && g.2 == d[j].2 && g.3 == d[j].3;
                assert(d[j] == fs[j]);
            } else {
                let g = network_file(fs.last(), temps);
                assert(out[i] == g);
                assert(fs[fs.len() - 1] == fs.last());
            }
        }
    }
}

} // verus!
