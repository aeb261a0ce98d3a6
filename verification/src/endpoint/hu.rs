//! Uploads: opening an upload session and receiving the client's file listing.

use vstd::prelude::*;
use std::sync::Arc;
use crate::config::{lookup, named_by_key};
use crate::endpoint::{
    AccessKeyStore, Answer, BodyView, SessionStore, SESSION_LIFETIME_MS, TIME_MAX_MS, access_for, error_answer,
    field_answer, index_of_key, is_upstream_for, session_expired, single_upstream,
};
use crate::filepipe::{
    ErrorKind, Repository, RepositoryFile, StreamType, UnpackError, file_view, unpack_repository_files_info, unpacked,
};
use crate::key_gen::is_random_key;
use crate::text::{append_str, decimal, u64_to_decimal};

verus! {

/// A request to open an upload session.
#[derive(Debug)]
pub struct PostReq {
    pub timestamp: String,
}

/// A file listing sent for an upload session (see
/// `pack_repository_files_info`).
#[derive(Debug)]
pub struct PutReq {
    pub files: String,
}

/// The rights that the access key in the `authorization` header grants on
/// the repository named `name` at `now`.
pub open spec fn granted(
    v: Seq<(Seq<char>, crate::endpoint::AccessKeyView)>,
    key: Option<&str>,
    repositories: Seq<(String, Arc<Repository>)>,
    name: Seq<char>,
    now: i64,
) -> Option<crate::filepipe::RepositoryAccess> {
    match key {
        None => None,
        Some(k) => access_for(v, k@, repositories, name, now),
    }
}

/// Opens an upload session for the repository named `name`, for the holder
/// of the access key `key`, which is used up (whatever the answer).
///
/// 401 when the key grants no rights on the repository, 403 when the rights
/// do not include writing its content, 403 when the repository already has
/// an upload session, and otherwise 200 with the new session's key under
/// `key`.
pub fn post(
    sessions: &mut SessionStore,
    access_keys: &mut AccessKeyStore,
    repositories: &Vec<(String, Arc<Repository>)>,
    key: Option<&str>,
    name: &str,
    now: i64,
) -> (r: Answer)
    requires
        now <= TIME_MAX_MS,
    ensures
        match key {
            None => final(access_keys).view() == old(access_keys).view(),
            Some(k) => match index_of_key(old(access_keys).view(), k@) {
                None => final(access_keys).view() == old(access_keys).view(),
                Some(i) => final(access_keys).view() == old(access_keys).view().remove(i),
            },
        },
        match granted(old(access_keys).view(), key, repositories@, name@, now) {
            None => r@ == (401u16, BodyView::Field("error"@, "invalid repository or invalid or missing access key"@))
                && final(sessions).view() == old(sessions).view(),
            Some(a) => if !a.content.write {
                r@ == (403u16, BodyView::Field("error"@, "user doesn't have enough permissions to perform this action"@))
                    && final(sessions).view() == old(sessions).view()
            } else if r@.0 == 200 {
                r@.1 matches BodyView::Field(n, k) && n == "key"@ && {
                    &&& is_random_key(k, 64)
                    &&& !exists|i: int| 0 <= i < old(sessions).view().len() && (#[trigger] old(sessions).view()[i]).0 == k
                    &&& final(sessions).view() == old(sessions).view().push((k, (StreamType::UpStream,
                        lookup(repositories@, name@).unwrap(), (now + SESSION_LIFETIME_MS) as i64, now, Seq::empty())))
                }
            } else {
                &&& r@ == (403u16, BodyView::Field("error"@, "there is already an active upstream session for this repository"@))
                &&& final(sessions).view() == old(sessions).view()
            },
        },
        (granted(old(access_keys).view(), key, repositories@, name@, now) matches Some(a) && a.content.write
            && exists|i: int| 0 <= i < old(sessions).view().len() && is_upstream_for((#[trigger] old(sessions).view()[i]).1, name@))
            ==> r@.0 == 403,
        (granted(old(access_keys).view(), key, repositories@, name@, now) matches Some(a) && a.content.write
            && !exists|i: int| 0 <= i < old(sessions).view().len() && is_upstream_for((#[trigger] old(sessions).view()[i]).1, name@))
            ==> r@.0 == 200,
        named_by_key(repositories@) && single_upstream(old(sessions).view()) ==> single_upstream(final(sessions).view()),
{
    let access = access_keys.authenticate(key, repositories, name, now);
    let access = match access {
        Some(access) => access,
        None => {
            return error_answer(401, "invalid repository or invalid or missing access key");
        },
    };
    if !access.content.write {
        return error_answer(403, "user doesn't have enough permissions to perform this action");
    }
    proof {
        crate::config::lemma_lookup_some(repositories@, name@);
    }
    match sessions.register_upstream_session(repositories, name, now) {
        Ok(session_key) => field_answer(200, "key", session_key),
        Err(()) => error_answer(403, "there is already an active upstream session for this repository"),
    }
}

/// The answer to a file listing that failed to parse: status and message.
pub open spec fn unpack_error_reply(e: (int, u8, ErrorKind)) -> (u16, Seq<char>) {
    let index = decimal(e.0 as nat);
    if e.1 == 1 {
        match e.2 {
            ErrorKind::InvalidRange => (
                400u16,
                "invalid second element for size in bytes, and unsigned number is expected, index: "@ + index,
            ),
            ErrorKind::InvalidType => (400u16, "expected second element for size in bytes, index: "@ + index),
        }
    } else if e.1 == 2 {
        match e.2 {
            ErrorKind::InvalidType => (400u16, "expected third element for hash, index: "@ + index),
            ErrorKind::InvalidRange => (500u16, "unknown, index: "@ + index),
        }
    } else {
        (500u16, "unknown, index: "@ + index)
    }
}

/// The answer to a file listing that failed to parse.
pub fn unpack_error_answer(error: &UnpackError) -> (r: Answer)
    ensures
        r@ == (unpack_error_reply((error.index as int, error.tuple_position, error.error_kind)).0, BodyView::Field(
            "error"@,
            unpack_error_reply((error.index as int, error.tuple_position, error.error_kind)).1,
        )),
{
    let (status, mut message) = if error.tuple_position == 1 {
        match error.error_kind {
            ErrorKind::InvalidRange => (
                400u16,
                "invalid second element for size in bytes, and unsigned number is expected, index: ".to_owned(),
            ),
            ErrorKind::InvalidType => (400u16, "expected second element for size in bytes, index: ".to_owned()),
        }
    } else if error.tuple_position == 2 {
        match error.error_kind {
            ErrorKind::InvalidType => (400u16, "expected third element for hash, index: ".to_owned()),
            ErrorKind::InvalidRange => (500u16, "unknown, index: ".to_owned()),
        }
    } else {
        (500u16, "unknown, index: ".to_owned())
    };
    let index = u64_to_decimal(error.index as u64);
    append_str(&mut message, index.as_str());
    error_answer(status, message.as_str())
}

/// A file of an upload to allocate on the daemon's disk: the directory to
/// create, the file to create, how it is named in messages, and its size.
#[derive(Debug)]
pub struct UtmpFile {
    pub dir: String,
    pub path: String,
    pub label: String,
    pub size: u64,
}

/// The work left after an accepted file listing: the repository's directory,
/// whose files are listed, and the files to allocate.
#[derive(Debug)]
pub struct UploadPlan {
    pub repository_path: String,
    pub files: Vec<UtmpFile>,
}

/// The allocation for a listed file of repository `name` at `path`:
/// `<path>/.fp/utmp/<dir>` is created, then `<that>/<name>`, labelled
/// `<repository name>/<dir>/<name>`.
pub open spec fn utmp_entry(name: Seq<char>, path: Seq<char>, f: (Seq<char>, Seq<char>, u64, Seq<char>)) -> (
    Seq<char>,
    Seq<char>,
    Seq<char>,
    u64,
) {
    let dir = path + "/.fp/utmp/"@ + f.0;
    (dir, dir + "/"@ + f.1, name + "/"@ + f.0 + "/"@ + f.1, f.2)
}

/// The allocations for the listed files, in order; empty files get none.
pub open spec fn utmp_entries(name: Seq<char>, path: Seq<char>, fs: Seq<(Seq<char>, Seq<char>, u64, Seq<char>)>) -> Seq<
    (Seq<char>, Seq<char>, Seq<char>, u64),
>
    decreases fs.len(),
{
    if fs.len() == 0 {
        Seq::empty()
    } else {
        let rest = utmp_entries(name, path, fs.drop_last());
        if fs.last().2 == 0 {
            rest
        } else {
            rest.push(utmp_entry(name, path, fs.last()))
        }
    }
}

/// The allocations as plain values.
pub open spec fn utmp_view(v: Seq<UtmpFile>) -> Seq<(Seq<char>, Seq<char>, Seq<char>, u64)> {
    v.map_values(|u: UtmpFile| (u.dir@, u.path@, u.label@, u.size))
}

fn utmp_file(name: &str, path: &str, f: &RepositoryFile) -> (r: UtmpFile)
    ensures
        (r.dir@, r.path@, r.label@, r.size) == utmp_entry(name@, path@, file_view(*f)),
{
    let mut dir = path.to_owned();
    append_str(&mut dir, "/.fp/utmp/");
    append_str(&mut dir, f.path_dir.as_str());
    let mut file = dir.clone();
    append_str(&mut file, "/");
    append_str(&mut file, f.name.as_str());
    let mut label = name.to_owned();
    append_str(&mut label, "/");
    append_str(&mut label, f.path_dir.as_str());
    append_str(&mut label, "/");
    append_str(&mut label, f.name.as_str());
    UtmpFile { dir, path: file, label, size: f.size }
}

/// The allocations for the files of a listing of repository `name` at `path`.
pub fn utmp_files(name: &str, path: &str, files: &Vec<RepositoryFile>) -> (r: Vec<UtmpFile>)
    ensures
        utmp_view(r@) == utmp_entries(name@, path@, files@.map_values(|f: RepositoryFile| file_view(f))),
{
    let ghost fv = files@.map_values(|f: RepositoryFile| file_view(f));
    let mut out: Vec<UtmpFile> = Vec::new();
    let mut i: usize = 0;
    while i < files.len()
        invariant
            i <= files.len(),
            fv == files@.map_values(|f: RepositoryFile| file_view(f)),
            utmp_view(out@) == utmp_entries(name@, path@, fv.take(i as int)),
        decreases files.len() - i,
    {
        proof {
            assert(fv.take(i + 1).drop_last() =~= fv.take(i as int));
            assert(fv.take(i + 1).last() == file_view(files@[i as int]));
        }
        if files[i].size != 0 {
            let u = utmp_file(name, path, &files[i]);
            let ghost before = out@;
            out.push(u);
            assert(utmp_view(out@) =~= utmp_view(before).push(utmp_entry(name@, path@, fv[i as int])));
        }
        i = i + 1;
    }
    assert(fv.take(i as int) =~= fv);
    out
}

/// What the daemon answers to a file listing for the session `k`, unless
/// it accepts it: 401 for a missing, unreadable or unknown key, 410 for an
/// expired session, 403 for a session that is not an upload, and the
/// listing's parse error.
pub open spec fn put_refusal(
    v: Seq<(Seq<char>, crate::endpoint::SessionView)>,
    key: Option<Option<&str>>,
    files: Seq<char>,
    now: i64,
) -> Option<(u16, Seq<char>)> {
    match key {
        Some(Some(k)) => match index_of_key(v, k@) {
            None => Some((401u16, "invalid or missing session key"@)),
            Some(i) => if session_expired(v[i].1, now) {
                Some((410u16, "session expired"@))
            } else if v[i].1.0 != StreamType::UpStream {
                Some((403u16, "invalid stream type"@))
            } else {
                match unpacked(files) {
                    Err(e) => Some(unpack_error_reply(e)),
                    Ok(_) => None,
                }
            },
        },
        _ => Some((401u16, "invalid or missing session key"@)),
    }
}

/// Receives the file listing `payload.files` of the upload session whose key is in
/// `key` (`None` inside: a header that is not visible ASCII).
///
/// When `put_refusal` gives a refusal, that is the answer and nothing
/// changes. Otherwise the listing is recorded as the session's file list,
/// the session is marked active at `now`, and the result is the work left:
/// the repository's directory and the files to allocate.
pub fn put(sessions: &mut SessionStore, key: Option<Option<&str>>, payload: &PutReq, now: i64) -> (r: Result<UploadPlan, Answer>)
    ensures
        match put_refusal(old(sessions).view(), key, payload.files@, now) {
            Some(refusal) => r matches Err(a) && a@ == (refusal.0, BodyView::Field("error"@, refusal.1))
                && final(sessions).view() == old(sessions).view(),
            None => key matches Some(Some(k)) && index_of_key(old(sessions).view(), k@) matches Some(i)
                && unpacked(payload.files@) matches Ok(fs) && {
                let s = old(sessions).view()[i].1;
                let nf = final(sessions).view()[i].1.4;
                &&& nf.map_values(|f: RepositoryFile| file_view(f)) == fs
                &&& final(sessions).view() == old(sessions).view().update(i, (k@, (s.0, s.1, s.2, now, nf)))
                &&& r matches Ok(plan) && plan.repository_path@ == s.1.path@
                    && utmp_view(plan.files@) == utmp_entries(s.1.name@, s.1.path@, fs)
            },
        },
{
    let k = match key {
        Some(Some(k)) => k,
        _ => {
            return Err(error_answer(401, "invalid or missing session key"));
        },
    };
    let session = match sessions.get_session_by_key(k) {
        Some(session) => session,
        None => {
            return Err(error_answer(401, "invalid or missing session key"));
        },
    };
    if crate::endpoint::Expirable::is_expired(&session, now) {
        return Err(error_answer(410, "session expired"));
    }
    if session.stream_type != StreamType::UpStream {
        return Err(error_answer(403, "invalid stream type"));
    }
    let listed = match unpack_repository_files_info(payload.files.as_str()) {
        Ok(listed) => listed,
        Err(error) => {
            return Err(unpack_error_answer(&error));
        },
    };
    let ghost before = sessions.view();
    sessions.set_file_list(k, listed, now);
    let session = match sessions.get_session_by_key(k) {
        Some(session) => session,
        None => {
            return Err(error_answer(500, "session died"));
        },
    };
    let plan = utmp_files(session.repository.name.as_str(), session.repository.path.as_str(), &session.file_list);
    Ok(UploadPlan { repository_path: session.repository.path.clone(), files: plan })
}

/// The answer when the repository's files could not be listed.
pub fn listing_failure() -> (r: Answer)
    ensures
        r@ == (500u16, BodyView::Field("error"@, "failed to fetch server files"@)),
{
    error_answer(500, "failed to fetch server files")
}

/// The answer when the file labelled `label` could not be created.
pub fn create_failure(label: &str) -> (r: Answer)
    ensures
        r@ == (500u16, BodyView::Field("error"@, "failed to create utmp file: "@ + label@)),
{
    let mut message = "failed to create utmp file: ".to_owned();
    append_str(&mut message, label);
    error_answer(500, message.as_str())
}

/// The answer when the file labelled `label` could not be given its size,
/// with the system's reason.
pub fn allocation_failure(label: &str, reason: &str) -> (r: Answer)
    ensures
        r@ == (500u16, BodyView::Field("error"@, "failed to allocate bytes to the disk for utmp file: "@ + label@ + ": "@
            + reason@)),
{
    let mut message = "failed to allocate bytes to the disk for utmp file: ".to_owned();
    append_str(&mut message, label);
    append_str(&mut message, ": ");
    append_str(&mut message, reason);
    error_answer(500, message.as_str())
}

/// Every listed file of nonzero size gets exactly one allocation, in listing
/// order, whatever its hash: `<path>/.fp/utmp/<dir>/<name>` of its size, in the
/// directory `<path>/.fp/utmp/<dir>`, labelled `<repository>/<dir>/<name>`;
/// empty files get none.
pub proof fn lemma_utmp_one_per_nonempty_file(
    name: Seq<char>,
    path: Seq<char>,
    fs: Seq<(Seq<char>, Seq<char>, u64, Seq<char>)>,
)
    ensures
        utmp_entries(name, path, fs) == fs.filter(|f: (Seq<char>, Seq<char>, u64, Seq<char>)| f.2 != 0).map_values(
            |f: (Seq<char>, Seq<char>, u64, Seq<char>)|
                (path + "/.fp/utmp/"@ + f.0, path + "/.fp/utmp/"@ + f.0 + "/"@ + f.1, name + "/"@ + f.0 + "/"@ + f.1, f.2),
        ),
    decreases fs.len(),
{
    let p = |f: (Seq<char>, Seq<char>, u64, Seq<char>)| f.2 != 0;
    let m = |f: (Seq<char>, Seq<char>, u64, Seq<char>)|
        (path + "/.fp/utmp/"@ + f.0, path + "/.fp/utmp/"@ + f.0 + "/"@ + f.1, name + "/"@ + f.0 + "/"@ + f.1, f.2);
    if fs.len() == 0 {
        assert(fs.filter(p) =~= Seq::empty()) by {
            reveal(Seq::filter);
        }
        assert(fs.filter(p).map_values(m) =~= Seq::empty());
    } else {
        let d = fs.drop_last();
        lemma_utmp_one_per_nonempty_file(name, path, d);
        assert(fs == d.push(fs.last()));
        d.lemma_filter_push(fs.last(), p);
        if fs.last().2 != 0 {
            d.filter(p).lemma_push_map_commute(m, fs.last());
            assert(fs.filter(p).map_values(m) =~= d.filter(p).map_values(m).push(m(fs.last())));
        } else {
            assert(fs.filter(p) == d.filter(p));
        }
    }
}

} // verus!
