//! Downloads: serving byte ranges of a repository's files.

use vstd::prelude::*;
use crate::endpoint::{Answer, BodyView, Session, SessionStore, error_answer, index_of_key, session_view, SessionView};
use crate::filepipe::StreamType;
use crate::text::{append_str, decimal, u64_to_decimal};

verus! {

/// One end of a requested byte range, as the `Range` header gives it.
#[derive(Clone, Copy, Debug, PartialEq, Eq, Structural)]
pub enum RangeBound {
    Included(u64),
    Excluded(u64),
    Unbounded,
}

/// The first range of a `Range` header with text `header` that
/// `headers::Range::satisfiable_ranges(size)` yields: the ranges after
/// `bytes=` whose bounds parse, a suffix range `-n` taken as the last `n`
/// bytes and dropped when `n` exceeds `size`, any other range kept whatever
/// `size` is; `None` when none is left or the text is no `bytes=` header.
pub uninterp spec fn first_satisfiable_range(header: Seq<char>, size: u64) -> Option<(RangeBound, RangeBound)>;

/// Reads the `Range` header text `header` (`HeaderValue::from_str`, then
/// `<headers::Range as Header>::decode`) and takes the first range of
/// `satisfiable_ranges(size)`; the contract only names the result.
#[verifier::external_body]
fn satisfiable_range_of(header: &str, size: u64) -> (r: Option<(RangeBound, RangeBound)>)
    ensures
        r == first_satisfiable_range(header@, size),
{
    let value = axum::http::HeaderValue::from_str(header).ok()?;
    let range: axum_extra::headers::Range = axum_extra::headers::Header::decode(&mut std::iter::once(&value)).ok()?;
    let (s, e) = range.satisfiable_ranges(size).next()?;
    let bound = |b| match b {
        std::ops::Bound::Included(v) => RangeBound::Included(v),
        std::ops::Bound::Excluded(v) => RangeBound::Excluded(v),
        std::ops::Bound::Unbounded => RangeBound::Unbounded,
    };
    Some((bound(s), bound(e)))
}

/// The range a download asks for: nothing without a `Range` header, else
/// the first range its text `header` asks for that a file of `size` bytes
/// can serve (`None` inside when there is none).
pub fn first_range(header: Option<&str>, size: u64) -> (r: Option<Option<(RangeBound, RangeBound)>>)
    ensures
        r == match header {
            None => None,
            Some(h) => Some(first_satisfiable_range(h@, size)),
        },
{
    match header {
        None => None,
        Some(h) => Some(satisfiable_range_of(h, size)),
    }
}

/// The session a download request belongs to and the file it asks for.
#[derive(Debug)]
pub struct Download {
    pub session: Session,
    pub full_path: String,
}

/// Checks a request for the file `path` of the repository named `name`
/// made with the session key in `key` (`None` inside: a header that is not
/// visible ASCII): 401 without a known session, 403 when the session is not
/// a download or belongs to another repository; otherwise the session and
/// the file's path, `<repository path>/<path>`.
pub fn get(sessions: &SessionStore, key: Option<Option<&str>>, name: &str, path: &str) -> (r: Result<Download, Answer>)
    ensures
        match key {
            Some(Some(k)) => match index_of_key(sessions.view(), k@) {
                None => r matches Err(a) && a@ == (401u16, BodyView::Field("error"@, "invalid or missing session key"@)),
                Some(i) => {
                    let s = sessions.view()[i].1;
                    if s.0 != StreamType::DownStream {
                        r matches Err(a) && a@ == (403u16, BodyView::Field("error"@, "invalid stream type"@))
                    } else if s.1.name@ != name@ {
                        r matches Err(a) && a@ == (403u16, BodyView::Field("error"@, "unmatched repository"@))
                    } else {
                        r matches Ok(d) && session_view(d.session) == s && d.full_path@ == s.1.path@ + "/"@ + path@
                    }
                },
            },
            _ => r matches Err(a) && a@ == (401u16, BodyView::Field("error"@, "invalid or missing session key"@)),
        },
{
    let k = match key {
        Some(Some(k)) => k,
        _ => {
            return Err(error_answer(401, "invalid or missing session key"));
        },
    };
    let session = match sessions.get_session_by_key(k) {
        Some(session) => session,
        None => {
            return Err(error_answer(401, "invalid or missing session key"));
        },
    };
    if session.stream_type != StreamType::DownStream {
        return Err(error_answer(403, "invalid stream type"));
    }
    if !crate::config::str_eq(session.repository.name.as_str(), name) {
        return Err(error_answer(403, "unmatched repository"));
    }
    let mut full_path = session.repository.path.clone();
    append_str(&mut full_path, "/");
    append_str(&mut full_path, path);
    Ok(Download { session, full_path })
}

/// The answer when the requested file does not exist.
pub fn not_found() -> (r: Answer)
    ensures
        r@ == (404u16, BodyView::Field("error"@, "resource not found"@)),
{
    error_answer(404, "resource not found")
}

/// The answer when the requested file could not be read.
pub fn read_failure() -> (r: Answer)
    ensures
        r@ == (500u16, BodyView::Field("error"@, "failed to access file in read mode"@)),
{
    error_answer(500, "failed to access file in read mode")
}

/// Whether a range request can be served without arithmetic overflow: the
/// first satisfiable range of the `Range` header (`None`: no header;
/// `Some(None)`: a header with no satisfiable range) against a file of
/// `file_size` bytes. Ranges of an empty file, ranges that end before they
/// start, an empty suffix and a range of `u64::MAX + 1` bytes cannot be.
pub open spec fn range_computable(first: Option<Option<(RangeBound, RangeBound)>>, file_size: u64) -> bool {
    match first {
        None => file_size > 0,
        Some(Some((RangeBound::Included(s), RangeBound::Included(e)))) => s <= e && e - s < u64::MAX,
        Some(Some((RangeBound::Included(s), RangeBound::Unbounded))) => file_size > 0 && s <= file_size - 1,
        Some(Some((RangeBound::Unbounded, RangeBound::Included(n)))) => file_size > 0 && n > 0,
        _ => true,
    }
}

/// `range_computable`, computed.
pub fn is_range_computable(first: Option<Option<(RangeBound, RangeBound)>>, file_size: u64) -> (r: bool)
    ensures
        r == range_computable(first, file_size),
{
    match first {
        None => file_size > 0,
        Some(Some((RangeBound::Included(s), RangeBound::Included(e)))) => s <= e && e - s < u64::MAX,
        Some(Some((RangeBound::Included(s), RangeBound::Unbounded))) => file_size > 0 && s <= file_size - 1,
        Some(Some((RangeBound::Unbounded, RangeBound::Included(n)))) => file_size > 0 && n > 0,
        _ => true,
    }
}

/// The first and last byte to send: the whole file without a `Range`
/// header; `s..=e` for `s-e`; `s` to the end for `s-`; the last `n` bytes
/// (all of them when there are fewer) for a suffix of `n`; `None` for
/// anything else.
pub open spec fn served_range(first: Option<Option<(RangeBound, RangeBound)>>, file_size: u64) -> Option<(u64, u64)> {
    match first {
        None => Some((0u64, (file_size - 1) as u64)),
        Some(Some((RangeBound::Included(s), RangeBound::Included(e)))) => Some((s, e)),
        Some(Some((RangeBound::Included(s), RangeBound::Unbounded))) => Some((s, (file_size - 1) as u64)),
        Some(Some((RangeBound::Unbounded, RangeBound::Included(n)))) => Some(
            (if n <= file_size { (file_size - n) as u64 } else { 0u64 }, (file_size - 1) as u64),
        ),
        _ => None,
    }
}

/// What to read and how to answer it.
#[derive(Debug)]
pub struct ChunkReply {
    /// The first byte to read.
    pub begin: u64,
    /// How many bytes to read.
    pub len: u64,
    /// 206 when a `Range` header was given, 200 otherwise.
    pub status: u16,
    /// The `Content-Range` header: `bytes <first>-<last>/<size>`.
    pub content_range: String,
}

/// Decides which bytes of a file of `file_size` bytes to send: as
/// `served_range` says, or 416 `invalid range`.
pub fn range_reply(first: Option<Option<(RangeBound, RangeBound)>>, file_size: u64) -> (r: Result<ChunkReply, Answer>)
    requires
        range_computable(first, file_size),
    ensures
        match served_range(first, file_size) {
            None => r matches Err(a) && a@ == (416u16, BodyView::Field("error"@, "invalid range"@)),
            Some((b, e)) => r matches Ok(c) && {
                &&& c.begin == b
                &&& c.len == e - b + 1
                &&& c.status == if first is Some { 206u16 } else { 200u16 }
                &&& c.content_range@ == "bytes "@ + decimal(b as nat) + "-"@ + decimal(e as nat) + "/"@ + decimal(
                    file_size as nat,
                )
            },
        },
{
    let (begin, end) = match first {
        None => (0u64, file_size - 1),
        Some(Some((RangeBound::Included(s), RangeBound::Included(e)))) => (s, e),
        Some(Some((RangeBound::Included(s), RangeBound::Unbounded))) => (s, file_size - 1),
        Some(Some((RangeBound::Unbounded, RangeBound::Included(n)))) => (file_size.saturating_sub(n), file_size - 1),
        _ => {
            return Err(error_answer(416, "invalid range"));
        },
    };
    let mut content_range = "bytes ".to_owned();
    append_str(&mut content_range, u64_to_decimal(begin).as_str());
    append_str(&mut content_range, "-");
    append_str(&mut content_range, u64_to_decimal(end).as_str());
    append_str(&mut content_range, "/");
    append_str(&mut content_range, u64_to_decimal(file_size).as_str());
    let status: u16 = if first.is_some() { 206 } else { 200 };
    Ok(ChunkReply { begin, len: end - begin + 1, status, content_range })
}

} // verus!
