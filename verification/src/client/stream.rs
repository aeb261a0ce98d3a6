//! Sending file contents to the daemon, chunk by chunk.

use vstd::prelude::*;
use crate::aio::{compose_path_dir_and_name, composed};
use crate::client::config::Binding;
use crate::config::{find_index, lookup};
use crate::filepipe::RepositoryFile;
use crate::text::{append_str, decimal, u64_to_decimal};

verus! {

/// How far the transfer of a file has come.
#[derive(Clone, Copy, Debug)]
pub struct FileStreamStatus {
    pub total_bytes: u64,
    pub processed_bytes: u64,
}

/// The largest chunk sent in one request.
pub const CHUNK_SIZE: u64 = 262144;

/// The chunks of a file of `size` bytes, from byte `cursor` on: (offset,
/// length) pairs of at most `CHUNK_SIZE` bytes each, in order.
pub open spec fn chunks_from(cursor: nat, size: nat) -> Seq<(u64, u64)>
    decreases size - cursor,
{
    if cursor >= size {
        Seq::empty()
    } else if size - cursor <= CHUNK_SIZE {
        seq![(cursor as u64, (size - cursor) as u64)]
    } else {
        seq![(cursor as u64, CHUNK_SIZE)] + chunks_from((cursor + CHUNK_SIZE) as nat, size)
    }
}

/// The chunks in which a file of `size` bytes is sent: (offset, length)
/// pairs, every `CHUNK_SIZE` bytes from the start, the last one shorter.
pub fn upload_chunks(size: u64) -> (r: Vec<(u64, u64)>)
    ensures
        r@ == chunks_from(0, size as nat),
{
    let mut out: Vec<(u64, u64)> = Vec::new();
    let mut cursor: u64 = 0;
    while cursor < size
        invariant_except_break
            cursor <= size,
            out@ + chunks_from(cursor as nat, size as nat) == chunks_from(0, size as nat),
        ensures
            out@ == chunks_from(0, size as nat),
        decreases size - cursor,
    {
        if size - cursor <= CHUNK_SIZE {
            let ghost before = out@;
            out.push((cursor, size - cursor));
            assert(out@ =~= before + chunks_from(cursor as nat, size as nat));
            break;
        }
        let ghost before = out@;
        out.push((cursor, CHUNK_SIZE));
        assert(before + chunks_from(cursor as nat, size as nat) =~= out@ + chunks_from((cursor + CHUNK_SIZE) as nat, size as nat));
        cursor = cursor + CHUNK_SIZE;
    }
    proof {
        if !(cursor < size) {
            assert(chunks_from(cursor as nat, size as nat) =~= Seq::empty());
            assert(out@ + Seq::<(u64, u64)>::empty() =~= out@);
        }
    }
    out
}

/// The chunks cover the file: they start at byte 0, each starts where the
/// one before it ended, the last ends at the file's end, and each holds
/// between 1 and `CHUNK_SIZE` bytes.
pub proof fn lemma_chunks_cover(cursor: nat, size: nat)
    requires
        size <= u64::MAX,
    ensures
        ({
            let c = chunks_from(cursor, size);
            &&& cursor < size ==> c.len() > 0 && c[0].0 == cursor
            &&& cursor >= size ==> c.len() == 0
            &&& forall|i: int| 0 <= i < c.len() ==> 0 < (#[trigger] c[i]).1 <= CHUNK_SIZE
            &&& forall|i: int| 0 <= i < c.len() - 1 ==> (#[trigger] c[i]).0 + c[i].1 == c[i + 1].0
            &&& c.len() > 0 ==> c.last().0 + c.last().1 == size
        }),
    decreases size - cursor,
{
    if cursor < size && size - cursor > CHUNK_SIZE {
        lemma_chunks_cover((cursor + CHUNK_SIZE) as nat, size);
        let c = chunks_from(cursor, size);
        let rest = chunks_from((cursor + CHUNK_SIZE) as nat, size);
        assert(c == seq![(cursor as u64, CHUNK_SIZE)] + rest);
        assert forall|i: int| 0 <= i < c.len() implies 0 < (#[trigger] c[i]).1 <= CHUNK_SIZE by {
            if i > 0 {
                assert(c[i] == rest[i - 1]);
            }
        }
        assert forall|i: int| 0 <= i < c.len() - 1 implies (#[trigger] c[i]).0 + c[i].1 == c[i + 1].0 by {
            if i > 0 {
                assert(c[i] == rest[i - 1]);
                assert(c[i + 1] == rest[i]);
            } else {
                assert(c[1] == rest[0]);
            }
        }
        assert(c.last() == rest.last());
    }
}

/// The `Range` header of a chunk: `bytes=<offset>-<offset + length>`.
pub fn chunk_range_header(cursor: u64, len: u64) -> (r: String)
    requires
        cursor + len <= u64::MAX,
    ensures
        r@ == "bytes="@ + decimal(cursor as nat) + "-"@ + decimal((cursor + len) as nat),
{
    let mut r = "bytes=".to_owned();
    append_str(&mut r, u64_to_decimal(cursor).as_str());
    append_str(&mut r, "-");
    append_str(&mut r, u64_to_decimal(cursor + len).as_str());
    r
}

/// Where the contents of a file are read: `<local path>/<path>`, where the
/// path is the original one recorded for the file's (temporary) path in
/// `file_temps`, or its own path.
pub fn source_path(local_path: &str, file_temps: &Vec<(String, String)>, entry: &RepositoryFile) -> (r: String)
    ensures
        r@ == local_path@ + "/"@ + match lookup(file_temps@, composed(entry.path_dir@, entry.name@)) {
            Some(og) => og@,
            None => composed(entry.path_dir@, entry.name@),
        },
{
    let path = compose_path_dir_and_name(entry.path_dir.as_str(), entry.name.as_str());
    let mut r = local_path.to_owned();
    append_str(&mut r, "/");
    match find_index(file_temps, path.as_str()) {
        Some(i) => append_str(&mut r, file_temps[i].1.as_str()),
        None => append_str(&mut r, path.as_str()),
    }
    r
}

/// Where a chunk of a file is sent:
/// `<remote address>/ss/<remote repository name>/<path>`.
pub fn chunk_url(binding: &Binding, entry: &RepositoryFile) -> (r: String)
    ensures
        r@ == binding.remote_address@ + "/ss/"@ + binding.remote_repository_name@ + "/"@ + composed(entry.path_dir@, entry.name@),
{
    let mut r = binding.remote_address.clone();
    append_str(&mut r, "/ss/");
    append_str(&mut r, binding.remote_repository_name.as_str());
    append_str(&mut r, "/");
    append_str(&mut r, compose_path_dir_and_name(entry.path_dir.as_str(), entry.name.as_str()).as_str());
    r
}

/// Where the end of an upload is announced: `<remote address>/ss`.
pub fn upload_end_url(binding: &Binding) -> (r: String)
    ensures
        r@ == binding.remote_address@ + "/ss"@,
{
    let mut r = binding.remote_address.clone();
    append_str(&mut r, "/ss");
    r
}

} // verus!
