//! Repository records and the text format in which file listings travel.

use vstd::prelude::*;
use crate::aio::{split_dir_name, extract_path_dir_and_name, lemma_last_slash, last_slash};
use crate::text::{append_str, digit_value, digits_value, is_digit, all_digits, unsigned_part, trim_start, trim_end, is_whitespace, digit_char, lemma_split_join, chars_of, push_char, string_of_range, split_ranges, trim_range, parse_u64_range, u64_to_decimal, split_on, join_with, decimal, parse_u64, trim, lemma_split_on_len};

pub mod transf;

verus! {

/// Read and write permission for one part of a repository.
#[derive(Clone, Copy, Debug, PartialEq, Eq, Structural)]
pub struct RepositoryAccessAttribute {
    pub read: bool,
    pub write: bool,
}

/// A user's permissions on a repository: on its metadata and on its content.
#[derive(Clone, Copy, Debug, PartialEq, Eq, Structural)]
pub struct RepositoryAccess {
    pub info: RepositoryAccessAttribute,
    pub content: RepositoryAccessAttribute,
}

/// A repository served by the daemon: its name, where it lives, and who may
/// do what with it (user name and permissions, one entry per user).
#[derive(Debug)]
pub struct Repository {
    pub name: String,
    pub path: String,
    pub access_list: Vec<(String, RepositoryAccess)>,
}

/// When a repository was last updated and when before that, in
/// milliseconds on a monotonic clock.
#[derive(Clone, Copy, Debug)]
pub struct RepositoryMeta {
    pub updated_on: u64,
    pub previously_updated_on: u64,
}

/// One file of a repository: its directory, its name, its size in bytes and
/// the hex form of its content hash.
#[derive(Debug)]
pub struct RepositoryFile {
    pub path_dir: String,
    pub name: String,
    pub size: u64,
    pub hash: String,
}

impl Clone for RepositoryFile {
    fn clone(&self) -> (r: Self)
        ensures
            r == *self,
    {
        RepositoryFile {
            path_dir: self.path_dir.clone(),
            name: self.name.clone(),
            size: self.size,
            hash: self.hash.clone(),
        }
    }
}

impl Default for RepositoryFile {
    fn default() -> (r: Self)
        ensures
            r.path_dir@ == Seq::<char>::empty(),
            r.name@ == Seq::<char>::empty(),
            r.size == 0,
            r.hash@ == Seq::<char>::empty(),
    {
        RepositoryFile { path_dir: String::new(), name: String::new(), size: 0, hash: String::new() }
    }
}

/// Direction of a transfer session.
#[derive(Clone, Copy, Debug, PartialEq, Eq, Structural)]
pub enum StreamType {
    DownStream,
    UpStream,
}

/// What was wrong with a field of a file listing.
#[derive(Clone, Copy, Debug, PartialEq, Eq, Structural)]
pub enum ErrorKind {
    InvalidType,
    InvalidRange,
}

/// Where a file listing failed to parse: the record's index, the field's
/// position in the record, and what was wrong.
#[derive(Clone, Copy, Debug, PartialEq, Eq, Structural)]
pub struct UnpackError {
    pub index: usize,
    pub tuple_position: u8,
    pub error_kind: ErrorKind,
}

/// A file as plain values: directory, name, size, hash.
pub open spec fn file_view(f: RepositoryFile) -> (Seq<char>, Seq<char>, u64, Seq<char>) {
    (f.path_dir@, f.name@, f.size, f.hash@)
}

/// The listing record of a file: `dir/name:size:hash`.
pub open spec fn record_of(f: RepositoryFile) -> Seq<char> {
    f.path_dir@ + seq!['/'] + f.name@ + seq![':'] + decimal(f.size as nat) + seq![':'] + f.hash@
}

/// A listing: the files' records separated by `;`.
pub open spec fn packed(fs: Seq<RepositoryFile>) -> Seq<char> {
    join_with(fs.map_values(|f: RepositoryFile| record_of(f)), ';')
}

/// Reads one record: the path before the first `:` (split into directory and
/// name), the size after it, the hash after the second `:`; what follows a
/// third `:` is ignored. Errors carry the field position and the kind.
pub open spec fn parse_record(rec: Seq<char>) -> Result<(Seq<char>, Seq<char>, u64, Seq<char>), (u8, ErrorKind)> {
    let fields = split_on(rec, ':');
    let path = split_dir_name(fields[0]);
    if fields.len() < 2 {
        Err((1u8, ErrorKind::InvalidType))
    } else {
        match parse_u64(trim(fields[1])) {
            None => Err((1u8, ErrorKind::InvalidRange)),
            Some(n) => if fields.len() < 3 {
                Err((2u8, ErrorKind::InvalidType))
            } else {
                Ok((path.0, path.1, n, fields[2]))
            },
        }
    }
}

/// Reads records in order, stopping at the first that fails.
pub open spec fn parse_records(rs: Seq<Seq<char>>) -> Result<Seq<(Seq<char>, Seq<char>, u64, Seq<char>)>, (int, u8, ErrorKind)>
    decreases rs.len(),
{
    if rs.len() == 0 {
        Ok(Seq::empty())
    } else {
        match parse_records(rs.drop_last()) {
            Err(e) => Err(e),
            Ok(fs) => match parse_record(rs.last()) {
                Ok(f) => Ok(fs.push(f)),
                Err(e) => Err((rs.len() - 1, e.0, e.1)),
            },
        }
    }
}

/// What a listing denotes: its `;`-separated records, read in order.
pub open spec fn unpacked(data: Seq<char>) -> Result<Seq<(Seq<char>, Seq<char>, u64, Seq<char>)>, (int, u8, ErrorKind)> {
    parse_records(split_on(data, ';'))
}

/// Once reading fails, later records do not matter.
pub proof fn lemma_parse_records_err_prefix(rs: Seq<Seq<char>>, k: int)
    requires
        0 <= k <= rs.len(),
        parse_records(rs.take(k)) is Err,
    ensures
        parse_records(rs) == parse_records(rs.take(k)),
    decreases rs.len() - k,
{
    if k < rs.len() {
        assert(rs.take(k + 1).drop_last() =~= rs.take(k));
        lemma_parse_records_err_prefix(rs, k + 1);
    } else {
        assert(rs.take(k) =~= rs);
    }
}

/// Writes files as a listing: `dir/name:size:hash` records separated by `;`.
pub fn pack_repository_files_info(repository_files: Vec<RepositoryFile>) -> (r: String)
    ensures
        r@ == packed(repository_files@),
{
    let ghost recs = repository_files@.map_values(|f: RepositoryFile| record_of(f));
    let mut out = String::new();
    let mut i: usize = 0;
    while i < repository_files.len()
        invariant
            i <= repository_files.len(),
            recs == repository_files@.map_values(|f: RepositoryFile| record_of(f)),
            out@ == join_with(recs.take(i as int), ';'),
        decreases repository_files.len() - i,
    {
        let ghost before = out@;
        let file = &repository_files[i];
        if i > 0 {
            push_char(&mut out, ';');
        }
        append_str(&mut out, file.path_dir.as_str());
        push_char(&mut out, '/');
        append_str(&mut out, file.name.as_str());
        push_char(&mut out, ':');
        let size = u64_to_decimal(file.size);
        append_str(&mut out, size.as_str());
        push_char(&mut out, ':');
        append_str(&mut out, file.hash.as_str());
        proof {
            let t = recs.take(i + 1);
            assert(t.drop_last() =~= recs.take(i as int));
            assert(t.last() == record_of(*file));
            if i == 0 {
                assert(out@ =~= record_of(*file));
            } else {
                assert(out@ =~= before + seq![';'] + record_of(*file));
            }
        }
        i = i + 1;
    }
    assert(recs.take(i as int) =~= recs);
    out
}

/// Reads a listing written by `pack_repository_files_info`. Records are
/// separated by `;`, fields by `:`; the size may be surrounded by whitespace.
/// Fails at the first record whose size field is missing (`InvalidType`) or
/// not a 64-bit unsigned number (`InvalidRange`), or whose hash field is
/// missing (position 2, `InvalidType`).
pub fn unpack_repository_files_info(data: &str) -> (r: Result<Vec<RepositoryFile>, UnpackError>)
    ensures
        match r {
            Ok(v) => unpacked(data@) == Ok::<_, (int, u8, ErrorKind)>(v@.map_values(|f: RepositoryFile| file_view(f))),
            Err(e) => unpacked(data@) == Err::<Seq<(Seq<char>, Seq<char>, u64, Seq<char>)>, _>((e.index as int, e.tuple_position, e.error_kind)),
        },
{
    let chars = chars_of(data);
    let ghost rs = split_on(chars@.subrange(0, chars.len() as int), ';');
    assert(chars@.subrange(0, chars.len() as int) =~= data@);
    let records = split_ranges(&chars, 0, chars.len(), ';');
    let mut files: Vec<RepositoryFile> = Vec::new();
    let mut index: usize = 0;
    assert(rs.take(0) =~= Seq::<Seq<char>>::empty());
    assert(files@.map_values(|f: RepositoryFile| file_view(f)) =~= Seq::<(Seq<char>, Seq<char>, u64, Seq<char>)>::empty());
    while index < records.len()
        invariant
            index <= records.len() == rs.len(),
            rs == split_on(data@, ';'),
            forall|k: int| 0 <= k < records@.len() ==> (#[trigger] records@[k]).0 <= records@[k].1 <= chars.len()
                && chars@.subrange(records@[k].0 as int, records@[k].1 as int) == rs[k],
            parse_records(rs.take(index as int)) == Ok::<_, (int, u8, ErrorKind)>(files@.map_values(|f: RepositoryFile| file_view(f))),
        decreases records.len() - index,
    {
        let (a, b) = records[index];
        let ghost rec = rs[index as int];
        let fields = split_ranges(&chars, a, b, ':');
        let ghost fs = split_on(rec, ':');
        proof {
            lemma_split_on_len(rec, ':');
            assert(rs.take(index + 1).drop_last() =~= rs.take(index as int));
            assert(rs.take(index + 1).last() == rec);
        }
        let (p0, p1) = fields[0];
        let path_str = string_of_range(&chars, p0, p1);
        let (path_dir, name) = extract_path_dir_and_name(path_str.as_str());
        proof {
            assert(fields@.len() == fs.len());
            assert(chars@.subrange(a as int, b as int) == rec);
        }
        if fields.len() < 2 {
            proof {
                lemma_parse_records_err_prefix(rs, index + 1);
            }
            return Err(UnpackError { index, tuple_position: 1, error_kind: ErrorKind::InvalidType });
        }
        let (s0, s1) = fields[1];
        let (t0, t1) = trim_range(&chars, s0, s1);
        let size = match parse_u64_range(&chars, t0, t1) {
            Some(n) => n,
            None => {
                proof {
                    lemma_parse_records_err_prefix(rs, index + 1);
                }
                return Err(UnpackError { index, tuple_position: 1, error_kind: ErrorKind::InvalidRange });
            },
        };
        if fields.len() < 3 {
            proof {
                lemma_parse_records_err_prefix(rs, index + 1);
            }
            return Err(UnpackError { index, tuple_position: 2, error_kind: ErrorKind::InvalidType });
        }
        let (h0, h1) = fields[2];
        let hash = string_of_range(&chars, h0, h1);
        let file = RepositoryFile { path_dir, name, size, hash };
        let ghost old_files = files@;
        files.push(file);
        proof {
            assert(parse_record(rec) == Ok::<_, (u8, ErrorKind)>(file_view(file)));
            assert(files@ =~= old_files.push(file));
            assert(files@.map_values(|f: RepositoryFile| file_view(f)) =~= old_files.map_values(|f: RepositoryFile| file_view(f)).push(file_view(file)));
        }
        index = index + 1;
    }
    assert(rs.take(index as int) =~= rs);
    Ok(files)
}

/// A file whose fields survive the listing format: no `:` or `;` in any text
/// field, and no `/` in the name.
pub open spec fn listable(f: RepositoryFile) -> bool {
    &&& !f.path_dir@.contains(':') && !f.path_dir@.contains(';')
    &&& !f.name@.contains(':') && !f.name@.contains(';') && !f.name@.contains('/')
    &&& !f.hash@.contains(':') && !f.hash@.contains(';')
}

proof fn lemma_decimal(n: nat)
    ensures
        decimal(n).len() >= 1,
        all_digits(decimal(n)),
        digits_value(decimal(n)) == n,
    decreases n,
{
    let dc = digit_char((n % 10) as int);
    assert(digit_value(dc) == n % 10);
    if n < 10 {
        assert(decimal(n).drop_last() =~= Seq::<char>::empty());
        assert(decimal(n).last() == dc);
        assert(is_digit(decimal(n)[0]));
        assert(digits_value(decimal(n)) == digits_value(decimal(n).drop_last()) * 10 + digit_value(decimal(n).last()));
    }
    if n >= 10 {
        lemma_decimal(n / 10);
        let d = decimal(n);
        assert(d.drop_last() =~= decimal(n / 10));
        assert(d.last() == dc);
        assert(n == (n / 10) * 10 + n % 10);
        assert(digits_value(d) == digits_value(d.drop_last()) * 10 + digit_value(d.last()));
        assert forall|i: int| 0 <= i < d.len() implies #[trigger] is_digit(d[i]) by {
            if i < d.len() - 1 {
                assert(d[i] == decimal(n / 10)[i]);
            }
        }
    }
}

proof fn lemma_parse_decimal(n: u64)
    ensures
        parse_u64(trim(decimal(n as nat))) == Some(n),
{
    let d = decimal(n as nat);
    lemma_decimal(n as nat);
    assert(is_digit(d[0]));
    assert(!is_whitespace(d[0]));
    assert(trim_start(d) == d);
    assert(is_digit(d[d.len() - 1]));
    assert(!is_whitespace(d.last()));
    assert(trim_end(d) == d);
    assert(unsigned_part(d) == d);
}

proof fn lemma_split_dir_name_join(d: Seq<char>, name: Seq<char>)
    requires
        !name.contains('/'),
    ensures
        split_dir_name(d + seq!['/'] + name) == (d, name),
{
    let s = d + seq!['/'] + name;
    lemma_last_slash(s);
    let i = last_slash(s);
    assert(s[d.len() as int] == '/');
    match i {
        Some(k) => {
            if k > d.len() {
                assert(name[k - d.len() - 1] == '/');
            }
            if k < d.len() {
                assert(s[d.len() as int] != '/');
            }
            assert(s.take(k) =~= d);
            assert(s.skip(k + 1) =~= name);
        },
        None => {},
    }
}

proof fn lemma_no_char_concat(a: Seq<char>, b: Seq<char>, c: char)
    requires
        !a.contains(c),
        !b.contains(c),
    ensures
        !(a + b).contains(c),
{
    if (a + b).contains(c) {
        let i = choose|i: int| 0 <= i < (a + b).len() && (a + b)[i] == c;
        if i < a.len() {
            assert(a[i] == c);
        } else {
            assert(b[i - a.len()] == c);
        }
    }
}

proof fn lemma_digits_no(d: Seq<char>, c: char)
    requires
        all_digits(d),
        !is_digit(c),
    ensures
        !d.contains(c),
{
    if d.contains(c) {
        let i = choose|i: int| 0 <= i < d.len() && d[i] == c;
        assert(is_digit(d[i]));
    }
}

proof fn lemma_parse_record_of(f: RepositoryFile)
    requires
        listable(f),
    ensures
        parse_record(record_of(f)) == Ok::<_, (u8, ErrorKind)>(file_view(f)),
        !record_of(f).contains(';'),
{
    let path = f.path_dir@ + seq!['/'] + f.name@;
    let dec = decimal(f.size as nat);
    lemma_decimal(f.size as nat);
    let pieces = seq![path, dec, f.hash@];
    assert(!seq!['/'].contains(':'));
    assert(!seq!['/'].contains(';'));
    assert(!seq![':'].contains(';'));
    lemma_no_char_concat(f.path_dir@, seq!['/'], ':');
    lemma_no_char_concat(f.path_dir@ + seq!['/'], f.name@, ':');
    lemma_no_char_concat(f.path_dir@, seq!['/'], ';');
    lemma_no_char_concat(f.path_dir@ + seq!['/'], f.name@, ';');
    lemma_digits_no(dec, ':');
    lemma_digits_no(dec, ';');
    assert(pieces.drop_last().drop_last() =~= seq![path]);
    assert(join_with(seq![path], ':') == path);
    assert(join_with(pieces.drop_last(), ':') == join_with(seq![path], ':') + seq![':'] + dec);
    assert(join_with(pieces, ':') == join_with(pieces.drop_last(), ':') + seq![':'] + f.hash@);
    assert(join_with(pieces, ':') =~= record_of(f));
    assert forall|i: int| 0 <= i < pieces.len() implies !(#[trigger] pieces[i]).contains(':') by {}
    lemma_split_join(pieces, ':');
    lemma_split_dir_name_join(f.path_dir@, f.name@);
    lemma_parse_decimal(f.size);
    lemma_no_char_concat(path, seq![':'], ';');
    lemma_no_char_concat(path + seq![':'], dec, ';');
    lemma_no_char_concat(path + seq![':'] + dec, seq![':'], ';');
    lemma_no_char_concat(path + seq![':'] + dec + seq![':'], f.hash@, ';');
}

proof fn lemma_parse_records_of(fs: Seq<RepositoryFile>)
    requires
        forall|i: int| 0 <= i < fs.len() ==> listable(#[trigger] fs[i]),
    ensures
        parse_records(fs.map_values(|f: RepositoryFile| record_of(f)))
            == Ok::<_, (int, u8, ErrorKind)>(fs.map_values(|f: RepositoryFile| file_view(f))),
    decreases fs.len(),
{
    if fs.len() > 0 {
        let d = fs.drop_last();
        lemma_parse_records_of(d);
        assert(fs.map_values(|f: RepositoryFile| record_of(f)).drop_last() =~= d.map_values(|f: RepositoryFile| record_of(f)));
        assert(fs.map_values(|f: RepositoryFile| file_view(f)) =~= d.map_values(|f: RepositoryFile| file_view(f)).push(file_view(fs.last())));
        assert(listable(fs[fs.len() - 1]));
        lemma_parse_record_of(fs.last());
        assert(fs.map_values(|f: RepositoryFile| record_of(f)).last() == record_of(fs.last()));
    } else {
        assert(fs.map_values(|f: RepositoryFile| record_of(f)) =~= Seq::<Seq<char>>::empty());
        assert(fs.map_values(|f: RepositoryFile| file_view(f)) =~= Seq::<(Seq<char>, Seq<char>, u64, Seq<char>)>::empty());
    }
}

/// Reading a listing gives back the files it was written from (for a
/// non-empty list of listable files).
pub proof fn lemma_unpack_pack(fs: Seq<RepositoryFile>)
    requires
        fs.len() >= 1,
        forall|i: int| 0 <= i < fs.len() ==> listable(#[trigger] fs[i]),
    ensures
        unpacked(packed(fs)) == Ok::<_, (int, u8, ErrorKind)>(fs.map_values(|f: RepositoryFile| file_view(f))),
{
    let recs = fs.map_values(|f: RepositoryFile| record_of(f));
    assert forall|i: int| 0 <= i < recs.len() implies !(#[trigger] recs[i]).contains(';') by {
        assert(listable(fs[i]));
        lemma_parse_record_of(fs[i]);
    }
    lemma_split_join(recs, ';');
    lemma_parse_records_of(fs);
}

} // verus!
