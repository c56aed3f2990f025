//! The game's archive: finding it inside the executable, listing and reading
//! its entries, replacing one entry, and compressing game code.

use std::io::{Cursor, Read, Write};
use vstd::prelude::*;
use vstd::utf8::{decode_utf8, encode_utf8, valid_utf8};
use crate::dependencies::{get_tar_file_name, tar_file_name};
use crate::paths::GamePath;
use crate::platform::TargetOs;
use crate::text::{chars_of, lines, nth_line, opt_string_chars, split_on, split_ranges, str_eq};
use zip::result::ZipError;
use zip::{ZipArchive, ZipWriter};

verus! {

#[verifier::external_type_specification]
#[verifier::external_body]
#[verifier::reject_recursive_types(T)]
pub struct ExCursor<T>(Cursor<T>);

#[verifier::external_type_specification]
#[verifier::external_body]
#[verifier::reject_recursive_types(R)]
pub struct ExZipArchive<R>(ZipArchive<R>);

/// An archive being written into memory, held opaquely: the writer's type
/// parameter is bound by `std::io::Write` and `std::io::Seek`, so the writer
/// stays in a private field and is described only through the names below.
#[verifier::external_body]
pub struct ArchiveWriter {
    inner: ZipWriter<Cursor<Vec<u8>>>,
}

#[verifier::external_type_specification]
#[verifier::external_body]
pub struct ExZipError(ZipError);

/// The largest size the zip format records without its 64-bit extension.
pub open spec fn zip32_limit() -> nat {
    0xFFFF_FFFF
}

/// The length of `s` in UTF-8 bytes; the zip format records a name's length
/// in 16 bits.
pub open spec fn utf8_len(s: Seq<char>) -> nat {
    encode_utf8(s).len()
}

/// What the zip reader finds in bytes: the entry names in the order of the
/// central directory; the data of each entry that can be read back; the
/// irregular entries, whose recorded sizes exceed [`zip32_limit`] or whose
/// recorded compressed data runs past the end of the bytes; and, for each
/// regular entry that `by_name` opens (a valid local header, no encryption,
/// a method the crate supports), its compression method and its compressed
/// bytes as they stand in the archive.
pub type Listing = (
    Seq<Seq<char>>,
    Map<Seq<char>, Seq<u8>>,
    Set<Seq<char>>,
    Map<Seq<char>, (u16, Seq<u8>)>,
);

/// What the zip reader finds in the bytes `data`, if they hold an archive
/// (see [`Listing`]).
pub uninterp spec fn zip_listing(data: Seq<u8>) -> Option<
    (Seq<Seq<char>>, Map<Seq<char>, Seq<u8>>, Set<Seq<char>>, Map<Seq<char>, (u16, Seq<u8>)>),
>;

/// What holds of every listing by the way it is made: names are distinct
/// (entries are kept by name), only listed entries are read, irregular or
/// opened, an opened entry is regular, and a regular entry that reads back
/// is one that opens.
pub open spec fn listing_wf(l: Listing) -> bool {
    &&& l.0.no_duplicates()
    &&& forall|k: Seq<char>| #[trigger] l.1.contains_key(k) ==> l.0.contains(k)
    &&& forall|k: Seq<char>| #[trigger] l.2.contains(k) ==> l.0.contains(k)
    &&& forall|k: Seq<char>| #[trigger] l.3.contains_key(k) ==> l.0.contains(k) && !l.2.contains(k)
    &&& forall|k: Seq<char>|
        #[trigger] l.1.contains_key(k) && !l.2.contains(k) ==> l.3.contains_key(k)
}

/// Whether the maps `a` and `b` agree at `k`: both hold it, with the same
/// value, or neither does.
pub open spec fn agrees<V>(a: Map<Seq<char>, V>, b: Map<Seq<char>, V>, k: Seq<char>) -> bool {
    &&& a.contains_key(k) == b.contains_key(k)
    &&& a.contains_key(k) ==> a[k] == b[k]
}

/// The entry names of an opened archive, in the order of its central directory.
pub uninterp spec fn zip_names(archive: ZipArchive<Cursor<Vec<u8>>>) -> Seq<Seq<char>>;

/// The data of each entry of an opened archive that can be read back.
pub uninterp spec fn zip_contents(archive: ZipArchive<Cursor<Vec<u8>>>) -> Map<Seq<char>, Seq<u8>>;

/// The irregular entries of an opened archive (see [`Listing`]).
pub uninterp spec fn zip_irregular(archive: ZipArchive<Cursor<Vec<u8>>>) -> Set<Seq<char>>;

/// The method and compressed bytes of each regular entry of an opened
/// archive that `by_name` opens (see [`Listing`]).
pub uninterp spec fn zip_raw(archive: ZipArchive<Cursor<Vec<u8>>>) -> Map<Seq<char>, (u16, Seq<u8>)>;

/// The names of the entries added so far to an archive being written, in order.
pub uninterp spec fn zip_written(writer: ArchiveWriter) -> Seq<Seq<char>>;

/// For each entry added so far that was written faithfully (see
/// [`zip_unfaithful`]) and can be read back: what a reader of the finished
/// archive reads back for it.
pub uninterp spec fn zip_written_data(writer: ArchiveWriter) -> Map<Seq<char>, Seq<u8>>;

/// For each entry added so far that was written faithfully: its compression
/// method and compressed bytes as a reader of the finished archive finds them.
pub uninterp spec fn zip_written_raw(writer: ArchiveWriter) -> Map<Seq<char>, (u16, Seq<u8>)>;

/// The entries added so far that were copied from an irregular entry; of
/// these nothing is said of what the finished archive holds.
pub uninterp spec fn zip_unfaithful(writer: ArchiveWriter) -> Set<Seq<char>>;

/// Whether an entry is open for data: one that `start_file` opened and that
/// nothing has closed since.
pub uninterp spec fn zip_entry_open(writer: ArchiveWriter) -> bool;

/// `zip::ZipArchive::new` over the bytes `data`. It succeeds exactly when
/// the bytes hold an archive; the archive then holds what the reader finds
/// there.
#[verifier::external_body]
fn zip_open(data: Vec<u8>) -> (r: Result<ZipArchive<Cursor<Vec<u8>>>, ZipError>)
    ensures
        r is Ok <==> zip_listing(data@) is Some,
        r matches Ok(a) ==> zip_listing(data@) == Some(
            (zip_names(a), zip_contents(a), zip_irregular(a), zip_raw(a)),
        ),
        r matches Ok(a) ==> listing_wf((zip_names(a), zip_contents(a), zip_irregular(a), zip_raw(a))),
{
    ZipArchive::new(Cursor::new(data))
}

/// `zip::ZipArchive::file_names`: the entry names, in order.
#[verifier::external_body]
fn zip_file_names(archive: &ZipArchive<Cursor<Vec<u8>>>) -> (r: Vec<String>)
    ensures
        r.deep_view() == zip_names(*archive),
{
    archive.file_names().map(|name| name.to_string()).collect()
}

/// `zip::ZipArchive::by_name` followed by `Read::read_to_end` on the entry:
/// the entry's data when it can be read back, an error otherwise. The
/// archive's entries stay as they were.
#[verifier::external_body]
fn zip_read_entry(archive: &mut ZipArchive<Cursor<Vec<u8>>>, name: &str) -> (r: Result<Vec<u8>, ZipError>)
    ensures
        zip_names(*final(archive)) == zip_names(*old(archive)),
        zip_contents(*final(archive)) == zip_contents(*old(archive)),
        zip_irregular(*final(archive)) == zip_irregular(*old(archive)),
        zip_raw(*final(archive)) == zip_raw(*old(archive)),
        r matches Ok(b) ==> zip_contents(*old(archive)).contains_key(name@) && b@ == zip_contents(
            *old(archive),
        )[name@],
        r is Err ==> !zip_contents(*old(archive)).contains_key(name@),
{
    let mut buf = Vec::new();
    archive.by_name(name)?.read_to_end(&mut buf)?;
    Ok(buf)
}

/// `zip::ZipWriter::new` over an empty in-memory buffer.
#[verifier::external_body]
fn zip_writer_new() -> (w: ArchiveWriter)
    ensures
        zip_written(w) == Seq::<Seq<char>>::empty(),
        zip_written_data(w).dom() == Set::<Seq<char>>::empty(),
        zip_written_raw(w).dom() == Set::<Seq<char>>::empty(),
        zip_unfaithful(w) == Set::<Seq<char>>::empty(),
        !zip_entry_open(w),
{
    ArchiveWriter { inner: ZipWriter::new(Cursor::new(Vec::new())) }
}

/// `zip::ZipArchive::by_name` followed by `zip::ZipWriter::raw_copy_file`:
/// copies the entry `name` of `archive`, still compressed, into `writer`.
/// The entry handed over borrows the archive, so the two calls stand
/// together. The name is written with a 16-bit length, hence the bound.
/// The copy succeeds when `by_name` opens the entry, the entry is regular
/// and its name is not yet written (the writer's buffer is memory, and a
/// regular entry needs no 64-bit sizes). On success the entry ends the
/// written list and is closed at once. A regular entry keeps its method,
/// compressed bytes, sizes and checksum, so it reads back as it read in
/// `archive`; of an entry copied from an irregular one nothing is said.
/// After a failure nothing is said of `writer`.
#[verifier::external_body]
fn zip_copy_entry(
    writer: &mut ArchiveWriter,
    archive: &mut ZipArchive<Cursor<Vec<u8>>>,
    name: &str,
) -> (r: Result<(), ZipError>)
    requires
        utf8_len(name@) <= 0xFFFF,
    ensures
        zip_names(*final(archive)) == zip_names(*old(archive)),
        zip_contents(*final(archive)) == zip_contents(*old(archive)),
        zip_irregular(*final(archive)) == zip_irregular(*old(archive)),
        zip_raw(*final(archive)) == zip_raw(*old(archive)),
        zip_raw(*old(archive)).contains_key(name@) && !zip_written(*old(writer)).contains(name@)
            ==> r is Ok,
        r is Ok ==> zip_names(*old(archive)).contains(name@) && !zip_written(*old(writer)).contains(
            name@,
        ) && zip_written(*final(writer)) == zip_written(*old(writer)).push(name@),
        r is Ok ==> !zip_entry_open(*final(writer)),
        r is Ok && zip_irregular(*old(archive)).contains(name@) ==> zip_unfaithful(*final(writer))
            == zip_unfaithful(*old(writer)).insert(name@) && zip_written_data(*final(writer))
            == zip_written_data(*old(writer)) && zip_written_raw(*final(writer)) == zip_written_raw(
            *old(writer),
        ),
        r is Ok && !zip_irregular(*old(archive)).contains(name@) ==> zip_unfaithful(*final(writer))
            == zip_unfaithful(*old(writer)) && zip_raw(*old(archive)).contains_key(name@)
            && zip_written_raw(*final(writer)) == zip_written_raw(*old(writer)).insert(
            name@,
            zip_raw(*old(archive))[name@],
        ) && zip_written_data(*final(writer)) == if zip_contents(*old(archive)).contains_key(name@) {
            zip_written_data(*old(writer)).insert(name@, zip_contents(*old(archive))[name@])
        } else {
            zip_written_data(*old(writer))
        },
{
    writer.inner.raw_copy_file(archive.by_name(name)?)
}

/// `zip::ZipWriter::start_file` with stored (uncompressed) data: opens a new
/// entry `name`, empty so far, with method 0. The name is written with a
/// 16-bit length, hence the bound; the only refusal left is a name already
/// written.
#[verifier::external_body]
fn zip_start_stored(writer: &mut ArchiveWriter, name: &str) -> (r: Result<(), ZipError>)
    requires
        utf8_len(name@) <= 0xFFFF,
    ensures
        r is Ok <==> !zip_written(*old(writer)).contains(name@),
        r is Ok ==> zip_written(*final(writer)) == zip_written(*old(writer)).push(name@),
        r is Ok ==> zip_written_data(*final(writer)) == zip_written_data(*old(writer)).insert(
            name@,
            Seq::<u8>::empty(),
        ),
        r is Ok ==> zip_written_raw(*final(writer)) == zip_written_raw(*old(writer)).insert(
            name@,
            (0u16, Seq::<u8>::empty()),
        ),
        r is Ok ==> zip_entry_open(*final(writer)),
        r is Ok ==> zip_unfaithful(*final(writer)) == zip_unfaithful(*old(writer)),
{
    writer.inner.start_file(
        name,
        zip::write::SimpleFileOptions::default().compression_method(zip::CompressionMethod::Stored),
    )
}

/// `Write::write_all` on the writer: appends `data` to the open entry, which
/// is the last one written; it adds no entry. Entries are opened only by
/// [`zip_start_stored`], so the open entry is stored and its compressed
/// bytes grow by `data` too. Writing nothing always succeeds; writing
/// something succeeds exactly while an entry is open and its data stays
/// within [`zip32_limit`], the most a stored entry holds without the 64-bit
/// extension (past it the writer aborts the entry).
#[verifier::external_body]
fn zip_write_all(writer: &mut ArchiveWriter, data: &[u8]) -> (r: Result<(), ZipError>)
    ensures
        data@.len() == 0 || (zip_entry_open(*old(writer)) && zip_written(*old(writer)).len() > 0
            && zip_written_data(*old(writer))[zip_written(*old(writer)).last()].len() + data@.len()
            <= zip32_limit()) ==> r is Ok,
        r is Ok ==> zip_written(*final(writer)) == zip_written(*old(writer)),
        r is Ok ==> zip_entry_open(*final(writer)) == zip_entry_open(*old(writer)),
        r is Ok ==> zip_unfaithful(*final(writer)) == zip_unfaithful(*old(writer)),
        r is Ok && data@.len() == 0 ==> zip_written_data(*final(writer)) == zip_written_data(
            *old(writer),
        ) && zip_written_raw(*final(writer)) == zip_written_raw(*old(writer)),
        r is Ok && data@.len() > 0 ==> zip_entry_open(*old(writer)) && zip_written(
            *old(writer),
        ).len() > 0 && ({
            let last = zip_written(*old(writer)).last();
            &&& zip_written_data(*old(writer))[last].len() + data@.len() <= zip32_limit()
            &&& zip_written_data(*final(writer)) == zip_written_data(*old(writer)).insert(
                last,
                zip_written_data(*old(writer))[last] + data@,
            )
            &&& zip_written_raw(*final(writer)) == zip_written_raw(*old(writer)).insert(
                last,
                (zip_written_raw(*old(writer))[last].0, zip_written_raw(*old(writer))[last].1 + data@),
            )
        }),
{
    writer.inner.write_all(data).map_err(ZipError::Io)
}

/// `zip::ZipWriter::finish`: the bytes of the finished archive. Writing to
/// memory does not fail. The zip reader finds there the entries written, in
/// the order written. Each entry written faithfully reads back what was
/// written and keeps the method and compressed bytes written; only an entry
/// copied from an irregular one can be irregular. A non-empty archive
/// starts with the local header of its first entry.
#[verifier::external_body]
fn zip_finish(writer: ArchiveWriter) -> (r: Result<Vec<u8>, ZipError>)
    ensures
        r is Ok,
        r matches Ok(b) ==> zip_listing(b@) matches Some(l) && listing_wf(l) && l.0 == zip_written(
            writer,
        ) && (forall|n: Seq<char>| #[trigger] l.2.contains(n) ==> zip_unfaithful(writer).contains(n))
            && (forall|n: Seq<char>|
            #[trigger] l.0.contains(n) && !zip_unfaithful(writer).contains(n) ==> agrees(
                l.1,
                zip_written_data(writer),
                n,
            ) && agrees(l.3, zip_written_raw(writer), n)),
        r matches Ok(b) ==> zip_written(writer).len() > 0 ==> b@.len() >= 4 && b@[0] == 0x50u8
            && b@[1] == 0x4bu8 && b@[2] == 0x03u8 && b@[3] == 0x04u8,
{
    Ok(writer.inner.finish()?.into_inner())
}

/// The deflate stream that `flate2` makes of `data` at its default level.
pub uninterp spec fn deflated(data: Seq<u8>) -> Seq<u8>;

/// `flate2::read::DeflateEncoder` at the default level, read to the end:
/// the deflate stream of `data`. Reading from a byte slice does not fail.
#[verifier::external_body]
fn deflate(data: &[u8]) -> (r: Option<Vec<u8>>)
    ensures
        r is Some,
        r matches Some(b) ==> b@ == deflated(data@),
{
    let mut buf = Vec::new();
    flate2::read::DeflateEncoder::new(data, flate2::Compression::default())
        .read_to_end(&mut buf)
        .ok()?;
    Some(buf)
}

/// `String::from_utf8`: the text that `bytes` encode, exactly when they are
/// valid UTF-8.
#[verifier::external_body]
fn utf8_string(bytes: Vec<u8>) -> (r: Option<String>)
    ensures
        r is Some <==> valid_utf8(bytes@),
        r matches Some(s) ==> s@ == decode_utf8(bytes@),
{
    String::from_utf8(bytes).ok()
}

/// Why an operation on the game's archive failed.
#[derive(Debug)]
pub enum ArchiveError {
    /// No zip archive starts anywhere in the executable.
    ZipStartNotFound,
    /// The zip crate refused the archive or an operation on it.
    Zip(ZipError),
    /// The version file is not UTF-8 text.
    InvalidUtf8,
    /// An entry name is longer than a zip archive can record (65535 bytes).
    NameTooLong,
}

/// The signature that opens a zip archive's first local file header.
pub open spec fn zip_signature_at(data: Seq<u8>, i: int) -> bool {
    0 <= i && i + 4 <= data.len() && data[i] == 0x50u8 && data[i + 1] == 0x4bu8 && data[i + 2]
        == 0x03u8 && data[i + 3] == 0x04u8
}

/// Where the zip archive starts inside the executable `data`: the first
/// position of the local file header signature `PK\x03\x04`, if any.
pub fn find_zip_start(data: &[u8]) -> (r: Option<usize>)
    ensures
        match r {
            Some(i) => zip_signature_at(data@, i as int) && forall|j: int|
                0 <= j < i ==> !zip_signature_at(data@, j),
            None => forall|j: int| !zip_signature_at(data@, j),
        },
{
    let n = data.len();
    if n < 4 {
        return None;
    }
    let mut i: usize = 0;
    while i <= n - 4
        invariant
            n == data@.len(),
            4 <= n,
            i <= n - 3,
            forall|j: int| 0 <= j < i ==> !zip_signature_at(data@, j),
        decreases n - i,
    {
        if data[i] == 0x50 && data[i + 1] == 0x4b && data[i + 2] == 0x03 && data[i + 3] == 0x04 {
            return Some(i);
        }
        i = i + 1;
    }
    None
}

/// The bytes `data[lo..hi]`, copied.
fn copy_range(data: &[u8], lo: usize, hi: usize) -> (r: Vec<u8>)
    requires
        lo <= hi <= data@.len(),
    ensures
        r@ == data@.subrange(lo as int, hi as int),
{
    let mut r: Vec<u8> = Vec::new();
    let mut i: usize = lo;
    while i < hi
        invariant
            lo <= i <= hi <= data@.len(),
            r@ == data@.subrange(lo as int, i as int),
        decreases hi - i,
    {
        r.push(data[i]);
        assert(r@ =~= data@.subrange(lo as int, i + 1));
        i = i + 1;
    }
    r
}

fn open_archive(data: &[u8]) -> (r: Result<ZipArchive<Cursor<Vec<u8>>>, ArchiveError>)
    ensures
        r is Ok <==> zip_listing(data@) is Some,
        r matches Ok(a) ==> zip_listing(data@) == Some(
            (zip_names(a), zip_contents(a), zip_irregular(a), zip_raw(a)),
        ),
{
    let bytes = copy_range(data, 0, data.len());
    assert(bytes@ =~= data@);
    match zip_open(bytes) {
        Ok(a) => Ok(a),
        Err(e) => Err(ArchiveError::Zip(e)),
    }
}

/// The names of the entries of the archive `archive`, in order.
pub fn get_all_files(archive: &[u8]) -> (r: Result<Vec<String>, ArchiveError>)
    ensures
        match zip_listing(archive@) {
            Some(l) => r matches Ok(names) && names.deep_view() == l.0,
            None => r is Err,
        },
{
    let a = open_archive(archive)?;
    Ok(zip_file_names(&a))
}

/// The data that the reader reads back for the entry `name` of the bytes
/// `data`, if they hold an archive in which that entry can be read.
pub open spec fn entry_data(data: Seq<u8>, name: Seq<char>) -> Option<Seq<u8>> {
    match zip_listing(data) {
        Some(l) => if l.1.contains_key(name) {
            Some(l.1[name])
        } else {
            None
        },
        None => None,
    }
}

/// The data of the entry `file_name` of the archive `archive`.
pub fn get_file_data(archive: &[u8], file_name: &str) -> (r: Result<Vec<u8>, ArchiveError>)
    ensures
        match entry_data(archive@, file_name@) {
            Some(d) => r matches Ok(b) && b@ == d,
            None => r is Err,
        },
{
    let mut a = open_archive(archive)?;
    match zip_read_entry(&mut a, file_name) {
        Ok(b) => Ok(b),
        Err(e) => Err(ArchiveError::Zip(e)),
    }
}

/// The game's version as its version file `content` gives it: the second
/// line of the text, if the text has one; nothing when the file is not text.
pub open spec fn version_line(content: Seq<u8>) -> Option<Option<Seq<char>>> {
    if valid_utf8(content) {
        let ls = lines(decode_utf8(content));
        Some(if ls.len() > 1 { Some(ls[1]) } else { None })
    } else {
        None
    }
}

/// The second line of the version file `version.jkr` in the archive
/// `archive`, if the file has one.
pub fn read_version_line(archive: &[u8]) -> (r: Result<Option<String>, ArchiveError>)
    ensures
        match zip_listing(archive@) {
            Some(l) => if l.1.contains_key("version.jkr"@) {
                match version_line(l.1["version.jkr"@]) {
                    Some(v) => r matches Ok(o) && opt_string_chars(o) == v,
                    None => r matches Err(ArchiveError::InvalidUtf8),
                }
            } else {
                r is Err
            },
            None => r is Err,
        },
{
    let content = get_file_data(archive, "version.jkr")?;
    match utf8_string(content) {
        None => Err(ArchiveError::InvalidUtf8),
        Some(text) => Ok(nth_line(text.as_str(), 1)),
    }
}

/// The version is the second line of the version file, whatever the first
/// line holds and whatever lines follow the second.
pub proof fn lemma_version_second_line(
    content: Seq<u8>,
    first: Seq<char>,
    second: Seq<char>,
    rest: Seq<char>,
)
    requires
        valid_utf8(content),
        decode_utf8(content) == first.push('\n') + second.push('\n') + rest,
        !first.contains('\n'),
        !second.contains('\n'),
        second.len() == 0 || second.last() != '\r',
    ensures
        version_line(content) == Some(Some(second)),
        version_or_default(Some(second)) == second,
{
    let t = decode_utf8(content);
    let tail = second.push('\n') + rest;
    assert(t =~= first.push('\n') + tail);
    crate::text::lemma_split_first(first, '\n', tail);
    crate::text::lemma_split_first(second, '\n', rest);
    crate::text::lemma_split_nonempty(rest, '\n');
    let f = split_on(t, '\n');
    assert(f =~= seq![first, second] + split_on(rest, '\n'));
    assert(f[1] == second);
    let ls = lines(t);
    assert(ls.len() > 1);
    assert(ls[1] == crate::text::strip_cr(f[1]));
}

/// A version file whose text ends on its second line, without a newline,
/// gives that line as the version.
pub proof fn lemma_version_last_line(content: Seq<u8>, first: Seq<char>, second: Seq<char>)
    requires
        valid_utf8(content),
        decode_utf8(content) == first.push('\n') + second,
        !first.contains('\n'),
        !second.contains('\n'),
        second.len() > 0,
    ensures
        version_line(content) == Some(Some(second)),
{
    let t = decode_utf8(content);
    crate::text::lemma_split_first(first, '\n', second);
    crate::text::lemma_split_without(second, '\n');
    let f = split_on(t, '\n');
    assert(f =~= seq![first, second]);
    let ls = lines(t);
    assert(ls.len() == 2);
    assert(ls[1] == f[1]);
}

/// A version file of a single line, with or without a newline after it,
/// has no version: the game's version then reads `0.0.0`.
pub proof fn lemma_version_missing(content: Seq<u8>, first: Seq<char>, newline: bool)
    requires
        valid_utf8(content),
        decode_utf8(content) == if newline {
            first.push('\n')
        } else {
            first
        },
        !first.contains('\n'),
    ensures
        version_line(content) == Some(Option::<Seq<char>>::None),
        version_or_default(None) == "0.0.0"@,
{
    let t = decode_utf8(content);
    if newline {
        assert(t =~= first.push('\n') + Seq::<char>::empty());
        crate::text::lemma_split_first(first, '\n', Seq::<char>::empty());
        assert(split_on(t, '\n') =~= seq![first, Seq::<char>::empty()]);
    } else {
        crate::text::lemma_split_without(first, '\n');
    }
}


/// The game's version, `0.0.0` when the version file has no second line.
pub open spec fn version_or_default(v: Option<Seq<char>>) -> Seq<char> {
    match v {
        Some(s) => s,
        None => "0.0.0"@,
    }
}

/// The game's version: the second line of the version file `version.jkr` in
/// the archive `archive`, or `0.0.0` when the file has no second line.
pub fn get_version(archive: &[u8]) -> (r: Result<String, ArchiveError>)
    ensures
        match zip_listing(archive@) {
            Some(l) => if l.1.contains_key("version.jkr"@) {
                match version_line(l.1["version.jkr"@]) {
                    Some(v) => r matches Ok(s) && s@ == version_or_default(v),
                    None => r matches Err(ArchiveError::InvalidUtf8),
                }
            } else {
                r is Err
            },
            None => r is Err,
        },
{
    match read_version_line(archive)? {
        Some(v) => Ok(v),
        None => Ok(String::from_str("0.0.0")),
    }
}

/// The deflate stream of the game code `data`, as the game reads compressed
/// code.
pub fn compress_file(data: &[u8]) -> (r: Vec<u8>)
    ensures
        r@ == deflated(data@),
{
    match deflate(data) {
        Some(b) => b,
        None => Vec::new(),
    }
}

/// `names` without the name `excluded`, in order.
pub open spec fn without(names: Seq<Seq<char>>, excluded: Seq<char>) -> Seq<Seq<char>>
    decreases names.len(),
{
    if names.len() == 0 {
        Seq::empty()
    } else {
        let rest = without(names.drop_last(), excluded);
        if names.last() == excluded {
            rest
        } else {
            rest.push(names.last())
        }
    }
}

/// Whether `i` is the first position of the zip signature in `data`.
pub open spec fn is_zip_start(data: Seq<u8>, i: int) -> bool {
    zip_signature_at(data, i) && forall|j: int| 0 <= j < i ==> !zip_signature_at(data, j)
}

/// Where the zip archive starts in `data`, when it holds the signature.
pub open spec fn zip_start(data: Seq<u8>) -> int {
    choose|i: int| is_zip_start(data, i)
}

/// The entries of `m` among `names`, other than `excluded` and those in
/// `skipped`.
spec fn kept<V>(
    m: Map<Seq<char>, V>,
    names: Seq<Seq<char>>,
    excluded: Seq<char>,
    skipped: Set<Seq<char>>,
) -> Map<Seq<char>, V>
    decreases names.len(),
{
    if names.len() == 0 {
        Map::empty()
    } else {
        let r = kept(m, names.drop_last(), excluded, skipped);
        let n = names.last();
        if n != excluded && !skipped.contains(n) && m.contains_key(n) {
            r.insert(n, m[n])
        } else {
            r
        }
    }
}

proof fn lemma_kept<V>(
    m: Map<Seq<char>, V>,
    names: Seq<Seq<char>>,
    excluded: Seq<char>,
    skipped: Set<Seq<char>>,
    k: Seq<char>,
)
    ensures
        kept(m, names, excluded, skipped).contains_key(k) <==> (names.contains(k) && k != excluded
            && !skipped.contains(k) && m.contains_key(k)),
        kept(m, names, excluded, skipped).contains_key(k) ==> kept(m, names, excluded, skipped)[k]
            == m[k],
    decreases names.len(),
{
    if names.len() > 0 {
        let init = names.drop_last();
        lemma_kept(m, init, excluded, skipped, k);
        if names.contains(k) && k != names.last() {
            let i = choose|i: int| 0 <= i < names.len() && names[i] == k;
            assert(init[i] == k);
        }
        if init.contains(k) {
            let i = choose|i: int| 0 <= i < init.len() && init[i] == k;
            assert(names[i] == k);
        }
        assert(names[names.len() - 1] == names.last());
    }
}

/// Whether every entry of the listing `l` other than `file` can be copied:
/// `by_name` opens it, it is regular, and its name fits the format.
pub open spec fn copyable(l: Listing, file: Seq<char>) -> bool {
    forall|n: Seq<char>|
        #[trigger] l.0.contains(n) && n != file ==> l.3.contains_key(n) && utf8_len(n) <= 0xFFFF
}

/// Whether no entry of the listing `l` other than `file` is irregular.
pub open spec fn regular_except(l: Listing, file: Seq<char>) -> bool {
    forall|n: Seq<char>| #[trigger] l.0.contains(n) && n != file ==> !l.2.contains(n)
}

/// What the reader finds in an archive listed as `l` once `file` is replaced
/// by `data`, when no other entry is irregular: the other entries in order,
/// then `file`; their data and compressed bytes as before, and for `file`
/// the data `data`, stored as it is (method 0); no irregular entry.
pub open spec fn injected_listing(l: Listing, file: Seq<char>, data: Seq<u8>) -> Listing {
    (without(l.0, file).push(file), l.1.insert(file, data), Set::empty(), l.3.insert(file, (0u16, data)))
}

/// What a replacement of `file` by `data` makes of the archive listed as
/// `old`, whatever its entries: the other entries in order, then `file`,
/// whose name fits the format; `file` reads back `data` and is stored as it
/// is (method 0); every other regular entry was opened and copied raw, so
/// it keeps its method and compressed bytes and reads back as before; an
/// entry can be irregular only if it was irregular before and is not
/// `file`; `data` fits a stored entry.
pub open spec fn injection_result(old: Listing, new: Listing, file: Seq<char>, data: Seq<u8>) -> bool {
    &&& new.0 == without(old.0, file).push(file)
    &&& new.1.contains_key(file) && new.1[file] == data
    &&& new.3.contains_key(file) && new.3[file] == (0u16, data)
    &&& forall|n: Seq<char>|
        #[trigger] old.0.contains(n) && n != file && !old.2.contains(n) ==> old.3.contains_key(n)
            && agrees(new.1, old.1, n) && agrees(new.3, old.3, n)
    &&& forall|n: Seq<char>| #[trigger] new.2.contains(n) ==> old.2.contains(n) && n != file
    &&& forall|n: Seq<char>| #[trigger] new.0.contains(n) ==> utf8_len(n) <= 0xFFFF
    &&& data.len() <= zip32_limit()
}

/// Whether `out` is what replacing the entry `file` of the game archive in
/// the executable `exe` by `data` gave: what precedes the archive is kept,
/// the archive starts where it did, and its listing is the injection result
/// of the old one.
pub open spec fn replaced(exe: Seq<u8>, out: Seq<u8>, file: Seq<char>, data: Seq<u8>) -> bool {
    let s = zip_start(exe);
    &&& is_zip_start(exe, s)
    &&& s <= out.len()
    &&& out.take(s) == exe.take(s)
    &&& zip_signature_at(out, s)
    &&& zip_listing(exe.skip(s)) matches Some(old_list)
    &&& zip_listing(out.skip(s)) matches Some(new_list)
    &&& listing_wf(old_list)
    &&& listing_wf(new_list)
    &&& injection_result(old_list, new_list, file, data)
}

/// Whether the entry `file` of the game archive in the executable `exe` can
/// be replaced by `data`: the executable holds the zip signature, the reader
/// accepts the archive from there, its other entries can all be copied, and
/// the name and the data fit the format.
pub open spec fn injectable(exe: Seq<u8>, file: Seq<char>, data: Seq<u8>) -> bool {
    &&& exists|j: int| zip_signature_at(exe, j)
    &&& match zip_listing(exe.skip(zip_start(exe))) {
        Some(l) => copyable(l, file),
        None => false,
    }
    &&& utf8_len(file) <= 0xFFFF
    &&& data.len() <= zip32_limit()
}

proof fn lemma_push_contains(w: Seq<Seq<char>>, f: Seq<char>, k: Seq<char>)
    ensures
        w.push(f).contains(k) <==> (w.contains(k) || k == f),
{
    let r = w.push(f);
    assert(r[w.len() as int] == f);
    if r.contains(k) {
        let i = choose|i: int| 0 <= i < r.len() && r[i] == k;
        if i < w.len() {
            assert(w[i] == k);
        }
    }
    if w.contains(k) {
        let i = choose|i: int| 0 <= i < w.len() && w[i] == k;
        assert(r[i] == k);
    }
}

/// When no other entry was irregular, the injection result is exactly the
/// injected listing.
proof fn lemma_regular_injection(old: Listing, new: Listing, file: Seq<char>, data: Seq<u8>)
    requires
        listing_wf(old),
        listing_wf(new),
        injection_result(old, new, file, data),
        regular_except(old, file),
    ensures
        new == injected_listing(old, file, data),
{
    let inj = injected_listing(old, file, data);
    assert forall|k: Seq<char>| k != file && #[trigger] new.0.contains(k) implies old.0.contains(k)
        && !old.2.contains(k) by {
        lemma_push_contains(without(old.0, file), file, k);
        lemma_without_contains(old.0, file, k);
    }
    assert(new.1 =~= inj.1) by {
        assert forall|k: Seq<char>| k != file && #[trigger] old.1.contains_key(k) implies new.1.contains_key(k) by {
            assert(old.0.contains(k));
        }
    }
    assert(new.3 =~= inj.3) by {
        assert forall|k: Seq<char>| k != file && #[trigger] old.3.contains_key(k) implies new.3.contains_key(k) by {
            assert(old.0.contains(k));
        }
    }
    assert(new.2 =~= inj.2) by {
        assert forall|k: Seq<char>| !(#[trigger] new.2.contains(k)) by {
            if new.2.contains(k) {
                assert(old.0.contains(k));
            }
        }
    }
}

/// The executable `exe_data` with the entry `file_name` of its game archive
/// replaced by `new_contents`, stored uncompressed. What precedes the
/// archive is kept; the other entries are copied as they are, still
/// compressed, in order, and the new entry comes last, so that the archive
/// reads back `new_contents` for `file_name` and what it read before for
/// every other regular entry.
///
/// It succeeds whenever the executable holds an archive whose other entries
/// can all be copied, the name fits the format and the data fits a stored
/// entry. An executable without the zip signature, or whose archive the
/// reader refuses, is an error; so is a name longer than 65535 bytes.
pub fn replace_file(exe_data: &[u8], file_name: &str, new_contents: &[u8]) -> (r: Result<Vec<u8>, ArchiveError>)
    ensures
        (forall|j: int| !zip_signature_at(exe_data@, j)) ==> r matches Err(
            ArchiveError::ZipStartNotFound,
        ),
        (exists|j: int| zip_signature_at(exe_data@, j)) && zip_listing(
            exe_data@.skip(zip_start(exe_data@)),
        ) is None ==> r is Err,
        utf8_len(file_name@) > 0xFFFF ==> r is Err,
        injectable(exe_data@, file_name@, new_contents@) ==> r is Ok,
        r matches Ok(out) ==> replaced(exe_data@, out@, file_name@, new_contents@),
        r matches Ok(out) ==> match zip_listing(exe_data@.skip(zip_start(exe_data@))) {
            Some(l) => regular_except(l, file_name@) ==> zip_listing(
                out@.skip(zip_start(exe_data@)),
            ) == Some(injected_listing(l, file_name@, new_contents@)),
            None => true,
        },
{
    let n = exe_data.len();
    let start = match find_zip_start(exe_data) {
        Some(i) => i,
        None => { return Err(ArchiveError::ZipStartNotFound); },
    };
    let ghost s = zip_start(exe_data@);
    assert(is_zip_start(exe_data@, start as int));
    assert(s == start) by {
        assert(is_zip_start(exe_data@, s));
        if s < start {
            assert(!zip_signature_at(exe_data@, s));
        } else if s > start {
            assert(!zip_signature_at(exe_data@, start as int));
        }
    }
    let zip_part = copy_range(exe_data, start, n);
    assert(zip_part@ =~= exe_data@.skip(s));
    let mut reader = match zip_open(zip_part) {
        Ok(a) => a,
        Err(e) => { return Err(ArchiveError::Zip(e)); },
    };
    if file_name.as_bytes().len() > 0xFFFF {
        return Err(ArchiveError::NameTooLong);
    }
    let names = zip_file_names(&reader);
    let ghost f = file_name@;
    let ghost all = names.deep_view();
    let ghost contents = zip_contents(reader);
    let ghost irregular = zip_irregular(reader);
    let ghost rawsrc = zip_raw(reader);
    let ghost l0: Listing = (all, contents, irregular, rawsrc);
    assert(zip_listing(exe_data@.skip(s)) == Some(l0));
    assert(injectable(exe_data@, f, new_contents@) ==> copyable(l0, f));
    assert(copyable(l0, f) ==> forall|k: int|
        0 <= k < all.len() && #[trigger] all[k] != f ==> rawsrc.contains_key(all[k])
            && utf8_len(all[k]) <= 0xFFFF) by {
        if copyable(l0, f) {
            assert forall|k: int| 0 <= k < all.len() && #[trigger] all[k] != f implies
                rawsrc.contains_key(all[k]) && utf8_len(all[k]) <= 0xFFFF by {
                assert(l0.0.contains(all[k]));
            }
        }
    }
    let mut writer = zip_writer_new();
    assert(zip_written_data(writer) =~= kept(contents, all.take(0), f, irregular));
    assert(zip_written_raw(writer) =~= kept(rawsrc, all.take(0), f, irregular));
    let mut i: usize = 0;
    while i < names.len()
        invariant
            injectable(exe_data@, f, new_contents@) ==> copyable(l0, f),
            f == file_name@,
            all == names.deep_view(),
            all == zip_names(reader),
            contents == zip_contents(reader),
            irregular == zip_irregular(reader),
            rawsrc == zip_raw(reader),
            l0 == (all, contents, irregular, rawsrc),
            listing_wf(l0),
            zip_signature_at(exe_data@, start as int),
            utf8_len(f) <= 0xFFFF,
            i <= names.len(),
            zip_written(writer) == without(all.take(i as int), f),
            !zip_entry_open(writer),
            forall|m: Seq<char>| #[trigger] zip_unfaithful(writer).contains(m) ==> irregular.contains(m)
                && m != f,
            zip_written_data(writer) == kept(contents, all.take(i as int), f, irregular),
            zip_written_raw(writer) == kept(rawsrc, all.take(i as int), f, irregular),
            forall|k: int| 0 <= k < i && #[trigger] all[k] != f ==> utf8_len(all[k]) <= 0xFFFF,
            forall|k: int|
                0 <= k < i && #[trigger] all[k] != f && !irregular.contains(all[k])
                    ==> rawsrc.contains_key(all[k]),
            copyable(l0, f) ==> forall|k: int|
                0 <= k < all.len() && #[trigger] all[k] != f ==> rawsrc.contains_key(all[k])
                    && utf8_len(all[k]) <= 0xFFFF,
        decreases names.len() - i,
    {
        let name = names[i].as_str();
        assert(name@ == all[i as int]);
        assert(all.take(i + 1).drop_last() =~= all.take(i as int));
        assert(all.take(i + 1).last() == all[i as int]);
        proof {
            lemma_without_contains(all.take(i as int), f, all[i as int]);
            if all.take(i as int).contains(all[i as int]) {
                let k = choose|k: int| 0 <= k < i && all.take(i as int)[k] == all[i as int];
                assert(all[k] == all[i as int]);
            }
            assert(all.contains(all[i as int]));
        }
        if !str_eq(name, file_name) {
            if name.as_bytes().len() > 0xFFFF {
                return Err(ArchiveError::NameTooLong);
            }
            match zip_copy_entry(&mut writer, &mut reader, name) {
                Ok(()) => {},
                Err(e) => { return Err(ArchiveError::Zip(e)); },
            }
        }
        i = i + 1;
    }
    assert(all.take(i as int) =~= all);
    proof {
        lemma_without_contains(all, f, f);
    }
    match zip_start_stored(&mut writer, file_name) {
        Ok(()) => {},
        Err(e) => { return Err(ArchiveError::Zip(e)); },
    }
    assert(zip_written(writer).last() == f);
    let ghost before_data = zip_written_data(writer);
    match zip_write_all(&mut writer, new_contents) {
        Ok(()) => {},
        Err(e) => { return Err(ArchiveError::Zip(e)); },
    }
    proof {
        if new_contents@.len() == 0 {
            assert(new_contents@ =~= Seq::<u8>::empty());
        } else {
            assert(Seq::<u8>::empty() + new_contents@ =~= new_contents@);
            assert(before_data[f] == Seq::<u8>::empty());
        }
    }
    assert(zip_written_data(writer) == kept(contents, all, f, irregular).insert(f, new_contents@));
    assert(zip_written_raw(writer) == kept(rawsrc, all, f, irregular).insert(f, (0u16, new_contents@)));
    let ghost w = writer;
    let mut tail = match zip_finish(writer) {
        Ok(b) => b,
        Err(e) => { return Err(ArchiveError::Zip(e)); },
    };
    let ghost l1: Listing = zip_listing(tail@)->0;
    proof {
        let wn = without(all, f);
        assert(l1.0 == wn.push(f));
        assert(l1.0[wn.len() as int] == f);
        assert(l1.0.contains(f));
        assert forall|m: Seq<char>| #[trigger] l0.0.contains(m) && m != f && !l0.2.contains(m) implies
            l0.3.contains_key(m) && agrees(l1.1, l0.1, m) && agrees(l1.3, l0.3, m) by {
            lemma_without_contains(all, f, m);
            lemma_push_contains(wn, f, m);
            lemma_kept(contents, all, f, irregular, m);
            lemma_kept(rawsrc, all, f, irregular, m);
            let k = choose|k: int| 0 <= k < all.len() && all[k] == m;
            assert(!zip_unfaithful(w).contains(m));
        }
        assert forall|m: Seq<char>| #[trigger] l1.0.contains(m) implies utf8_len(m) <= 0xFFFF by {
            lemma_push_contains(wn, f, m);
            lemma_without_contains(all, f, m);
            if m != f {
                let k = choose|k: int| 0 <= k < all.len() && all[k] == m;
            }
        }
        assert(injection_result(l0, l1, f, new_contents@));
    }
    let mut out = copy_range(exe_data, 0, start);
    let ghost tail_view = tail@;
    out.append(&mut tail);
    assert(out@.take(s) =~= exe_data@.take(s));
    assert(out@.skip(s) =~= tail_view);
    assert(zip_signature_at(out@, s)) by {
        assert(out@[s] == tail_view[0]);
        assert(out@[s + 1] == tail_view[1]);
        assert(out@[s + 2] == tail_view[2]);
        assert(out@[s + 3] == tail_view[3]);
    }
    proof {
        if regular_except(l0, f) {
            lemma_regular_injection(l0, l1, f, new_contents@);
        }
    }
    Ok(out)
}

/// The directory that the mod loader's archive unpacks into: the archive's
/// file name up to its first dot.
pub fn extracted_dir_name(linux_native: bool, os: TargetOs) -> (r: String)
    ensures
        r@ == split_on(tar_file_name(linux_native, os), '.')[0],
{
    let name = get_tar_file_name(linux_native, os);
    let v = chars_of(name);
    let ranges = split_ranges(&v, 0, v.len(), '.');
    assert(v@.subrange(0, v@.len() as int) =~= v@);
    proof {
        crate::text::lemma_split_nonempty(v@, '.');
    }
    let (a, b) = ranges[0];
    String::from_str(name.substring_char(a, b))
}

/// The rename that follows unpacking the mod loader into `dir`: from the
/// directory the archive unpacks into to `balamod`, both inside `dir`.
pub fn tar_rename_paths(dir: &str, linux_native: bool, os: TargetOs) -> (r: (GamePath, GamePath))
    ensures
        r.0@ == seq![dir@, split_on(tar_file_name(linux_native, os), '.')[0]],
        r.1@ == seq![dir@, "balamod"@],
{
    let name = extracted_dir_name(linux_native, os);
    let from = GamePath::new(dir).join(name.as_str());
    let to = GamePath::new(dir).join("balamod");
    assert(from@ =~= seq![dir@, name@]);
    assert(to@ =~= seq![dir@, "balamod"@]);
    (from, to)
}

proof fn lemma_without_contains(names: Seq<Seq<char>>, file: Seq<char>, n: Seq<char>)
    ensures
        without(names, file).contains(n) <==> (names.contains(n) && n != file),
    decreases names.len(),
{
    if names.len() > 0 {
        let init = names.drop_last();
        lemma_without_contains(init, file, n);
        let w0 = without(init, file);
        let w = without(names, file);
        if names.contains(n) && n != file {
            let i = choose|i: int| 0 <= i < names.len() && names[i] == n;
            if i < names.len() - 1 {
                assert(init[i] == n);
                let k = choose|k: int| 0 <= k < w0.len() && w0[k] == n;
                if names.last() != file {
                    assert(w[k] == n);
                }
            } else {
                assert(w[w.len() - 1] == n);
            }
        }
        if w.contains(n) {
            let k = choose|k: int| 0 <= k < w.len() && w[k] == n;
            if names.last() != file && k == w.len() - 1 {
                assert(names[names.len() - 1] == n);
            } else {
                assert(w0[k] == n);
                let i = choose|i: int| 0 <= i < init.len() && init[i] == n;
                assert(names[i] == n);
            }
        }
    }
}

proof fn lemma_without_distinct(names: Seq<Seq<char>>, file: Seq<char>)
    requires
        names.no_duplicates(),
    ensures
        without(names, file).no_duplicates(),
    decreases names.len(),
{
    if names.len() > 0 {
        let init = names.drop_last();
        assert(init.no_duplicates());
        lemma_without_distinct(init, file);
        let w0 = without(init, file);
        if names.last() != file {
            lemma_without_contains(init, file, names.last());
            assert(!init.contains(names.last())) by {
                if init.contains(names.last()) {
                    let i = choose|i: int| 0 <= i < init.len() && init[i] == names.last();
                    assert(names[i] == names[names.len() - 1]);
                }
            }
            assert(!w0.contains(names.last()));
            assert forall|i: int, j: int|
                0 <= i < j < w0.len() + 1 implies w0.push(names.last())[i] != w0.push(
                names.last(),
            )[j] by {
                if j == w0.len() {
                    assert(w0[i] == w0.push(names.last())[i]);
                }
            }
        }
    }
}

/// After an injection the archive lists every other entry it listed before,
/// and nothing else, and the injected entry exactly once, last; distinct
/// names stay distinct.
pub proof fn lemma_injected_names(names: Seq<Seq<char>>, file: Seq<char>)
    ensures
        ({
            let r = without(names, file).push(file);
            &&& r.last() == file
            &&& !without(names, file).contains(file)
            &&& forall|n: Seq<char>| n != file ==> (r.contains(n) <==> names.contains(n))
            &&& names.no_duplicates() ==> r.no_duplicates()
        }),
{
    let w = without(names, file);
    let r = w.push(file);
    lemma_without_contains(names, file, file);
    assert forall|n: Seq<char>| n != file implies (r.contains(n) <==> names.contains(n)) by {
        lemma_without_contains(names, file, n);
        if r.contains(n) {
            let k = choose|k: int| 0 <= k < r.len() && r[k] == n;
            assert(w[k] == n);
        }
        if w.contains(n) {
            let k = choose|k: int| 0 <= k < w.len() && w[k] == n;
            assert(r[k] == n);
        }
    }
    if names.no_duplicates() {
        lemma_without_distinct(names, file);
        assert forall|i: int, j: int| 0 <= i < j < r.len() implies r[i] != r[j] by {
            if j == w.len() {
                assert(r[i] == w[i]);
            }
        }
    }
}

proof fn lemma_without_absent(names: Seq<Seq<char>>, file: Seq<char>)
    requires
        !names.contains(file),
    ensures
        without(names, file) == names,
    decreases names.len(),
{
    if names.len() > 0 {
        let init = names.drop_last();
        assert(!init.contains(file)) by {
            if init.contains(file) {
                let i = choose|i: int| 0 <= i < init.len() && init[i] == file;
                assert(names[i] == file);
            }
        }
        lemma_without_absent(init, file);
        assert(names[names.len() - 1] == names.last());
        assert(init.push(names.last()) =~= names);
    }
}

/// Whether the reader finds `k` irregular in the archive `data`.
pub open spec fn irregular_in(data: Seq<u8>, k: Seq<char>) -> bool {
    zip_listing(data) matches Some(l) && l.2.contains(k)
}

/// What `get_file_data` reads back from the archive after any successful
/// injection: the injected data under the injected name, and under every
/// other name that was not irregular what it read before the injection.
pub proof fn lemma_injection_reads_back(exe: Seq<u8>, out: Seq<u8>, file: Seq<char>, data: Seq<u8>)
    requires
        replaced(exe, out, file, data),
    ensures
        entry_data(out.skip(zip_start(exe)), file) == Some(data),
        forall|k: Seq<char>|
            k != file && !irregular_in(exe.skip(zip_start(exe)), k) ==> #[trigger] entry_data(
                out.skip(zip_start(exe)),
                k,
            ) == entry_data(exe.skip(zip_start(exe)), k),
{
    let s = zip_start(exe);
    let old = zip_listing(exe.skip(s))->0;
    let new = zip_listing(out.skip(s))->0;
    assert forall|k: Seq<char>| k != file && !irregular_in(exe.skip(s), k) implies #[trigger] entry_data(
        out.skip(s),
        k,
    ) == entry_data(exe.skip(s), k) by {
        lemma_push_contains(without(old.0, file), file, k);
        lemma_without_contains(old.0, file, k);
        if !old.0.contains(k) {
            assert(!new.0.contains(k));
            assert(!new.1.contains_key(k));
            assert(!old.1.contains_key(k));
        }
    }
}

/// Injecting twice is injecting once: after any successful injection into
/// an archive whose other entries were regular, the archive still starts
/// where it did, a second injection of the same data succeeds, and it
/// keeps what precedes the archive and what the reader finds there.
pub proof fn lemma_replace_twice(exe: Seq<u8>, out: Seq<u8>, out2: Seq<u8>, file: Seq<char>, data: Seq<u8>)
    requires
        replaced(exe, out, file, data),
        regular_except(zip_listing(exe.skip(zip_start(exe)))->0, file),
    ensures
        zip_start(out) == zip_start(exe),
        injectable(out, file, data),
        replaced(out, out2, file, data) ==> out2.take(zip_start(exe)) == out.take(zip_start(exe))
            && zip_listing(out2.skip(zip_start(exe))) == zip_listing(out.skip(zip_start(exe))),
{
    let s = zip_start(exe);
    assert forall|p: int| 0 <= p < s + 4 implies #[trigger] out[p] == exe[p] by {
        if p < s {
            assert(out.take(s)[p] == exe.take(s)[p]);
        }
    }
    assert forall|j: int| 0 <= j < s implies !zip_signature_at(out, j) by {
        if zip_signature_at(out, j) {
            assert(out[j] == exe[j]);
            assert(out[j + 1] == exe[j + 1]);
            assert(out[j + 2] == exe[j + 2]);
            assert(out[j + 3] == exe[j + 3]);
            assert(zip_signature_at(exe, j));
        }
    }
    assert(is_zip_start(out, s));
    assert(zip_start(out) == s) by {
        let t = zip_start(out);
        assert(is_zip_start(out, t));
        if t < s {
            assert(!zip_signature_at(out, t));
        } else if t > s {
            assert(!zip_signature_at(out, s));
        }
    }
    let l = zip_listing(exe.skip(s))->0;
    let l1 = zip_listing(out.skip(s))->0;
    lemma_regular_injection(l, l1, file, data);
    assert(copyable(l1, file)) by {
        assert forall|n: Seq<char>| #[trigger] l1.0.contains(n) && n != file implies l1.3.contains_key(n)
            && utf8_len(n) <= 0xFFFF by {
            lemma_push_contains(without(l.0, file), file, n);
            lemma_without_contains(l.0, file, n);
            assert(l.0.contains(n));
        }
    }
    let w = without(l.0, file);
    assert(l1.0.contains(file)) by {
        lemma_push_contains(w, file, file);
    }
    assert(injectable(out, file, data));
    if replaced(out, out2, file, data) {
        let l2 = zip_listing(out2.skip(s))->0;
        assert(regular_except(l1, file));
        lemma_regular_injection(l1, l2, file, data);
        lemma_without_contains(l.0, file, file);
        lemma_without_absent(w, file);
        assert(w.push(file).drop_last() =~= w);
        assert(without(w.push(file), file) == w);
        assert(l1.1.insert(file, data) =~= l1.1);
        assert(l1.3.insert(file, (0u16, data)) =~= l1.3);
        assert(l2 == l1);
    }
}

} // verus!
