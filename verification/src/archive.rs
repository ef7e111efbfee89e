//! The archive of a folder: the files in order, each in a container of its own, and
//! a checksum over all contents.
//!
//! ```text
//! [magic 4B][version 1B][name length varint][folder name UTF-8][file count varint]
//! for each file:
//!   [path length varint][path UTF-8, "/" between its parts]
//!   [original size varint][length varint][container]
//! [MD5 16B over the contents of all files in order]
//! ```

use vstd::prelude::*;
use vstd::utf8::decode_utf8;
use vstd::utf8::encode_utf8;
use vstd::utf8::valid_utf8;

use crate::archive_laws::folder_fits;
use crate::archive_laws::law_lossless_archive_round_trip;
use crate::bytes::extend;
use crate::bytes::same_bytes;
use crate::container::Measured;
use crate::container::Measurements;
use crate::container::begins_with;
use crate::container::block;
use crate::container::compress;
use crate::container::compressed;
use crate::container::decompress;
use crate::container::decompressed;
use crate::container::find_block;
use crate::container::is_container;
use crate::container::magic;
use crate::container::nothing_measured;
use crate::container::read_block;
use crate::container::write_block;
use crate::digest::CHECKSUM_LEN;
use crate::digest::checksum;
use crate::digest::checksum_consumed;
use crate::digest::consumed;
use crate::digest::digest_consume;
use crate::digest::digest_start;
use crate::error::AxmzipError;
use crate::error::Failure;
use crate::error::invalid;
use crate::progress::accepts;
use crate::progress::point_between;
use crate::progress::tell;
use crate::progress::told;
use crate::text::after_last;
use crate::text::behind_last;
use crate::text::decimal;
use crate::text::decimal_text;
use crate::text::has_char;
use crate::text::last_position;
use crate::text::lowered;
use crate::text::same_text;
use crate::text::to_lowercase;
use crate::text::utf8_text;
use crate::varint::decode_varint;
use crate::varint::encode_varint;
use crate::varint::read_varint;
use crate::varint::varint;

verus! {

/// The version of the archive format.
pub const ARCHIVE_VERSION: u8 = 1;

/// What an archive begins with: `AXMA`.
pub open spec fn archive_magic() -> Seq<u8> {
    seq![0x41u8, 0x58, 0x4D, 0x41]
}

/// A file in an archive.
#[derive(Clone, Debug)]
pub struct ArchiveEntry {
    /// The path from the root of the archive, with "/" between its parts.
    pub rel_path: String,
    /// The contents.
    pub data: Vec<u8>,
}

/// The mathematical value of an [`ArchiveEntry`].
#[verifier::ext_equal]
pub struct File {
    pub path: Seq<char>,
    pub data: Seq<u8>,
}

impl View for ArchiveEntry {
    type V = File;

    open spec fn view(&self) -> File {
        File { path: self.rel_path@, data: self.data@ }
    }
}

/// The mathematical values of entries.
pub open spec fn files_of(entries: Seq<ArchiveEntry>) -> Seq<File> {
    Seq::new(entries.len(), |i: int| entries[i]@)
}

/// The mathematical values of measurements.
pub open spec fn scores_of(measured: Seq<Measurements>) -> Seq<Measured> {
    Seq::new(measured.len(), |i: int| measured[i]@)
}

/// The scores for the `i`th file; none, if there are none for it.
pub open spec fn scores_for(ms: Seq<Measured>, i: int) -> Measured {
    if i < ms.len() {
        ms[i]
    } else {
        nothing_measured()
    }
}

/// The number of channels that a path hints at by what follows the last dot.
pub open spec fn channels_hint(path: Seq<char>) -> u8 {
    let ext = lowered(behind_last(path, '.'));
    if ext == "ppm"@ || ext == "rgb"@ {
        3
    } else if ext == "rgba"@ {
        4
    } else {
        1
    }
}

/// The container of a file in an archive.
pub open spec fn packed(file: File, quality: u8, m: Measured) -> Seq<u8> {
    compressed(
        file.data,
        quality,
        channels_hint(file.path),
        behind_last(file.path, '/'),
        m,
    )
}

/// The record of a file.
pub open spec fn record(file: File, quality: u8, m: Measured) -> Seq<u8> {
    block(encode_utf8(file.path)) + varint(file.data.len()) + block(packed(file, quality, m))
}

/// The records of the files from the `i`th on.
pub open spec fn records_from(files: Seq<File>, quality: u8, ms: Seq<Measured>, i: int) -> Seq<u8>
    decreases files.len() - i,
{
    if i >= files.len() {
        Seq::empty()
    } else {
        record(files[i], quality, scores_for(ms, i)) + records_from(files, quality, ms, i + 1)
    }
}

/// The contents of the first `n` files, one after another.
pub open spec fn contents(files: Seq<File>, n: int) -> Seq<u8>
    decreases n,
{
    if n <= 0 {
        Seq::empty()
    } else {
        contents(files, n - 1) + files[n - 1].data
    }
}

/// The contents of all files, one after another.
pub open spec fn all_contents(files: Seq<File>) -> Seq<u8> {
    contents(files, files.len() as int)
}

/// What stands before the records of an archive.
pub open spec fn archive_head(root: Seq<char>, count: nat) -> Seq<u8> {
    archive_magic() + seq![ARCHIVE_VERSION] + block(encode_utf8(root)) + varint(count)
}

/// An archive.
pub open spec fn archived(root: Seq<char>, files: Seq<File>, quality: u8, ms: Seq<Measured>) -> Seq<
    u8,
> {
    archive_head(root, files.len()) + records_from(files, quality, ms, 0) + checksum(
        all_contents(files),
    )
}

/// What became of a folder.
#[derive(Clone, Debug)]
pub struct ArchiveStats {
    pub root_name: String,
    pub file_count: usize,
    pub original_bytes: usize,
    pub compressed_bytes: usize,
}

/// Works out the number of channels that a path hints at.
pub fn infer_channels(path: &str) -> (channels: u8)
    ensures
        channels == channels_hint(path@),
{
    let ext = to_lowercase(after_last(path, '.'));
    if same_text(ext.as_str(), "ppm") || same_text(ext.as_str(), "rgb") {
        3
    } else if same_text(ext.as_str(), "rgba") {
        4
    } else {
        1
    }
}

/// How many bytes the files have together.
fn total_size(entries: &[ArchiveEntry]) -> (total: usize)
    requires
        all_contents(files_of(entries@)).len() <= usize::MAX,
    ensures
        total == all_contents(files_of(entries@)).len(),
{
    let ghost files = files_of(entries@);
    let mut total: usize = 0;
    let mut i: usize = 0;
    while i < entries.len()
        invariant
            i <= entries@.len(),
            files == files_of(entries@),
            all_contents(files).len() <= usize::MAX,
            total == contents(files, i as int).len(),
        decreases entries@.len() - i,
    {
        proof {
            lemma_contents_grow(files, i + 1, files.len() as int);
        }
        total += entries[i].data.len();
        i += 1;
    }
    total
}

proof fn lemma_contents_grow(files: Seq<File>, n: int, k: int)
    requires
        0 <= n <= k,
    ensures
        contents(files, n).len() <= contents(files, k).len(),
    decreases k - n,
{
    if n < k {
        lemma_contents_grow(files, n, k - 1);
    }
}

/// Appends the record of a file. Reports from `p_start` to `p_end`.
fn write_record<F: Fn(u32)>(
    out: &mut Vec<u8>,
    entry: &ArchiveEntry,
    quality: u8,
    measured: &Measurements,
    report: &F,
    p_start: u32,
    p_end: u32,
)
    requires
        accepts(*report, p_start, p_end),
        p_start <= p_end <= 1000,
    ensures
        final(out)@ == old(out)@ + record(entry@, quality, measured@),
        told(report, p_end),
{
    let channels: u8 = infer_channels(entry.rel_path.as_str());
    let name = after_last(entry.rel_path.as_str(), '/');
    let inner = |p: u32|
        requires
            p <= 1000,
        ensures
            told(report, point_between(p_start, p_end, p) as u32),
        {
            tell(report, p_start, p_end, p);
        };
    let (blob, _) = compress(entry.data.as_slice(), quality, channels, name, measured, &inner);
    assert(point_between(p_start, p_end, 1000) == p_end);
    write_block(out, entry.rel_path.as_str().as_bytes());
    extend(out, encode_varint(entry.data.len() as u64).as_slice());
    write_block(out, blob.as_slice());
    assert(out@ =~= old(out)@ + record(entry@, quality, measured@));
}

/// The share of `done` of `total` bytes, in thousandths of which 950 are the whole.
pub open spec fn share_of(done: int, total: int) -> int {
    if done >= total {
        950
    } else {
        done * 950 / total
    }
}

/// The sizes of the first `n` files together, an empty file counting as one byte.
pub open spec fn work_before(files: Seq<File>, n: int) -> nat
    decreases n,
{
    if n <= 0 {
        0
    } else {
        work_before(files, n - 1) + (if files[n - 1].data.len() > 1 {
            files[n - 1].data.len()
        } else {
            1
        })
    }
}

/// Where the share of the `i`th file in the progress begins, and that of the file
/// before it ends: in proportion to the sizes.
pub open spec fn slice_at(files: Seq<File>, i: int) -> u32 {
    let size = all_contents(files).len() as int;
    share_of(
        work_before(files, i) as int,
        if size > 1 {
            size
        } else {
            1
        },
    ) as u32
}

/// The share never falls, and never exceeds that of the whole.
pub proof fn lemma_share_grows(done: int, more: int, total: int)
    requires
        total >= 1,
        0 <= done <= more,
    ensures
        0 <= share_of(done, total) <= share_of(more, total) <= 950,
{
    assert(0 <= done * 950 / total) by (nonlinear_arith)
        requires
            total >= 1,
            0 <= done,
    ;
    if done < total {
        assert(done * 950 / total <= 950) by (nonlinear_arith)
            requires
                0 <= done < total,
        ;
    }
    if more < total {
        assert(more * 950 / total <= 950) by (nonlinear_arith)
            requires
                0 <= more < total,
        ;
        vstd::arithmetic::div_mod::lemma_div_is_ordered(done * 950, more * 950, total);
    }
}

/// The share of `done` of `total` bytes.
fn share(done: u128, total: u64) -> (p: u32)
    requires
        total >= 1,
    ensures
        p == share_of(done as int, total as int),
        p <= 950,
{
    if done >= total as u128 {
        950
    } else {
        assert(done * 950 / (total as int) <= 950) by (nonlinear_arith)
            requires
                0 <= done < total,
        ;
        (done * 950 / (total as u128)) as u32
    }
}

/// Appends the records of files. Gives their contents as they went into the
/// checksum. `total` is the size of all files together.
#[verifier::rlimit(40)]
fn write_records<F: Fn(u32)>(
    out: &mut Vec<u8>,
    entries: &[ArchiveEntry],
    quality: u8,
    measured: &[Measurements],
    report: &F,
    total: usize,
) -> (context: md5::Context)
    requires
        accepts(*report, 0, 950),
        total == all_contents(files_of(entries@)).len(),
    ensures
        final(out)@ == old(out)@ + records_from(
            files_of(entries@),
            quality,
            scores_of(measured@),
            0,
        ),
        consumed(context) == all_contents(files_of(entries@)),
        forall|i: int|
            0 < i <= entries@.len() ==> told(report, #[trigger] slice_at(files_of(entries@), i)),
{
    let ghost files = files_of(entries@);
    let ghost ms = scores_of(measured@);
    let ghost start = out@;
    let whole: u64 = if total > 1 {
        total as u64
    } else {
        1
    };
    let mut context = digest_start();
    let mut done: u128 = 0;
    let mut i: usize = 0;
    let none = Measurements::none();
    while i < entries.len()
        invariant
            i <= entries@.len(),
            accepts(*report, 0, 950),
            files == files_of(entries@),
            ms == scores_of(measured@),
            none@ == nothing_measured(),
            whole >= 1,
            whole == (if all_contents(files).len() > 1 {
                all_contents(files).len()
            } else {
                1
            }),
            done <= i * 0x1_0000_0000_0000_0000,
            done == work_before(files, i as int),
            forall|k: int| 0 < k <= i ==> told(report, #[trigger] slice_at(files, k)),
            consumed(context) == contents(files, i as int),
            out@ + records_from(files, quality, ms, i as int) == start + records_from(
                files,
                quality,
                ms,
                0,
            ),
        decreases entries@.len() - i,
    {
        let ghost before = out@;
        let entry = &entries[i];
        let size: u128 = if entry.data.len() > 1 {
            entry.data.len() as u128
        } else {
            1
        };
        let p_start: u32 = share(done, whole);
        let p_end: u32 = share(done + size, whole);
        proof {
            lemma_share_grows(done as int, done + size, whole as int);
            assert(work_before(files, i + 1) == done + size);
            assert(p_end == slice_at(files, i + 1));
        }
        let m = if i < measured.len() {
            &measured[i]
        } else {
            &none
        };
        write_record(out, entry, quality, m, report, p_start, p_end);
        digest_consume(&mut context, entry.data.as_slice());
        assert(m@ == scores_for(ms, i as int));
        assert(out@ + records_from(files, quality, ms, i + 1) =~= before + records_from(
            files,
            quality,
            ms,
            i as int,
        ));
        done += size;
        i += 1;
    }
    assert(out@ + records_from(files, quality, ms, i as int) =~= out@);
    context
}

/// Packs the files of a folder into one archive.
///
/// - `measured`: the scores for each of the files
/// - `report`: is told the progress, in thousandths; each file has a share of it
///   according to its size
pub fn compress_archive<F: Fn(u32)>(
    root_name: &str,
    entries: &[ArchiveEntry],
    quality: u8,
    measured: &[Measurements],
    report: &F,
) -> (r: (Vec<u8>, ArchiveStats))
    requires
        accepts(*report, 0, 950),
        accepts(*report, 1000, 1000),
        all_contents(files_of(entries@)).len() <= usize::MAX,
    ensures
        r.0@ == archived(root_name@, files_of(entries@), quality, scores_of(measured@)),
        r.1.root_name@ == root_name@,
        r.1.file_count == entries@.len(),
        r.1.original_bytes == all_contents(files_of(entries@)).len(),
        r.1.compressed_bytes == r.0@.len(),
        forall|i: int|
            0 < i <= entries@.len() ==> told(report, #[trigger] slice_at(files_of(entries@), i)),
        told(report, 1000),
        folder_fits(files_of(entries@), quality, scores_of(measured@)) && quality >= 100
            ==> unarchived(r.0@) == Ok::<(Seq<char>, Seq<File>), Failure>(
            (root_name@, files_of(entries@)),
        ),
{
    let total: usize = total_size(entries);
    let mut out: Vec<u8> = Vec::new();
    out.push(0x41);
    out.push(0x58);
    out.push(0x4D);
    out.push(0x41);
    out.push(ARCHIVE_VERSION);
    assert(out@ =~= archive_magic() + seq![ARCHIVE_VERSION]);
    write_block(&mut out, root_name.as_bytes());
    extend(&mut out, encode_varint(entries.len() as u64).as_slice());
    let context = write_records(&mut out, entries, quality, measured, report, total);
    let sum = checksum_consumed(context);
    extend(&mut out, sum.as_slice());
    report(1000);
    let stats = ArchiveStats {
        root_name: root_name.to_owned(),
        file_count: entries.len(),
        original_bytes: total,
        compressed_bytes: out.len(),
    };
    proof {
        let files = files_of(entries@);
        let ms = scores_of(measured@);
        if folder_fits(files, quality, ms) && quality >= 100 {
            law_lossless_archive_round_trip(root_name@, files, quality, ms);
        }
    }
    (out, stats)
}

/// Whether a blob is an archive.
pub open spec fn is_archive(blob: Seq<u8>) -> bool {
    blob.len() >= 6 && blob.subrange(0, 4) == archive_magic() && blob[4] == ARCHIVE_VERSION
}

/// Whether a blob is an archive.
pub fn is_axmzip_archive(blob: &[u8]) -> (yes: bool)
    ensures
        yes == is_archive(blob@),
{
    blob.len() >= 6 && begins_with(blob, 0x41, 0x58, 0x4D, 0x41) && blob[4] == ARCHIVE_VERSION
}

/// The text at `off` that follows its length, and where it ends; an error with the
/// text `short` if it is not all there, with the text `foreign` if it is not UTF-8.
pub open spec fn read_text(blob: Seq<u8>, off: int, short: Seq<char>, foreign: Seq<char>) -> Result<
    (Seq<char>, int),
    Failure,
> {
    match read_block(blob, off, short) {
        Err(e) => Err(e),
        Ok((bytes, end)) => if !valid_utf8(bytes) {
            Err(Failure::InvalidData(foreign))
        } else {
            Ok((decode_utf8(bytes), end))
        },
    }
}

/// Reads a text that follows its length.
fn parse_text(
    blob: &[u8],
    off: usize,
    short: &str,
    foreign: &str,
) -> (r: Result<(String, usize), AxmzipError>)
    ensures
        match r {
            Ok((text, end)) => off <= end <= blob@.len() && read_text(
                blob@,
                off as int,
                short@,
                foreign@,
            ) == Ok::<(Seq<char>, int), Failure>((text@, end as int)),
            Err(e) => read_text(blob@, off as int, short@, foreign@) == Err::<
                (Seq<char>, int),
                Failure,
            >(e@),
        },
{
    match find_block(blob, off, short) {
        Err(e) => Err(e),
        Ok((from, to)) => match utf8_text(vstd::slice::slice_subrange(blob, from, to)) {
            None => Err(invalid(foreign)),
            Some(text) => Ok((text.to_owned(), to)),
        },
    }
}

/// The folder name, the number of files, and where the records begin.
pub open spec fn read_root(blob: Seq<u8>, foreign: Seq<char>) -> Result<
    (Seq<char>, u64, int),
    Failure,
> {
    match read_text(blob, 5, "Root name truncated"@, foreign) {
        Err(e) => Err(e),
        Ok((root, off)) => match read_varint(blob, off) {
            Err(e) => Err(e),
            Ok((count, start)) => Ok((root, count, start)),
        },
    }
}

/// Reads the folder name, the number of files, and where the records begin.
fn parse_root(blob: &[u8], foreign: &str) -> (r: Result<(String, u64, usize), AxmzipError>)
    ensures
        match r {
            Ok((root, count, start)) => start <= blob@.len() && read_root(blob@, foreign@) == Ok::<
                (Seq<char>, u64, int),
                Failure,
            >((root@, count, start as int)),
            Err(e) => read_root(blob@, foreign@) == Err::<(Seq<char>, u64, int), Failure>(e@),
        },
{
    match parse_text(blob, 5, "Root name truncated", foreign) {
        Err(e) => Err(e),
        Ok((root, off)) => match decode_varint(blob, off) {
            Err(e) => Err(e),
            Ok((count, start)) => Ok((root, count, start)),
        },
    }
}

/// The file whose record, the `i`th, stands at `off`, and where the record ends.
#[verifier::opaque]
pub open spec fn read_file(blob: Seq<u8>, off: int, i: nat) -> Result<(File, int), Failure> {
    match read_text(
        blob,
        off,
        "Path #"@ + decimal(i) + " truncated"@,
        "Path #"@ + decimal(i) + " not UTF-8"@,
    ) {
        Err(e) => Err(e),
        Ok((path, o1)) => match read_varint(blob, o1) {
            Err(e) => Err(e),
            Ok((size, o2)) => match read_varint(blob, o2) {
                Err(e) => Err(e),
                Ok((len, o3)) => if (len as usize) + CHECKSUM_LEN > blob.len() - o3 {
                    Err(Failure::InvalidData("Entry '"@ + path + "' blob overruns archive"@))
                } else {
                    match decompressed(blob.subrange(o3, o3 + (len as usize))) {
                        Err(e) => Err(e),
                        Ok((data, _)) => if data.len() != size as usize {
                            Err(
                                Failure::InvalidData(
                                    "'"@ + path + "': expected "@ + decimal(size as nat)
                                        + " bytes, got "@ + decimal(data.len()),
                                ),
                            )
                        } else {
                            Ok((File { path, data }, o3 + (len as usize)))
                        },
                    }
                },
            },
        },
    }
}

/// The files from the `i`th of `n` on, whose records begin at `off`, and where they
/// end.
pub open spec fn read_files(blob: Seq<u8>, off: int, i: nat, n: nat) -> Result<
    (Seq<File>, int),
    Failure,
>
    decreases n - i,
{
    if i >= n {
        Ok((Seq::empty(), off))
    } else {
        match read_file(blob, off, i) {
            Err(e) => Err(e),
            Ok((file, end)) => files_behind(seq![file], read_files(blob, end, i + 1, n)),
        }
    }
}

/// What was read, with `files` in front.
pub open spec fn files_behind(files: Seq<File>, r: Result<(Seq<File>, int), Failure>) -> Result<
    (Seq<File>, int),
    Failure,
> {
    match r {
        Err(e) => Err(e),
        Ok((rest, end)) => Ok((files + rest, end)),
    }
}

/// The files whose records, `count` of them, begin at `start`, if the checksum behind
/// them is that of their contents.
pub open spec fn read_checked_files(blob: Seq<u8>, start: int, count: nat) -> Result<
    Seq<File>,
    Failure,
> {
    match read_files(blob, start, 0, count) {
        Err(e) => Err(e),
        Ok((files, end)) => if end + CHECKSUM_LEN > blob.len() {
            Err(Failure::InvalidData("Missing archive checksum"@))
        } else if checksum(all_contents(files)) != blob.subrange(end, end + CHECKSUM_LEN) {
            Err(Failure::ChecksumMismatch)
        } else {
            Ok(files)
        },
    }
}

/// What is wrong with how an archive begins.
pub open spec fn start_fault(blob: Seq<u8>) -> Option<Failure> {
    if blob.len() < 6 {
        Some(Failure::InvalidData("Archive too short"@))
    } else if blob.subrange(0, 4) == magic() {
        Some(Failure::InvalidData("This is a single-file .axm — use decompress() instead"@))
    } else if blob.subrange(0, 4) != archive_magic() {
        Some(Failure::BadMagic)
    } else if blob[4] != ARCHIVE_VERSION {
        Some(Failure::BadVersion)
    } else {
        None
    }
}

/// The folder name and the files of an archive.
pub open spec fn unarchived(blob: Seq<u8>) -> Result<(Seq<char>, Seq<File>), Failure> {
    match start_fault(blob) {
        Some(e) => Err(e),
        None => match read_root(blob, "Root name not UTF-8"@) {
            Err(e) => Err(e),
            Ok((root, count, start)) => match read_checked_files(blob, start, count as nat) {
                Err(e) => Err(e),
                Ok(files) => Ok((root, files)),
            },
        },
    }
}

/// The text that tells what is wrong with the path of the `i`th file.
fn path_text(i: u64, what: &str) -> (text: String)
    ensures
        text@ == "Path #"@ + decimal(i as nat) + what@,
{
    "Path #".to_owned().concat(decimal_text(i).as_str()).concat(what)
}

/// The error for a file that runs into the checksum, or beyond.
fn overrun(path: &str) -> (e: AxmzipError)
    ensures
        e@ == Failure::InvalidData("Entry '"@ + path@ + "' blob overruns archive"@),
{
    AxmzipError::InvalidData("Entry '".to_owned().concat(path).concat("' blob overruns archive"))
}

/// The error for a file that does not have the size it should have.
fn wrong_size(path: &str, size: u64, found: usize) -> (e: AxmzipError)
    ensures
        e@ == Failure::InvalidData(
            "'"@ + path@ + "': expected "@ + decimal(size as nat) + " bytes, got "@ + decimal(
                found as nat,
            ),
        ),
{
    AxmzipError::InvalidData(
        "'".to_owned().concat(path).concat("': expected ").concat(
            decimal_text(size).as_str(),
        ).concat(" bytes, got ").concat(decimal_text(found as u64).as_str()),
    )
}

/// Reads the record of the `i`th file.
fn parse_file(blob: &[u8], off: usize, i: u64) -> (r: Result<(ArchiveEntry, usize), AxmzipError>)
    ensures
        match r {
            Ok((entry, end)) => end <= blob@.len() && read_file(blob@, off as int, i as nat) == Ok::<
                (File, int),
                Failure,
            >((entry@, end as int)),
            Err(e) => read_file(blob@, off as int, i as nat) == Err::<(File, int), Failure>(e@),
        },
{
    reveal(read_file);
    let short = path_text(i, " truncated");
    let foreign = path_text(i, " not UTF-8");
    match parse_text(blob, off, short.as_str(), foreign.as_str()) {
        Err(e) => Err(e),
        Ok((rel_path, o1)) => match decode_varint(blob, o1) {
            Err(e) => Err(e),
            Ok((size, o2)) => match decode_varint(blob, o2) {
                Err(e) => Err(e),
                Ok((len, o3)) => {
                    let len: usize = len as usize;
                    let room: usize = blob.len() - o3;
                    if len > room || room - len < CHECKSUM_LEN {
                        return Err(overrun(rel_path.as_str()));
                    }
                    match decompress(vstd::slice::slice_subrange(blob, o3, o3 + len)) {
                        Err(e) => Err(e),
                        Ok(file) => if file.data.len() != size as usize {
                            Err(wrong_size(rel_path.as_str(), size, file.data.len()))
                        } else {
                            Ok((ArchiveEntry { rel_path, data: file.data }, o3 + len))
                        },
                    }
                },
            },
        },
    }
}

/// Files that were read, the digest of their contents in the making, and where the
/// records end.
struct Unpacked {
    entries: Vec<ArchiveEntry>,
    context: md5::Context,
    end: usize,
}

/// Reads the records of `count` files that begin at `start`.
fn parse_files(blob: &[u8], start: usize, count: u64) -> (r: Result<Unpacked, AxmzipError>)
    requires
        start <= blob@.len(),
    ensures
        match r {
            Ok(u) => u.end <= blob@.len() && consumed(u.context) == all_contents(
                files_of(u.entries@),
            ) && read_files(blob@, start as int, 0, count as nat) == Ok::<
                (Seq<File>, int),
                Failure,
            >((files_of(u.entries@), u.end as int)),
            Err(e) => read_files(blob@, start as int, 0, count as nat) == Err::<
                (Seq<File>, int),
                Failure,
            >(e@),
        },
{
    let mut entries: Vec<ArchiveEntry> = Vec::new();
    let mut context = digest_start();
    let mut off: usize = start;
    let mut i: u64 = 0;
    proof {
        let r = read_files(blob@, start as int, 0, count as nat);
        if r is Ok {
            assert(files_of(entries@) + r->Ok_0.0 =~= r->Ok_0.0);
        }
    }
    while i < count
        invariant
            i <= count,
            off <= blob@.len(),
            consumed(context) == all_contents(files_of(entries@)),
            read_files(blob@, start as int, 0, count as nat) == files_behind(
                files_of(entries@),
                read_files(blob@, off as int, i as nat, count as nat),
            ),
        decreases count - i,
    {
        let ghost before = files_of(entries@);
        match parse_file(blob, off, i) {
            Err(e) => {
                return Err(e);
            },
            Ok((entry, end)) => {
                let ghost file = entry@;
                digest_consume(&mut context, entry.data.as_slice());
                entries.push(entry);
                proof {
                    let now = files_of(entries@);
                    assert(now =~= before.push(file));
                    lemma_contents_prefix(before, now, before.len() as int);
                    let rest = read_files(blob@, end as int, (i + 1) as nat, count as nat);
                    if rest is Ok {
                        assert(before + (seq![file] + rest->Ok_0.0) =~= now + rest->Ok_0.0);
                    }
                }
                off = end;
                i += 1;
            },
        }
    }
    assert(files_of(entries@) + Seq::<File>::empty() =~= files_of(entries@));
    Ok(Unpacked { entries, context, end: off })
}

/// Reads the records of `count` files that begin at `start`, and checks their
/// contents against the checksum behind them.
fn parse_checked_files(
    blob: &[u8],
    start: usize,
    count: u64,
) -> (r: Result<Vec<ArchiveEntry>, AxmzipError>)
    requires
        start <= blob@.len(),
    ensures
        match r {
            Ok(entries) => read_checked_files(blob@, start as int, count as nat) == Ok::<
                Seq<File>,
                Failure,
            >(files_of(entries@)),
            Err(e) => read_checked_files(blob@, start as int, count as nat) == Err::<
                Seq<File>,
                Failure,
            >(e@),
        },
{
    match parse_files(blob, start, count) {
        Err(e) => Err(e),
        Ok(u) => {
            let end: usize = u.end;
            if blob.len() - end < CHECKSUM_LEN {
                return Err(invalid("Missing archive checksum"));
            }
            let sum = checksum_consumed(u.context);
            if !same_bytes(
                sum.as_slice(),
                vstd::slice::slice_subrange(blob, end, end + CHECKSUM_LEN),
            ) {
                return Err(AxmzipError::ChecksumMismatch);
            }
            Ok(u.entries)
        },
    }
}

/// Checks how an archive begins.
fn check_start(blob: &[u8]) -> (fault: Option<AxmzipError>)
    ensures
        match fault {
            Some(e) => start_fault(blob@) == Some(e@),
            None => start_fault(blob@) is None,
        },
{
    if blob.len() < 6 {
        return Some(invalid("Archive too short"));
    }
    if begins_with(blob, 0x41, 0x58, 0x4D, 0x35) {
        return Some(invalid("This is a single-file .axm — use decompress() instead"));
    }
    if !begins_with(blob, 0x41, 0x58, 0x4D, 0x41) {
        return Some(AxmzipError::BadMagic);
    }
    if blob[4] != ARCHIVE_VERSION {
        return Some(AxmzipError::BadVersion);
    }
    None
}

/// Unpacks an archive: the folder name and the files.
pub fn decompress_archive(blob: &[u8]) -> (r: Result<(String, Vec<ArchiveEntry>), AxmzipError>)
    ensures
        match r {
            Ok((root, entries)) => unarchived(blob@) == Ok::<(Seq<char>, Seq<File>), Failure>(
                (root@, files_of(entries@)),
            ),
            Err(e) => unarchived(blob@) == Err::<(Seq<char>, Seq<File>), Failure>(e@),
        },
{
    match check_start(blob) {
        Some(e) => Err(e),
        None => match parse_root(blob, "Root name not UTF-8") {
            Err(e) => Err(e),
            Ok((root, count, start)) => match parse_checked_files(blob, start, count) {
                Err(e) => Err(e),
                Ok(entries) => Ok((root, entries)),
            },
        },
    }
}

/// The contents of the first files do not depend on those that follow.
proof fn lemma_contents_prefix(a: Seq<File>, b: Seq<File>, n: int)
    requires
        n <= a.len(),
        n <= b.len(),
        forall|i: int| 0 <= i < n ==> a[i] == b[i],
    ensures
        contents(a, n) == contents(b, n),
    decreases n,
{
    if n > 0 {
        lemma_contents_prefix(a, b, n - 1);
    }
}

/// The folder name and the number of files, as an archive tells them without being
/// unpacked.
pub open spec fn probed_archive(blob: Seq<u8>) -> Option<(Seq<char>, u64)> {
    if !is_archive(blob) {
        None
    } else {
        match read_root(blob, "Root name not UTF-8"@) {
            Ok((root, count, _)) => Some((root, count)),
            Err(_) => None,
        }
    }
}

/// Tells the folder name and the number of files without unpacking the archive.
pub fn probe_archive(blob: &[u8]) -> (r: Option<(String, u64)>)
    ensures
        match r {
            Some((root, count)) => probed_archive(blob@) == Some((root@, count)),
            None => probed_archive(blob@) is None,
        },
{
    if !is_axmzip_archive(blob) {
        return None;
    }
    match parse_root(blob, "Root name not UTF-8") {
        Ok((root, count, _)) => Some((root, count)),
        Err(_) => None,
    }
}

/// What an archive tells of a file without being unpacked.
#[derive(Clone, Debug)]
pub struct ArchiveFileInfo {
    pub rel_path: String,
    /// The size of the contents.
    pub orig_size: usize,
    /// The size of the container.
    pub packed_size: usize,
}

/// The mathematical value of an [`ArchiveFileInfo`].
#[verifier::ext_equal]
pub struct FileInfo {
    pub path: Seq<char>,
    pub orig_size: usize,
    pub packed_size: usize,
}

impl View for ArchiveFileInfo {
    type V = FileInfo;

    open spec fn view(&self) -> FileInfo {
        FileInfo {
            path: self.rel_path@,
            orig_size: self.orig_size,
            packed_size: self.packed_size,
        }
    }
}

/// The mathematical values of what is told of files.
pub open spec fn infos_of(infos: Seq<ArchiveFileInfo>) -> Seq<FileInfo> {
    Seq::new(infos.len(), |i: int| infos[i]@)
}

/// The extension of a file, in lower case; nothing, if its name has none.
pub open spec fn extension(path: Seq<char>) -> Seq<char> {
    let name = behind_last(path, '/');
    if last_position(name, '.') is None {
        Seq::empty()
    } else {
        lowered(behind_last(name, '.'))
    }
}

impl ArchiveFileInfo {
    /// The extension of the file, in lower case; empty, if there is none.
    pub fn ext(&self) -> (ext: String)
        ensures
            ext@ == extension(self.rel_path@),
    {
        let name = after_last(self.rel_path.as_str(), '/');
        if has_char(name, '.') {
            to_lowercase(after_last(name, '.'))
        } else {
            String::new()
        }
    }
}

/// What the record at `off` tells of its file, and where the record ends.
#[verifier::opaque]
pub open spec fn read_info(blob: Seq<u8>, off: int) -> Result<(FileInfo, int), Failure> {
    match read_text(blob, off, "Path truncated"@, "Path not UTF-8"@) {
        Err(e) => Err(e),
        Ok((path, o1)) => match read_varint(blob, o1) {
            Err(e) => Err(e),
            Ok((size, o2)) => match read_varint(blob, o2) {
                Err(e) => Err(e),
                Ok((len, o3)) => if len as usize > blob.len() - o3 {
                    Err(Failure::InvalidData("Entry blob overruns file"@))
                } else {
                    Ok(
                        (
                            FileInfo {
                                path,
                                orig_size: size as usize,
                                packed_size: len as usize,
                            },
                            o3 + (len as usize),
                        ),
                    )
                },
            },
        },
    }
}

/// What `n` records at `off` tell of their files.
pub open spec fn read_infos(blob: Seq<u8>, off: int, n: nat) -> Result<Seq<FileInfo>, Failure>
    decreases n,
{
    if n == 0 {
        Ok(Seq::empty())
    } else {
        match read_info(blob, off) {
            Err(e) => Err(e),
            Ok((info, end)) => infos_behind(
                seq![info],
                read_infos(blob, end, (n - 1) as nat),
            ),
        }
    }
}

/// What was read, with `infos` in front.
pub open spec fn infos_behind(infos: Seq<FileInfo>, r: Result<Seq<FileInfo>, Failure>) -> Result<
    Seq<FileInfo>,
    Failure,
> {
    match r {
        Err(e) => Err(e),
        Ok(rest) => Ok(infos + rest),
    }
}

/// What keeps an archive from being listed, in how it begins.
pub open spec fn list_fault(blob: Seq<u8>) -> Option<Failure> {
    if blob.len() < 6 {
        Some(Failure::InvalidData("Too short"@))
    } else if blob.subrange(0, 4) != archive_magic() {
        Some(Failure::BadMagic)
    } else if blob[4] != ARCHIVE_VERSION {
        Some(Failure::BadVersion)
    } else {
        None
    }
}

/// The folder name of an archive, and what it tells of its files.
pub open spec fn listed(blob: Seq<u8>) -> Result<(Seq<char>, Seq<FileInfo>), Failure> {
    match list_fault(blob) {
        Some(e) => Err(e),
        None => match read_root(blob, "Root not UTF-8"@) {
            Err(e) => Err(e),
            Ok((root, count, start)) => match read_infos(blob, start, count as nat) {
                Err(e) => Err(e),
                Ok(infos) => Ok((root, infos)),
            },
        },
    }
}

/// Reads what the record at `off` tells of its file.
fn parse_info(blob: &[u8], off: usize) -> (r: Result<(ArchiveFileInfo, usize), AxmzipError>)
    ensures
        match r {
            Ok((info, end)) => end <= blob@.len() && read_info(blob@, off as int) == Ok::<
                (FileInfo, int),
                Failure,
            >((info@, end as int)),
            Err(e) => read_info(blob@, off as int) == Err::<(FileInfo, int), Failure>(e@),
        },
{
    reveal(read_info);
    match parse_text(blob, off, "Path truncated", "Path not UTF-8") {
        Err(e) => Err(e),
        Ok((rel_path, o1)) => match decode_varint(blob, o1) {
            Err(e) => Err(e),
            Ok((size, o2)) => match decode_varint(blob, o2) {
                Err(e) => Err(e),
                Ok((len, o3)) => {
                    let len: usize = len as usize;
                    if len > blob.len() - o3 {
                        return Err(invalid("Entry blob overruns file"));
                    }
                    let info = ArchiveFileInfo {
                        rel_path,
                        orig_size: size as usize,
                        packed_size: len,
                    };
                    Ok((info, o3 + len))
                },
            },
        },
    }
}

/// Reads what `count` records that begin at `start` tell of their files.
fn parse_infos(
    blob: &[u8],
    start: usize,
    count: u64,
) -> (r: Result<Vec<ArchiveFileInfo>, AxmzipError>)
    requires
        start <= blob@.len(),
    ensures
        match r {
            Ok(infos) => read_infos(blob@, start as int, count as nat) == Ok::<
                Seq<FileInfo>,
                Failure,
            >(infos_of(infos@)),
            Err(e) => read_infos(blob@, start as int, count as nat) == Err::<
                Seq<FileInfo>,
                Failure,
            >(e@),
        },
{
    let mut infos: Vec<ArchiveFileInfo> = Vec::new();
    let mut off: usize = start;
    let mut left: u64 = count;
    proof {
        let r = read_infos(blob@, start as int, count as nat);
        if r is Ok {
            assert(infos_of(infos@) + r->Ok_0 =~= r->Ok_0);
        }
    }
    while left > 0
        invariant
            left <= count,
            off <= blob@.len(),
            read_infos(blob@, start as int, count as nat) == infos_behind(
                infos_of(infos@),
                read_infos(blob@, off as int, left as nat),
            ),
        decreases left,
    {
        let ghost before = infos_of(infos@);
        match parse_info(blob, off) {
            Err(e) => {
                return Err(e);
            },
            Ok((info, end)) => {
                let ghost one = info@;
                infos.push(info);
                proof {
                    let now = infos_of(infos@);
                    assert(now =~= before.push(one));
                    let rest = read_infos(blob@, end as int, (left - 1) as nat);
                    if rest is Ok {
                        assert(before + (seq![one] + rest->Ok_0) =~= now + rest->Ok_0);
                    }
                }
                off = end;
                left -= 1;
            },
        }
    }
    assert(infos_of(infos@) + Seq::<FileInfo>::empty() =~= infos_of(infos@));
    Ok(infos)
}

/// Lists the files of an archive without unpacking any: the folder name, and what is
/// told of each file.
pub fn list_archive(blob: &[u8]) -> (r: Result<(String, Vec<ArchiveFileInfo>), AxmzipError>)
    ensures
        match r {
            Ok((root, infos)) => listed(blob@) == Ok::<(Seq<char>, Seq<FileInfo>), Failure>(
                (root@, infos_of(infos@)),
            ),
            Err(e) => listed(blob@) == Err::<(Seq<char>, Seq<FileInfo>), Failure>(e@),
        },
{
    if blob.len() < 6 {
        return Err(invalid("Too short"));
    }
    if !begins_with(blob, 0x41, 0x58, 0x4D, 0x41) {
        return Err(AxmzipError::BadMagic);
    }
    if blob[4] != ARCHIVE_VERSION {
        return Err(AxmzipError::BadVersion);
    }
    match parse_root(blob, "Root not UTF-8") {
        Err(e) => Err(e),
        Ok((root, count, start)) => match parse_infos(blob, start, count) {
            Err(e) => Err(e),
            Ok(infos) => Ok((root, infos)),
        },
    }
}

/// No blob is both an archive and the container of a single file.
pub proof fn law_kinds_exclude(blob: Seq<u8>)
    ensures
        !(is_archive(blob) && is_container(blob)),
{
    assert(archive_magic()[3] != magic()[3]);
}

/// What is told of a file fits the file.
pub open spec fn info_fits(info: FileInfo, file: File) -> bool {
    info.path == file.path && info.orig_size == file.data.len()
}

proof fn lemma_info_of_file(blob: Seq<u8>, off: int, i: nat)
    requires
        read_file(blob, off, i) is Ok,
    ensures
        read_info(blob, off) is Ok,
        read_info(blob, off)->Ok_0.1 == read_file(blob, off, i)->Ok_0.1,
        info_fits(read_info(blob, off)->Ok_0.0, read_file(blob, off, i)->Ok_0.0),
{
    reveal(read_file);
    reveal(read_info);
}

proof fn lemma_infos_of_files(blob: Seq<u8>, off: int, i: nat, n: nat)
    requires
        i <= n,
        read_files(blob, off, i, n) is Ok,
    ensures
        ({
            let files = read_files(blob, off, i, n)->Ok_0.0;
            let r = read_infos(blob, off, (n - i) as nat);
            &&& r is Ok
            &&& r->Ok_0.len() == files.len()
            &&& forall|k: int| 0 <= k < files.len() ==> info_fits(r->Ok_0[k], #[trigger] files[k])
        }),
    decreases n - i,
{
    if i < n {
        lemma_info_of_file(blob, off, i);
        let (file, end) = read_file(blob, off, i)->Ok_0;
        let (info, _) = read_info(blob, off)->Ok_0;
        lemma_infos_of_files(blob, end, i + 1, n);
        let rest = read_files(blob, end, i + 1, n)->Ok_0.0;
        let told = read_infos(blob, end, (n - i - 1) as nat)->Ok_0;
        let files = seq![file] + rest;
        let infos = seq![info] + told;
        assert(read_infos(blob, off, (n - i) as nat) == Ok::<Seq<FileInfo>, Failure>(infos));
        assert forall|k: int| 0 <= k < files.len() implies info_fits(
            infos[k],
            #[trigger] files[k],
        ) by {
            if k > 0 {
                assert(info_fits(told[k - 1], rest[k - 1]));
            }
        }
    }
}

proof fn lemma_same_root(blob: Seq<u8>, a: Seq<char>, b: Seq<char>)
    requires
        read_root(blob, a) is Ok,
    ensures
        read_root(blob, b) == read_root(blob, a),
{
}

/// What can be unpacked can be listed, with the same folder name, and as many files
/// of the same paths and sizes.
pub proof fn law_list_agrees_with_unpacking(blob: Seq<u8>)
    requires
        unarchived(blob) is Ok,
    ensures
        ({
            let (root, files) = unarchived(blob)->Ok_0;
            &&& listed(blob) is Ok
            &&& listed(blob)->Ok_0.0 == root
            &&& listed(blob)->Ok_0.1.len() == files.len()
            &&& forall|k: int|
                0 <= k < files.len() ==> info_fits(listed(blob)->Ok_0.1[k], #[trigger] files[k])
        }),
{
    lemma_same_root(blob, "Root name not UTF-8"@, "Root not UTF-8"@);
    let (root, count, start) = read_root(blob, "Root name not UTF-8"@)->Ok_0;
    lemma_infos_of_files(blob, start, 0, count as nat);
}

} // verus!
