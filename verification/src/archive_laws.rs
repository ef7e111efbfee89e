//! What holds of every archive that is made from a folder.

use vstd::prelude::*;
use vstd::utf8::decode_utf8;
use vstd::utf8::encode_utf8;
use vstd::utf8::encode_utf8_decode_utf8;
use vstd::utf8::encode_utf8_valid_utf8;
use vstd::utf8::valid_utf8;

use crate::archive::ARCHIVE_VERSION;
use crate::archive::ArchiveEntry;
use crate::archive::ArchiveFileInfo;
use crate::archive::File;
use crate::archive::FileInfo;
use crate::archive::all_contents;
use crate::archive::archive_head;
use crate::archive::archive_magic;
use crate::archive::archived;
use crate::archive::channels_hint;
use crate::archive::contents;
use crate::archive::extension;
use crate::archive::files_of;
use crate::archive::infos_of;
use crate::archive::is_archive;
use crate::archive::lemma_share_grows;
use crate::archive::list_fault;
use crate::archive::listed;
use crate::archive::packed;
use crate::archive::probed_archive;
use crate::archive::read_checked_files;
use crate::archive::read_file;
use crate::archive::read_files;
use crate::archive::read_info;
use crate::archive::read_infos;
use crate::archive::read_root;
use crate::archive::read_text;
use crate::archive::record;
use crate::archive::records_from;
use crate::archive::scores_for;
use crate::archive::scores_of;
use crate::archive::slice_at;
use crate::archive::start_fault;
use crate::archive::unarchived;
use crate::archive::work_before;
use crate::bytes::holds_at;
use crate::bytes::lemma_holds_parts;
use crate::container::Measured;
use crate::container::Measurements;
use crate::container::block;
use crate::container::compressed;
use crate::container::decompressed;
use crate::container::file_fits;
use crate::container::given_name;
use crate::container::law_file_round_trip;
use crate::container::law_moderate_file_fits;
use crate::container::lemma_block_extends;
use crate::container::lemma_block_read;
use crate::container::magic;
use crate::container::restored;
use crate::digest::CHECKSUM_LEN;
use crate::digest::checksum;
use crate::error::Failure;
use crate::text::behind_last;
use crate::text::decimal;
use crate::text::law_no_separator;
use crate::text::law_parts_at_last;
use crate::text::lowered;
use crate::varint::lemma_varint_extends;
use crate::varint::lemma_varint_read;
use crate::varint::read_varint;
use crate::varint::varint;

verus! {

/// Whether each file fits on this machine.
pub open spec fn folder_fits(files: Seq<File>, quality: u8, ms: Seq<Measured>) -> bool {
    forall|i: int|
        0 <= i < files.len() ==> (#[trigger] files[i]).data.len() <= usize::MAX && file_fits(
            files[i].data,
            quality,
            channels_hint(files[i].path),
            behind_last(files[i].path, '/'),
            scores_for(ms, i),
        )
}

/// Folders of files of up to sixty million bytes each fit on every machine.
pub proof fn law_moderate_folder_fits(files: Seq<File>, quality: u8, ms: Seq<Measured>)
    requires
        forall|i: int| 0 <= i < files.len() ==> (#[trigger] files[i]).data.len() <= 60_000_000,
    ensures
        folder_fits(files, quality, ms),
{
    assert forall|i: int| 0 <= i < files.len() implies (#[trigger] files[i]).data.len()
        <= usize::MAX && file_fits(
        files[i].data,
        quality,
        channels_hint(files[i].path),
        behind_last(files[i].path, '/'),
        scores_for(ms, i),
    ) by {
        law_moderate_file_fits(
            files[i].data,
            quality,
            channels_hint(files[i].path),
            behind_last(files[i].path, '/'),
            scores_for(ms, i),
        );
    }
}

/// A file as it comes back.
pub open spec fn restored_file(file: File, quality: u8) -> File {
    File { path: file.path, data: restored(file.data, quality) }
}

/// The files as they come back.
pub open spec fn restored_files(files: Seq<File>, quality: u8) -> Seq<File> {
    Seq::new(files.len(), |i: int| restored_file(files[i], quality))
}

/// What is told of a file.
pub open spec fn info_of(file: File, quality: u8, m: Measured) -> FileInfo {
    FileInfo {
        path: file.path,
        orig_size: file.data.len() as usize,
        packed_size: packed(file, quality, m).len() as usize,
    }
}

/// A text is read back.
proof fn lemma_text_read(
    blob: Seq<u8>,
    off: int,
    text: Seq<char>,
    short: Seq<char>,
    foreign: Seq<char>,
)
    requires
        encode_utf8(text).len() <= usize::MAX,
        holds_at(blob, off, block(encode_utf8(text))),
    ensures
        read_text(blob, off, short, foreign) == Ok::<(Seq<char>, int), Failure>(
            (text, off + block(encode_utf8(text)).len()),
        ),
{
    lemma_block_read(blob, off, encode_utf8(text), short);
    encode_utf8_valid_utf8(text);
    encode_utf8_decode_utf8(text);
}

/// The parts of a record, where they stand.
proof fn lemma_record_layout(blob: Seq<u8>, off: int, file: File, quality: u8, m: Measured)
    requires
        holds_at(blob, off, record(file, quality, m)),
    ensures
        ({
            let path = block(encode_utf8(file.path));
            let size = varint(file.data.len());
            let len = varint(packed(file, quality, m).len());
            let o1 = off + path.len();
            let o2 = o1 + size.len();
            let o3 = o2 + len.len();
            &&& holds_at(blob, off, path)
            &&& holds_at(blob, o1, size)
            &&& holds_at(blob, o2, len)
            &&& holds_at(blob, o3, packed(file, quality, m))
            &&& off + record(file, quality, m).len() == o3 + packed(file, quality, m).len()
        }),
{
    let path = block(encode_utf8(file.path));
    let size = varint(file.data.len());
    let blob3 = packed(file, quality, m);
    lemma_holds_parts(blob, off, path + size, block(blob3));
    lemma_holds_parts(blob, off, path, size);
    lemma_holds_parts(blob, off + path.len() + size.len(), varint(blob3.len()), blob3);
}

proof fn lemma_info_read(blob: Seq<u8>, off: int, file: File, quality: u8, m: Measured)
    requires
        blob.len() <= usize::MAX,
        file.data.len() <= usize::MAX,
        holds_at(blob, off, record(file, quality, m)),
    ensures
        read_info(blob, off) == Ok::<(FileInfo, int), Failure>(
            (info_of(file, quality, m), off + record(file, quality, m).len()),
        ),
{
    let path = block(encode_utf8(file.path));
    let size = varint(file.data.len());
    let inner = packed(file, quality, m);
    reveal(read_info);
    lemma_record_layout(blob, off, file, quality, m);
    lemma_text_read(blob, off, file.path, "Path truncated"@, "Path not UTF-8"@);
    lemma_varint_read(blob, off + path.len(), file.data.len());
    lemma_varint_read(blob, off + path.len() + size.len(), inner.len());
}

#[verifier::rlimit(40)]
proof fn lemma_file_read(blob: Seq<u8>, off: int, file: File, quality: u8, m: Measured, i: nat)
    requires
        blob.len() <= usize::MAX,
        file.data.len() <= usize::MAX,
        file_fits(file.data, quality, channels_hint(file.path), behind_last(file.path, '/'), m),
        holds_at(blob, off, record(file, quality, m)),
        off + record(file, quality, m).len() + CHECKSUM_LEN <= blob.len(),
    ensures
        read_file(blob, off, i) == Ok::<(File, int), Failure>(
            (restored_file(file, quality), off + record(file, quality, m).len()),
        ),
{
    let path = block(encode_utf8(file.path));
    let size = varint(file.data.len());
    let inner = packed(file, quality, m);
    let o1 = off + path.len();
    let o2 = o1 + size.len();
    let o3 = o2 + varint(inner.len()).len();
    reveal(read_file);
    lemma_record_layout(blob, off, file, quality, m);
    lemma_text_read(
        blob,
        off,
        file.path,
        "Path #"@ + decimal(i) + " truncated"@,
        "Path #"@ + decimal(i) + " not UTF-8"@,
    );
    lemma_varint_read(blob, o1, file.data.len());
    lemma_varint_read(blob, o2, inner.len());
    assert(blob.subrange(o3, o3 + inner.len()) == inner);
    law_file_round_trip(
        file.data,
        quality,
        channels_hint(file.path),
        behind_last(file.path, '/'),
        m,
    );
    assert(decompressed(inner) == Ok::<(Seq<u8>, Option<Seq<char>>), Failure>(
        (restored(file.data, quality), given_name(behind_last(file.path, '/'))),
    ));
    assert(restored(file.data, quality).len() == file.data.len());
}

proof fn lemma_files_read(
    blob: Seq<u8>,
    off: int,
    files: Seq<File>,
    quality: u8,
    ms: Seq<Measured>,
    i: nat,
)
    requires
        blob.len() <= usize::MAX,
        i <= files.len(),
        folder_fits(files, quality, ms),
        holds_at(blob, off, records_from(files, quality, ms, i as int)),
        off + records_from(files, quality, ms, i as int).len() + CHECKSUM_LEN <= blob.len(),
    ensures
        read_files(blob, off, i, files.len()) == Ok::<(Seq<File>, int), Failure>(
            (
                restored_files(files, quality).subrange(i as int, files.len() as int),
                off + records_from(files, quality, ms, i as int).len(),
            ),
        ),
    decreases files.len() - i,
{
    let all = restored_files(files, quality);
    let n = files.len() as int;
    if i < n {
        let m = scores_for(ms, i as int);
        let first = record(files[i as int], quality, m);
        let rest = records_from(files, quality, ms, i as int + 1);
        lemma_holds_parts(blob, off, first, rest);
        assert(file_fits(
            files[i as int].data,
            quality,
            channels_hint(files[i as int].path),
            behind_last(files[i as int].path, '/'),
            scores_for(ms, i as int),
        ));
        lemma_file_read(blob, off, files[i as int], quality, m, i);
        lemma_files_read(blob, off + first.len(), files, quality, ms, i + 1);
        assert(seq![all[i as int]] + all.subrange(i as int + 1, n) =~= all.subrange(i as int, n));
    } else {
        assert(all.subrange(n, n) =~= Seq::empty());
    }
}

/// What is told of the files from the `i`th on.
pub open spec fn infos_from(
    files: Seq<File>,
    quality: u8,
    ms: Seq<Measured>,
    i: int,
) -> Seq<FileInfo> {
    Seq::new(
        (files.len() - i) as nat,
        |k: int| info_of(files[i + k], quality, scores_for(ms, i + k)),
    )
}

#[verifier::rlimit(40)]
proof fn lemma_infos_read(
    blob: Seq<u8>,
    off: int,
    files: Seq<File>,
    quality: u8,
    ms: Seq<Measured>,
    i: int,
)
    requires
        blob.len() <= usize::MAX,
        0 <= i <= files.len(),
        forall|k: int| 0 <= k < files.len() ==> (#[trigger] files[k]).data.len() <= usize::MAX,
        holds_at(blob, off, records_from(files, quality, ms, i)),
    ensures
        read_infos(blob, off, (files.len() - i) as nat) == Ok::<Seq<FileInfo>, Failure>(
            infos_from(files, quality, ms, i),
        ),
    decreases files.len() - i,
{
    if i < files.len() {
        let m = scores_for(ms, i);
        let first = record(files[i], quality, m);
        lemma_holds_parts(blob, off, first, records_from(files, quality, ms, i + 1));
        lemma_info_read(blob, off, files[i], quality, m);
        lemma_infos_read(blob, off + first.len(), files, quality, ms, i + 1);
        lemma_infos_step(files, quality, ms, i);
    } else {
        assert(infos_from(files, quality, ms, i) =~= Seq::empty());
    }
}

proof fn lemma_infos_step(files: Seq<File>, quality: u8, ms: Seq<Measured>, i: int)
    requires
        0 <= i < files.len(),
    ensures
        seq![info_of(files[i], quality, scores_for(ms, i))] + infos_from(
            files,
            quality,
            ms,
            i + 1,
        ) == infos_from(files, quality, ms, i),
{
    let first = seq![info_of(files[i], quality, scores_for(ms, i))];
    let all = infos_from(files, quality, ms, i);
    let rest = infos_from(files, quality, ms, i + 1);
    assert forall|k: int| 0 <= k < all.len() implies (first + rest)[k] == #[trigger] all[k] by {
        if k > 0 {
            assert(rest[k - 1] == info_of(
                files[i + 1 + (k - 1)],
                quality,
                scores_for(ms, i + 1 + (k - 1)),
            ));
        }
    }
    assert(first + rest =~= all);
}

/// The parts of an archive, where they stand.
proof fn lemma_archive_layout(root: Seq<char>, files: Seq<File>, quality: u8, ms: Seq<Measured>)
    ensures
        ({
            let blob = archived(root, files, quality, ms);
            let o1 = 5 + block(encode_utf8(root)).len() as int;
            let o2 = archive_head(root, files.len()).len() as int;
            let records = records_from(files, quality, ms, 0);
            &&& holds_at(blob, 5, block(encode_utf8(root)))
            &&& holds_at(blob, o1, varint(files.len()))
            &&& o2 == o1 + varint(files.len()).len()
            &&& holds_at(blob, o2, records)
            &&& holds_at(blob, o2 + records.len(), checksum(all_contents(files)))
            &&& blob.len() == o2 + records.len() + CHECKSUM_LEN
            &&& is_archive(blob)
        }),
{
    let blob = archived(root, files, quality, ms);
    let head = archive_head(root, files.len());
    let records = records_from(files, quality, ms, 0);
    let sum = checksum(all_contents(files));
    let fixed = archive_magic() + seq![ARCHIVE_VERSION];
    assert(holds_at(blob, 0, blob)) by {
        assert(blob.subrange(0, blob.len() as int) =~= blob);
    }
    lemma_holds_parts(blob, 0, head + records, sum);
    lemma_holds_parts(blob, 0, head, records);
    lemma_holds_parts(blob, 0, fixed + block(encode_utf8(root)), varint(files.len()));
    lemma_holds_parts(blob, 0, fixed, block(encode_utf8(root)));
    assert(blob.subrange(0, 5) == fixed);
    assert(blob.subrange(0, 4) =~= fixed.subrange(0, 4));
    assert(fixed.subrange(0, 4) =~= archive_magic());
    assert(blob.subrange(0, 5)[4] == blob[4]);
}

proof fn lemma_root_read(
    root: Seq<char>,
    files: Seq<File>,
    quality: u8,
    ms: Seq<Measured>,
    foreign: Seq<char>,
)
    requires
        archived(root, files, quality, ms).len() <= usize::MAX,
        files.len() <= usize::MAX,
    ensures
        read_root(archived(root, files, quality, ms), foreign) == Ok::<
            (Seq<char>, u64, int),
            Failure,
        >((root, files.len() as u64, archive_head(root, files.len()).len() as int)),
{
    let blob = archived(root, files, quality, ms);
    lemma_archive_layout(root, files, quality, ms);
    lemma_text_read(blob, 5, root, "Root name truncated"@, foreign);
    lemma_varint_read(blob, 5 + block(encode_utf8(root)).len() as int, files.len());
}

proof fn lemma_starts_right(root: Seq<char>, files: Seq<File>, quality: u8, ms: Seq<Measured>)
    ensures
        start_fault(archived(root, files, quality, ms)) is None,
        list_fault(archived(root, files, quality, ms)) is None,
{
    lemma_archive_layout(root, files, quality, ms);
    assert(archive_magic()[3] != magic()[3]);
}

/// Unpacking an archive gives back the folder name and the files: each byte of them
/// if the compression is lossless, the rounded bytes if it is lossy. The checksum is
/// that of the contents before rounding, so an archive is refused where rounding
/// changed the checksum.
pub proof fn law_archive_round_trip(
    root: Seq<char>,
    files: Seq<File>,
    quality: u8,
    ms: Seq<Measured>,
)
    requires
        folder_fits(files, quality, ms),
        files.len() <= usize::MAX,
        archived(root, files, quality, ms).len() <= usize::MAX,
    ensures
        unarchived(archived(root, files, quality, ms)) == (if checksum(
            all_contents(restored_files(files, quality)),
        ) == checksum(all_contents(files)) {
            Ok::<(Seq<char>, Seq<File>), Failure>((root, restored_files(files, quality)))
        } else {
            Err::<(Seq<char>, Seq<File>), Failure>(Failure::ChecksumMismatch)
        }),
{
    let blob = archived(root, files, quality, ms);
    let back = restored_files(files, quality);
    let start = archive_head(root, files.len()).len() as int;
    lemma_archive_layout(root, files, quality, ms);
    lemma_starts_right(root, files, quality, ms);
    lemma_root_read(root, files, quality, ms, "Root name not UTF-8"@);
    lemma_files_read(blob, start, files, quality, ms, 0);
    assert(back.subrange(0, files.len() as int) =~= back);
    assert(read_checked_files(blob, start, files.len()) == (if checksum(all_contents(back))
        == checksum(all_contents(files)) {
        Ok::<Seq<File>, Failure>(back)
    } else {
        Err::<Seq<File>, Failure>(Failure::ChecksumMismatch)
    }));
}

/// Unpacking an archive without loss gives back the folder name and the files.
pub proof fn law_lossless_archive_round_trip(
    root: Seq<char>,
    files: Seq<File>,
    quality: u8,
    ms: Seq<Measured>,
)
    requires
        quality >= 100,
        folder_fits(files, quality, ms),
        files.len() <= usize::MAX,
        archived(root, files, quality, ms).len() <= usize::MAX,
    ensures
        unarchived(archived(root, files, quality, ms)) == Ok::<(Seq<char>, Seq<File>), Failure>(
            (root, files),
        ),
{
    law_archive_round_trip(root, files, quality, ms);
    assert(restored_files(files, quality) =~= files);
}

/// Listing an archive tells the folder name and, of each file, the path, the size,
/// and the size of its container.
pub proof fn law_list_tells(root: Seq<char>, files: Seq<File>, quality: u8, ms: Seq<Measured>)
    requires
        files.len() <= usize::MAX,
        forall|k: int| 0 <= k < files.len() ==> (#[trigger] files[k]).data.len() <= usize::MAX,
        archived(root, files, quality, ms).len() <= usize::MAX,
    ensures
        listed(archived(root, files, quality, ms)) == Ok::<(Seq<char>, Seq<FileInfo>), Failure>(
            (root, infos_from(files, quality, ms, 0)),
        ),
{
    let blob = archived(root, files, quality, ms);
    let start = archive_head(root, files.len()).len() as int;
    lemma_archive_layout(root, files, quality, ms);
    lemma_starts_right(root, files, quality, ms);
    lemma_root_read(root, files, quality, ms, "Root not UTF-8"@);
    lemma_infos_read(blob, start, files, quality, ms, 0);
}

/// An archive tells its folder name and how many files it has.
pub proof fn law_probe_archive_tells(
    root: Seq<char>,
    files: Seq<File>,
    quality: u8,
    ms: Seq<Measured>,
)
    requires
        files.len() <= usize::MAX,
        archived(root, files, quality, ms).len() <= usize::MAX,
    ensures
        is_archive(archived(root, files, quality, ms)),
        probed_archive(archived(root, files, quality, ms)) == Some((root, files.len() as u64)),
{
    lemma_archive_layout(root, files, quality, ms);
    lemma_root_read(root, files, quality, ms, "Root name not UTF-8"@);
}

proof fn lemma_records_flat(
    files: Seq<File>,
    quality: u8,
    ms: Seq<Measured>,
    parts: Seq<Seq<u8>>,
    i: int,
)
    requires
        parts.len() == files.len(),
        forall|k: int|
            0 <= k < files.len() ==> #[trigger] parts[k] == record(
                files[k],
                quality,
                scores_for(ms, k),
            ),
        0 <= i <= files.len(),
    ensures
        records_from(files, quality, ms, i) == parts.skip(i).flatten(),
    decreases files.len() - i,
{
    if i < files.len() {
        lemma_records_flat(files, quality, ms, parts, i + 1);
        assert(parts.skip(i).drop_first() =~= parts.skip(i + 1));
        assert(parts.skip(i).first() == parts[i]);
    }
}

proof fn lemma_contents_flat(files: Seq<File>, parts: Seq<Seq<u8>>, n: int)
    requires
        parts.len() == files.len(),
        forall|k: int| 0 <= k < files.len() ==> #[trigger] parts[k] == files[k].data,
        0 <= n <= files.len(),
    ensures
        contents(files, n) == parts.take(n).flatten(),
    decreases n,
{
    parts.take(n).lemma_flatten_and_flatten_alt_are_equivalent();
    if n > 0 {
        lemma_contents_flat(files, parts, n - 1);
        parts.take(n - 1).lemma_flatten_and_flatten_alt_are_equivalent();
        assert(parts.take(n).drop_last() =~= parts.take(n - 1));
        assert(parts.take(n).last() == parts[n - 1]);
    } else {
        assert(parts.take(0) =~= Seq::empty());
    }
}

/// An archive holds, behind its head, a record of each file, in order: its path, its
/// size, and the container that the file has when it is compressed alone, with the
/// scores given at its own index. A file without scores is compressed without any. At
/// the end stands the checksum of all contents.
pub proof fn law_archive_holds_each(
    root: Seq<char>,
    files: Seq<File>,
    quality: u8,
    ms: Seq<Measured>,
)
    ensures
        ({
            let containers = Seq::new(
                files.len(),
                |i: int|
                    compressed(
                        files[i].data,
                        quality,
                        channels_hint(files[i].path),
                        behind_last(files[i].path, '/'),
                        if i < ms.len() {
                            ms[i]
                        } else {
                            (Measured {
                                filters: Seq::empty(),
                                strides: Seq::empty(),
                                stride_filters: Seq::empty(),
                            })
                        },
                    ),
            );
            let records = Seq::new(
                files.len(),
                |i: int|
                    varint(encode_utf8(files[i].path).len()) + encode_utf8(files[i].path) + varint(
                        files[i].data.len(),
                    ) + varint(containers[i].len()) + containers[i],
            );
            archived(root, files, quality, ms) == seq![0x41u8, 0x58, 0x4D, 0x41, 1] + varint(
                encode_utf8(root).len(),
            ) + encode_utf8(root) + varint(files.len()) + records.flatten() + checksum(
                Seq::new(files.len(), |i: int| files[i].data).flatten(),
            )
        }),
{
    let containers = Seq::new(
        files.len(),
        |i: int|
            compressed(
                files[i].data,
                quality,
                channels_hint(files[i].path),
                behind_last(files[i].path, '/'),
                if i < ms.len() {
                    ms[i]
                } else {
                    (Measured {
                        filters: Seq::empty(),
                        strides: Seq::empty(),
                        stride_filters: Seq::empty(),
                    })
                },
            ),
    );
    let records = Seq::new(
        files.len(),
        |i: int|
            varint(encode_utf8(files[i].path).len()) + encode_utf8(files[i].path) + varint(
                files[i].data.len(),
            ) + varint(containers[i].len()) + containers[i],
    );
    assert forall|k: int| 0 <= k < files.len() implies #[trigger] records[k] == record(
        files[k],
        quality,
        scores_for(ms, k),
    ) by {
        assert(containers[k] == packed(files[k], quality, scores_for(ms, k)));
        assert(records[k] =~= record(files[k], quality, scores_for(ms, k)));
    }
    lemma_records_flat(files, quality, ms, records, 0);
    assert(records.skip(0) =~= records);
    let parts = Seq::new(files.len(), |i: int| files[i].data);
    lemma_contents_flat(files, parts, files.len() as int);
    assert(parts.take(files.len() as int) =~= parts);
    let head = seq![0x41u8, 0x58, 0x4D, 0x41, 1] + varint(encode_utf8(root).len()) + encode_utf8(
        root,
    ) + varint(files.len());
    assert(archive_head(root, files.len()) =~= head);
}

/// Each file of an archive is packed as small as it is alone: listing tells the size of
/// the container that the file has when it is compressed with the scores given at its
/// own index.
#[verifier::rlimit(40)]
pub proof fn law_packed_as_alone(
    root: Seq<char>,
    files: Seq<File>,
    quality: u8,
    ms: Seq<Measured>,
    i: int,
)
    requires
        files.len() <= usize::MAX,
        forall|k: int| 0 <= k < files.len() ==> (#[trigger] files[k]).data.len() <= usize::MAX,
        archived(root, files, quality, ms).len() <= usize::MAX,
        0 <= i < files.len(),
        i < ms.len(),
    ensures
        listed(archived(root, files, quality, ms)) matches Ok((name, infos)) && {
            &&& name == root
            &&& infos.len() == files.len()
            &&& infos[i].path == files[i].path
            &&& infos[i].orig_size == files[i].data.len()
            &&& infos[i].packed_size == compressed(
                files[i].data,
                quality,
                channels_hint(files[i].path),
                behind_last(files[i].path, '/'),
                ms[i],
            ).len()
        },
{
    lemma_info_at(root, files, quality, ms, i);
    law_list_tells(root, files, quality, ms);
}

proof fn lemma_info_at(
    root: Seq<char>,
    files: Seq<File>,
    quality: u8,
    ms: Seq<Measured>,
    i: int,
)
    requires
        0 <= i < files.len(),
        files[i].data.len() <= usize::MAX,
        archived(root, files, quality, ms).len() <= usize::MAX,
    ensures
        ({
            let info = infos_from(files, quality, ms, 0)[i];
            &&& info.path == files[i].path
            &&& info.orig_size == files[i].data.len()
            &&& info.packed_size == packed(files[i], quality, scores_for(ms, i)).len()
        }),
{
    lemma_record_short(files, quality, ms, 0, i);
    lemma_archive_layout(root, files, quality, ms);
}

proof fn lemma_record_short(files: Seq<File>, quality: u8, ms: Seq<Measured>, i: int, k: int)
    requires
        0 <= i <= k < files.len(),
    ensures
        packed(files[k], quality, scores_for(ms, k)).len() <= records_from(
            files,
            quality,
            ms,
            i,
        ).len(),
    decreases k - i,
{
    if i < k {
        lemma_record_short(files, quality, ms, i + 1, k);
    } else {
        let inner = packed(files[k], quality, scores_for(ms, k));
        assert(block(inner).len() >= inner.len());
    }
}

proof fn lemma_work_before(files: Seq<File>, i: int, j: int)
    requires
        0 <= i <= j <= files.len(),
    ensures
        work_before(files, i) <= work_before(files, j),
        work_before(files, j) >= contents(files, j).len(),
        j >= 1 ==> work_before(files, j) >= 1,
        (forall|k: int| 0 <= k < j ==> (#[trigger] files[k]).data.len() > 0) ==> work_before(files, j)
            == contents(files, j).len(),
    decreases j,
{
    if j > 0 {
        if i < j {
            lemma_work_before(files, i, j - 1);
        } else {
            lemma_work_before(files, j - 1, j - 1);
        }
        if forall|k: int| 0 <= k < j ==> (#[trigger] files[k]).data.len() > 0 {
            assert(files[j - 1].data.len() > 0);
        }
    }
}

/// The files share the progress up to 950 thousandths: it begins at zero, never falls,
/// ends at 950, and is in proportion to the bytes that are done where no file is empty.
pub proof fn law_shares(files: Seq<File>, i: int, j: int)
    requires
        0 <= i <= j <= files.len(),
    ensures
        slice_at(files, 0) == 0,
        slice_at(files, i) <= slice_at(files, j) <= 950,
        files.len() > 0 ==> slice_at(files, files.len() as int) == 950,
        (forall|k: int| 0 <= k < files.len() ==> (#[trigger] files[k]).data.len() > 0)
            && files.len() > 0 ==> {
            let parts = Seq::new(files.len(), |k: int| files[k].data);
            let done = 950 * parts.take(i).flatten().len();
            let all = parts.flatten().len();
            slice_at(files, i) * all <= done < slice_at(files, i) * all + all
        },
{
    let n = files.len() as int;
    let parts = Seq::new(files.len(), |k: int| files[k].data);
    let size = all_contents(files).len() as int;
    let total = if size > 1 {
        size
    } else {
        1
    };
    lemma_work_before(files, i, j);
    lemma_work_before(files, i, i);
    lemma_work_before(files, i, n);
    lemma_share_grows(work_before(files, i) as int, work_before(files, j) as int, total);
    lemma_share_grows(0, work_before(files, i) as int, total);
    lemma_contents_flat(files, parts, i);
    lemma_contents_flat(files, parts, n);
    assert(parts.take(n) =~= parts);
    assert(0int * 950 / total == 0) by (nonlinear_arith)
        requires
            total >= 1,
    ;
    if (forall|k: int| 0 <= k < files.len() ==> (#[trigger] files[k]).data.len() > 0) && n > 0 {
        assert(forall|k: int| 0 <= k < i ==> (#[trigger] files[k]).data.len() > 0);
        let done = work_before(files, i) as int;
        assert(total == size);
        assert(done <= total);
        if done < total {
            let s = done * 950 / total;
            assert(s * total <= done * 950 < s * total + total) by (nonlinear_arith)
                requires
                    total >= 1,
                    s == done * 950 / total,
            ;
        }
    }
}

/// How many channels a path hints at, going by what follows its last dot, in whichever
/// case it is written; a path without a dot is looked at as a whole.
pub proof fn law_channels(head: Seq<char>, ext: Seq<char>)
    requires
        !ext.contains('.'),
    ensures
        ({
            let hint = if lowered(ext) == "ppm"@ || lowered(ext) == "rgb"@ {
                3u8
            } else if lowered(ext) == "rgba"@ {
                4u8
            } else {
                1u8
            };
            channels_hint(head.push('.') + ext) == hint && channels_hint(ext) == hint
        }),
{
    law_parts_at_last(head, '.', ext);
    law_no_separator(ext, '.');
}

/// The extension of a file is what follows the last dot of its name, in lower case,
/// whatever folder it lies in; a name without a dot has none.
pub proof fn law_extension(folder: Seq<char>, stem: Seq<char>, ext: Seq<char>)
    requires
        !stem.contains('/'),
        !ext.contains('/'),
        !ext.contains('.'),
    ensures
        extension(folder.push('/') + (stem.push('.') + ext)) == lowered(ext),
        extension(stem.push('.') + ext) == lowered(ext),
        extension(folder.push('/') + ext) == Seq::<char>::empty(),
        extension(ext) == Seq::<char>::empty(),
{
    let name = stem.push('.') + ext;
    assert(!name.contains('/')) by {
        if name.contains('/') {
            let i = choose|i: int| 0 <= i < name.len() && name[i] == '/';
            if i < stem.len() {
                assert(stem.contains(stem[i]));
            } else if i > stem.len() {
                assert(ext.contains(ext[i - stem.len() - 1]));
            }
        }
    }
    law_parts_at_last(folder, '/', name);
    law_no_separator(name, '/');
    law_parts_at_last(stem, '.', ext);
    law_parts_at_last(folder, '/', ext);
    law_no_separator(ext, '/');
    law_no_separator(ext, '.');
}

/// How archives are refused by what they begin with: unpacking one that is too short,
/// the container of a single file, what is neither, and another version.
pub proof fn law_archive_refused(blob: Seq<u8>)
    ensures
        blob.len() < 6 ==> unarchived(blob) == Err::<(Seq<char>, Seq<File>), Failure>(
            Failure::InvalidData("Archive too short"@),
        ),
        blob.len() < 6 ==> listed(blob) == Err::<(Seq<char>, Seq<FileInfo>), Failure>(
            Failure::InvalidData("Too short"@),
        ),
        blob.len() < 6 ==> probed_archive(blob) is None,
        blob.len() >= 6 ==> {
            let start = blob.take(4);
            let archive = seq![0x41u8, 0x58, 0x4D, 0x41];
            let single = seq![0x41u8, 0x58, 0x4D, 0x35];
            &&& start == single ==> unarchived(blob) == Err::<(Seq<char>, Seq<File>), Failure>(
                Failure::InvalidData("This is a single-file .axm — use decompress() instead"@),
            )
            &&& start != single && start != archive ==> unarchived(blob) == Err::<
                (Seq<char>, Seq<File>),
                Failure,
            >(Failure::BadMagic)
            &&& start == archive && blob[4] != 1 ==> unarchived(blob) == Err::<
                (Seq<char>, Seq<File>),
                Failure,
            >(Failure::BadVersion)
            &&& start != archive ==> listed(blob) == Err::<(Seq<char>, Seq<FileInfo>), Failure>(
                Failure::BadMagic,
            )
            &&& start == archive && blob[4] != 1 ==> listed(blob) == Err::<
                (Seq<char>, Seq<FileInfo>),
                Failure,
            >(Failure::BadVersion)
            &&& start != archive || blob[4] != 1 ==> probed_archive(blob) is None
            &&& is_archive(blob) <==> start == archive && blob[4] == 1
        },
{
    assert(archive_magic()[3] != magic()[3]);
}

/// What is unpacked from an archive has, all of it together, the checksum that the
/// archive holds behind the files.
pub proof fn law_unpacked_matches_checksum(blob: Seq<u8>)
    requires
        unarchived(blob) is Ok,
    ensures
        ({
            let files = unarchived(blob)->Ok_0.1;
            let sum = checksum(Seq::new(files.len(), |i: int| files[i].data).flatten());
            exists|end: int| #[trigger] holds_at(blob, end, sum)
        }),
{
    let files = unarchived(blob)->Ok_0.1;
    let parts = Seq::new(files.len(), |i: int| files[i].data);
    lemma_contents_flat(files, parts, files.len() as int);
    assert(parts.take(files.len() as int) =~= parts);
    let (root, count, start) = read_root(blob, "Root name not UTF-8"@)->Ok_0;
    let end = read_files(blob, start, 0, count as nat)->Ok_0.1;
    lemma_root_end(blob, "Root name not UTF-8"@);
    lemma_files_end(blob, start, 0, count as nat);
    assert(holds_at(blob, end, checksum(parts.flatten())));
}

proof fn lemma_root_end(blob: Seq<u8>, foreign: Seq<char>)
    requires
        read_root(blob, foreign) is Ok,
    ensures
        read_root(blob, foreign)->Ok_0.2 >= 0,
{
}

proof fn lemma_files_end(blob: Seq<u8>, off: int, i: nat, n: nat)
    requires
        0 <= off,
        read_files(blob, off, i, n) is Ok,
    ensures
        0 <= read_files(blob, off, i, n)->Ok_0.1,
    decreases n - i,
{
    if i < n {
        reveal(read_file);
        lemma_files_end(blob, read_file(blob, off, i)->Ok_0.1, i + 1, n);
    }
}

/// Entries, measurements and what is told of files are taken one by one, in order.
pub proof fn law_entries_taken(
    entries: Seq<ArchiveEntry>,
    measured: Seq<Measurements>,
    infos: Seq<ArchiveFileInfo>,
    i: int,
)
    ensures
        files_of(entries).len() == entries.len(),
        scores_of(measured).len() == measured.len(),
        infos_of(infos).len() == infos.len(),
        0 <= i < entries.len() ==> files_of(entries)[i].path == entries[i].rel_path@ && files_of(
            entries,
        )[i].data == entries[i].data@,
        0 <= i < measured.len() ==> scores_of(measured)[i] == measured[i]@,
        0 <= i < infos.len() ==> infos_of(infos)[i].path == infos[i].rel_path@ && infos_of(
            infos,
        )[i].orig_size == infos[i].orig_size && infos_of(infos)[i].packed_size
            == infos[i].packed_size,
{
}

/// The contents of all files are those of each, one after another.
pub proof fn law_all_contents(files: Seq<File>)
    ensures
        all_contents(files) == Seq::new(files.len(), |i: int| files[i].data).flatten(),
{
    let parts = Seq::new(files.len(), |i: int| files[i].data);
    lemma_contents_flat(files, parts, files.len() as int);
    assert(parts.take(files.len() as int) =~= parts);
}

proof fn lemma_text_extends(
    blob: Seq<u8>,
    extra: Seq<u8>,
    off: int,
    short: Seq<char>,
    foreign: Seq<char>,
)
    requires
        0 <= off,
        read_text(blob, off, short, foreign) is Ok,
    ensures
        read_text(blob + extra, off, short, foreign) == read_text(blob, off, short, foreign),
        off < read_text(blob, off, short, foreign)->Ok_0.1 <= blob.len(),
{
    lemma_block_extends(blob, extra, off, short);
}

proof fn lemma_file_extends(blob: Seq<u8>, extra: Seq<u8>, off: int, i: nat)
    requires
        0 <= off,
        read_file(blob, off, i) is Ok,
    ensures
        read_file(blob + extra, off, i) == read_file(blob, off, i),
        off <= read_file(blob, off, i)->Ok_0.1 <= blob.len(),
{
    reveal(read_file);
    let short = "Path #"@ + decimal(i) + " truncated"@;
    let foreign = "Path #"@ + decimal(i) + " not UTF-8"@;
    lemma_text_extends(blob, extra, off, short, foreign);
    let (path, o1) = read_text(blob, off, short, foreign)->Ok_0;
    lemma_varint_extends(blob, extra, o1);
    let o2 = read_varint(blob, o1)->Ok_0.1;
    lemma_varint_extends(blob, extra, o2);
    let (len, o3) = read_varint(blob, o2)->Ok_0;
    assert((blob + extra).subrange(o3, o3 + (len as usize)) =~= blob.subrange(
        o3,
        o3 + (len as usize),
    ));
}

proof fn lemma_files_extend(blob: Seq<u8>, extra: Seq<u8>, off: int, i: nat, n: nat)
    requires
        0 <= off,
        read_files(blob, off, i, n) is Ok,
    ensures
        read_files(blob + extra, off, i, n) == read_files(blob, off, i, n),
        off <= read_files(blob, off, i, n)->Ok_0.1,
    decreases n - i,
{
    if i < n {
        lemma_file_extends(blob, extra, off, i);
        lemma_files_extend(blob, extra, read_file(blob, off, i)->Ok_0.1, i + 1, n);
    }
}

/// What follows an archive does not matter.
pub proof fn law_archive_rest_passed_over(blob: Seq<u8>, extra: Seq<u8>)
    requires
        unarchived(blob) is Ok,
    ensures
        unarchived(blob + extra) == unarchived(blob),
{
    let all = blob + extra;
    let foreign = "Root name not UTF-8"@;
    assert(all.subrange(0, 4) =~= blob.subrange(0, 4));
    assert(start_fault(all) is None);
    lemma_text_extends(blob, extra, 5, "Root name truncated"@, foreign);
    let off = read_text(blob, 5, "Root name truncated"@, foreign)->Ok_0.1;
    lemma_varint_extends(blob, extra, off);
    assert(read_root(all, foreign) == read_root(blob, foreign));
    let (root, count, start) = read_root(blob, foreign)->Ok_0;
    lemma_files_extend(blob, extra, start, 0, count as nat);
    let end = read_files(blob, start, 0, count as nat)->Ok_0.1;
    assert(all.subrange(end, end + CHECKSUM_LEN) =~= blob.subrange(end, end + CHECKSUM_LEN));
}

/// Each file adds its size to the work, and an empty one as much as one byte.
pub proof fn law_work_adds_up(files: Seq<File>, i: int)
    requires
        0 <= i < files.len(),
    ensures
        work_before(files, 0) == 0,
        files[i].data.len() > 0 ==> work_before(files, i + 1) == work_before(files, i)
            + files[i].data.len(),
        files[i].data.len() == 0 ==> work_before(files, i + 1) == work_before(files, i) + 1,
{
}

/// A text in an archive is what its bytes are in UTF-8; other bytes are refused, and so
/// is what is not all there.
pub proof fn law_text_read(blob: Seq<u8>, off: int, short: Seq<char>, foreign: Seq<char>)
    ensures
        read_varint(blob, off) matches Ok((len, next)) ==> read_text(blob, off, short, foreign) == (
        if len as usize > blob.len() - next {
            Err::<(Seq<char>, int), Failure>(Failure::InvalidData(short))
        } else {
            let bytes = blob.subrange(next, next + len as usize);
            if valid_utf8(bytes) {
                Ok::<(Seq<char>, int), Failure>((decode_utf8(bytes), next + len as usize))
            } else {
                Err::<(Seq<char>, int), Failure>(Failure::InvalidData(foreign))
            }
        }),
        read_varint(blob, off) matches Err(e) ==> read_text(blob, off, short, foreign) == Err::<
            (Seq<char>, int),
            Failure,
        >(e),
{
}

proof fn lemma_infos_within(blob: Seq<u8>, off: int, n: nat)
    requires
        0 <= off <= blob.len(),
        read_infos(blob, off, n) is Ok,
    ensures
        read_infos(blob, off, n)->Ok_0.len() == n,
        forall|k: int|
            0 <= k < n ==> (#[trigger] read_infos(blob, off, n)->Ok_0[k]).packed_size <= blob.len()
                - off,
    decreases n,
{
    if n > 0 {
        reveal(read_info);
        let (info, end) = read_info(blob, off)->Ok_0;
        lemma_info_within(blob, off);
        lemma_infos_within(blob, end, (n - 1) as nat);
        let rest = read_infos(blob, end, (n - 1) as nat)->Ok_0;
        let all = read_infos(blob, off, n)->Ok_0;
        assert(all == seq![info] + rest);
        assert forall|k: int| 0 <= k < n implies (#[trigger] all[k]).packed_size <= blob.len()
            - off by {
            if k > 0 {
                assert(all[k] == rest[k - 1]);
            }
        }
    }
}

proof fn lemma_info_within(blob: Seq<u8>, off: int)
    requires
        0 <= off <= blob.len(),
        read_info(blob, off) is Ok,
    ensures
        off <= read_info(blob, off)->Ok_0.1 <= blob.len(),
        read_info(blob, off)->Ok_0.0.packed_size <= read_info(blob, off)->Ok_0.1 - off,
{
    reveal(read_info);
    let none = Seq::<u8>::empty();
    lemma_text_extends(blob, none, off, "Path truncated"@, "Path not UTF-8"@);
    let (path, o1) = read_text(blob, off, "Path truncated"@, "Path not UTF-8"@)->Ok_0;
    lemma_varint_extends(blob, none, o1);
    let o2 = read_varint(blob, o1)->Ok_0.1;
    lemma_varint_extends(blob, none, o2);
}

/// An archive that can be listed holds the containers that it tells of: one that was cut
/// short within them cannot be listed.
pub proof fn law_listed_within(blob: Seq<u8>, k: int)
    requires
        listed(blob) is Ok,
        0 <= k < listed(blob)->Ok_0.1.len(),
    ensures
        listed(blob)->Ok_0.1[k].packed_size <= blob.len(),
        probed_archive(blob) matches Some((root, count)) && root == listed(blob)->Ok_0.0 && count
            == listed(blob)->Ok_0.1.len(),
{
    let none = Seq::<u8>::empty();
    let foreign = "Root not UTF-8"@;
    lemma_text_extends(blob, none, 5, "Root name truncated"@, foreign);
    let off = read_text(blob, 5, "Root name truncated"@, foreign)->Ok_0.1;
    lemma_varint_extends(blob, none, off);
    let (root, count, start) = read_root(blob, foreign)->Ok_0;
    lemma_infos_within(blob, start, count as nat);
}

} // verus!
