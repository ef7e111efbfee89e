use axmzip::ArchiveEntry;
use axmzip::ArchiveFileInfo;
use axmzip::AxmzipError;
use axmzip::Measurements;
use axmzip::archive::infer_channels;
use axmzip::browser::ArchiveView;
use axmzip::browser::SortCol;
use axmzip::browser::file_icon;
use axmzip::browser::file_name;
use axmzip::browser::first_unsafe;
use axmzip::browser::folder_depth;
use axmzip::browser::is_unsafe_path;
use axmzip::browser::opens_as_archive;
use axmzip::browser::parent_folder;
use axmzip::browser::path_order;
use axmzip::browser::writable_entries;
use axmzip::compress;
use axmzip::compress_archive;
use axmzip::decompress;
use axmzip::decompress_archive;
use axmzip::is_axmzip;
use axmzip::is_axmzip_archive;
use axmzip::list_archive;
use axmzip::options::Command;
use axmzip::options::Options;
use axmzip::options::command_of;
use axmzip::options::parse_byte;
use axmzip::options::parse_options;
use axmzip::probe_archive;
use std::cell::RefCell;

fn entry(path: &str, data: &[u8]) -> ArchiveEntry {
    ArchiveEntry { rel_path: path.to_string(), data: data.to_vec() }
}

fn folder() -> Vec<ArchiveEntry> {
    vec![
        entry("readme.txt", &b"hello axioms ".repeat(30)),
        entry("img/photo.PPM", &[10, 20, 30].repeat(50)),
        entry("empty", &[]),
        entry("ünï/data.bin", &(0u8..200).collect::<Vec<u8>>()),
    ]
}

fn pack(entries: &[ArchiveEntry], quality: u8) -> Vec<u8> {
    compress_archive("folder", entries, quality, &[], &|_: u32| {}).0
}

fn info(path: &str, orig_size: usize, packed_size: usize) -> ArchiveFileInfo {
    ArchiveFileInfo { rel_path: path.to_string(), orig_size, packed_size }
}

fn view(files: Vec<ArchiveFileInfo>, ratios: Vec<i64>) -> ArchiveView {
    ArchiveView::new("root".to_string(), files, ratios)
}

#[test]
fn archive_round_trip() {
    let entries = folder();
    let (blob, stats) = compress_archive("folder", &entries, 100, &[Measurements::none()], &|_: u32| {});
    assert_eq!(stats.root_name, "folder");
    assert_eq!(stats.file_count, 4);
    assert_eq!(stats.original_bytes, 390 + 150 + 200);
    assert_eq!(stats.compressed_bytes, blob.len());
    let (root, back) = decompress_archive(&blob).unwrap();
    assert_eq!(root, "folder");
    assert_eq!(back.len(), entries.len());
    for (a, b) in entries.iter().zip(&back) {
        assert_eq!((&a.rel_path, &a.data), (&b.rel_path, &b.data));
    }
}

#[test]
fn empty_archive_round_trip() {
    let blob = pack(&[], 100);
    assert_eq!(&blob[..13], b"AXMA\x01\x06folder\x00");
    let digest = [
        0xd4, 0x1d, 0x8c, 0xd9, 0x8f, 0x00, 0xb2, 0x04, 0xe9, 0x80, 0x09, 0x98, 0xec, 0xf8, 0x42, 0x7e,
    ];
    assert_eq!(&blob[13..], &digest);
    let (_, back) = decompress_archive(&blob).unwrap();
    assert!(back.is_empty());
}

#[test]
fn archive_checksum_is_that_of_all_contents() {
    let blob = pack(&[entry("a", b"a"), entry("b", b"bc")], 100);
    let digest = [
        0x90, 0x01, 0x50, 0x98, 0x3c, 0xd2, 0x4f, 0xb0, 0xd6, 0x96, 0x3f, 0x7d, 0x28, 0xe1, 0x7f, 0x72,
    ];
    assert_eq!(&blob[blob.len() - 16..], &digest);
}

#[test]
fn listing_agrees_with_unpacking() {
    let blob = pack(&folder(), 100);
    let (root, files) = list_archive(&blob).unwrap();
    let (root2, entries) = decompress_archive(&blob).unwrap();
    assert_eq!(root, root2);
    assert_eq!(files.len(), entries.len());
    for (f, e) in files.iter().zip(&entries) {
        assert_eq!((&f.rel_path, f.orig_size), (&e.rel_path, e.data.len()));
        assert!(f.packed_size > 22);
    }
    assert_eq!(probe_archive(&blob), Some(("folder".to_string(), 4)));
}

#[test]
fn entries_are_containers_of_their_own() {
    let entries = [entry("dir/sub/name.RGBA", &[1, 2, 3, 4].repeat(10))];
    let blob = pack(&entries, 100);
    let (single, _) = compress(&entries[0].data, 100, 4, "name.RGBA", &Measurements::none(), &|_: u32| {});
    let files = list_archive(&blob).unwrap().1;
    assert_eq!(files[0].packed_size, single.len());
    let at = blob.len() - 16 - single.len();
    assert_eq!(&blob[at..blob.len() - 16], &single[..]);
    assert_eq!(decompress(&blob[at..blob.len() - 16]).unwrap().original_filename.as_deref(), Some("name.RGBA"));
}

#[test]
fn kinds_of_blobs_exclude_each_other() {
    let blob = pack(&folder(), 100);
    assert!(is_axmzip_archive(&blob));
    assert!(!is_axmzip(&blob));
    assert!(!is_axmzip_archive(b"AXMA\x01"));
    assert!(!is_axmzip_archive(b"AXMA\x02\x00\x00"));
    assert_eq!(probe_archive(b"AXMA\x02\x00\x00"), None);
    assert_eq!(probe_archive(b"AXMA\x01\x05\x00"), None);
    assert_eq!(probe_archive(b"AXMA\x01\x01\xFF\x00"), None);
}

#[test]
fn lossy_archive_is_refused_where_rounding_changed_it() {
    let blob = pack(&[entry("a.bin", &[1, 2, 3, 100, 201])], 50);
    assert!(matches!(decompress_archive(&blob).unwrap_err(), AxmzipError::ChecksumMismatch));
    let even = [entry("a.bin", &[0, 64, 128, 192, 64])];
    let (_, back) = decompress_archive(&pack(&even, 50)).unwrap();
    assert_eq!(back[0].data, even[0].data);
    assert_eq!(list_archive(&blob).unwrap().1[0].orig_size, 5);
}

#[test]
fn damaged_archives_are_refused() {
    let text = |blob: &[u8]| decompress_archive(blob).unwrap_err().message();
    let blob = pack(&[entry("ab", b"hello"), entry("cd", b"world")], 100);
    assert_eq!(text(b"AXMA"), "Invalid data: Archive too short");
    assert_eq!(text(b"ZIPPED"), "Not an axmzip file (bad magic)");
    assert_eq!(text(b"AXMA\x02\x00"), "Unsupported format version");
    let (single, _) = compress(b"x", 100, 1, "", &Measurements::none(), &|_: u32| {});
    assert_eq!(text(&single), "Invalid data: This is a single-file .axm — use decompress() instead");
    assert_eq!(text(b"AXMA\x01\x09ab"), "Invalid data: Root name truncated");
    assert_eq!(text(b"AXMA\x01\x01\xFF\x00"), "Invalid data: Root name not UTF-8");
    assert_eq!(text(b"AXMA\x01\x00\x01\x05ab"), "Invalid data: Path #0 truncated");
    assert_eq!(text(b"AXMA\x01\x00\x01\x01\xC0\x00"), "Invalid data: Path #0 not UTF-8");
    assert_eq!(text(b"AXMA\x01\x00\x01\x01a\x00\x09\x00"), "Invalid data: Entry 'a' blob overruns archive");
    assert_eq!(text(b"AXMA\x01\x00\x00\x01\x02"), "Invalid data: Missing archive checksum");
    let mut bad = blob.clone();
    let last = bad.len() - 1;
    bad[last] ^= 1;
    assert_eq!(text(&bad), "Checksum mismatch — file may be corrupted");
    let mut bad = blob.clone();
    assert_eq!(bad[16], 5);
    bad[16] = 6;
    assert_eq!(text(&bad), "Invalid data: 'ab': expected 6 bytes, got 5");
    let mut bad = blob;
    bad[18] = b'Z';
    assert_eq!(text(&bad), "Not an axmzip file (bad magic)");
}

#[test]
fn damaged_archives_are_not_listed() {
    let text = |blob: &[u8]| list_archive(blob).unwrap_err().message();
    assert_eq!(text(b"AXMA"), "Invalid data: Too short");
    assert_eq!(text(b"AXM5\x02\x00"), "Not an axmzip file (bad magic)");
    assert_eq!(text(b"AXMA\x02\x00"), "Unsupported format version");
    assert_eq!(text(b"AXMA\x01\x09ab"), "Invalid data: Root name truncated");
    assert_eq!(text(b"AXMA\x01\x01\xFF\x00"), "Invalid data: Root not UTF-8");
    assert_eq!(text(b"AXMA\x01\x00\x01\x05ab"), "Invalid data: Path truncated");
    assert_eq!(text(b"AXMA\x01\x00\x01\x01\xC0\x00"), "Invalid data: Path not UTF-8");
    assert_eq!(text(b"AXMA\x01\x00\x01\x01a\x00\x09\x00"), "Invalid data: Entry blob overruns file");
}

#[test]
fn archive_progress_ends_at_one_thousand() {
    let told: RefCell<Vec<u32>> = RefCell::new(Vec::new());
    let report = |p: u32| told.borrow_mut().push(p);
    compress_archive("f", &folder(), 100, &[], &report);
    let told = told.into_inner();
    assert!(told.windows(2).all(|w| w[0] <= w[1]));
    assert!(told[..told.len() - 1].iter().all(|&p| p <= 950));
    for end in [390 * 950 / 740, 540 * 950 / 740, 541 * 950 / 740, 950] {
        assert!(told.contains(&end), "{end} {:?}", told);
    }
    assert_eq!(*told.last().unwrap(), 1000);
}

#[test]
fn channels_follow_the_extension() {
    assert_eq!(infer_channels("a/b.PPM"), 3);
    assert_eq!(infer_channels("b.rgb"), 3);
    assert_eq!(infer_channels("b.Rgba"), 4);
    assert_eq!(infer_channels("rgb"), 3);
    assert_eq!(infer_channels("b.png"), 1);
    assert_eq!(infer_channels(""), 1);
}

#[test]
fn extensions_are_lower_case() {
    assert_eq!(info("dir/Photo.JPG", 0, 0).ext(), "jpg");
    assert_eq!(info("a.tar.GZ", 0, 0).ext(), "gz");
    assert_eq!(info("Makefile", 0, 0).ext(), "");
    assert_eq!(info("v1.2/notes", 0, 0).ext(), "");
    assert_eq!(info("ÄÖ.ÄÖ", 0, 0).ext(), "äö");
}

#[test]
fn files_are_shown_by_name_first() {
    let v = view(vec![info("b", 1, 1), info("a/x", 2, 2), info("Z", 3, 3), info("a", 4, 4)], vec![]);
    assert_eq!(v.order(), [2, 3, 1, 0]);
    assert_eq!(v.sort_col(), SortCol::Name);
    assert!(v.sort_asc());
    assert_eq!(v.root_name(), "root");
    assert_eq!(v.files().len(), 4);
}

#[test]
fn sorting_again_turns_the_order_round() {
    let files = vec![info("b.rs", 30, 9), info("a.txt", 10, 9), info("c.rs", 20, 7)];
    let mut v = view(files, vec![5, -5, 0]);
    assert_eq!(v.order(), [1, 0, 2]);
    v.sort_by(SortCol::Name);
    assert_eq!(v.order(), [2, 0, 1]);
    assert!(!v.sort_asc());
    v.sort_by(SortCol::Size);
    assert_eq!(v.order(), [1, 2, 0]);
    v.sort_by(SortCol::Size);
    assert_eq!(v.order(), [0, 2, 1]);
    v.sort_by(SortCol::Packed);
    assert_eq!(v.order(), [2, 0, 1]);
    v.sort_by(SortCol::Ratio);
    assert_eq!(v.order(), [1, 2, 0]);
    v.sort_by(SortCol::Type);
    assert_eq!(v.order(), [2, 0, 1]);
    v.sort_by(SortCol::Type);
    assert_eq!(v.order(), [1, 2, 0]);
}

#[test]
fn selection_follows_clicks() {
    let mut v = view(vec![info("a", 10, 1), info("b", 20, 2), info("c", 40, 3)], vec![]);
    assert_eq!((v.total_orig(), v.total_packed(), v.selected_orig()), (70, 6, 0));
    v.click(1);
    assert_eq!((v.selected(), v.selected_orig()), (vec![1], 20));
    v.click(1);
    assert_eq!(v.selected_len(), 0);
    v.toggle(0);
    v.toggle(2);
    assert_eq!((v.selected(), v.selected_orig()), (vec![0, 2], 50));
    v.click(0);
    assert_eq!(v.selected(), [0]);
    assert!(v.is_selected(0) && !v.is_selected(2));
    v.toggle_all();
    assert!(v.all_selected());
    v.toggle_all();
    assert_eq!(v.selected_len(), 0);
    let mut none = view(vec![], vec![]);
    none.toggle_all();
    assert!(!none.all_selected());
}

#[test]
fn paths_have_parts() {
    assert_eq!(folder_depth("a/b/c"), 2);
    assert_eq!(file_name("a/b/c.d"), "c.d");
    assert_eq!(file_name("c.d"), "c.d");
    assert_eq!(parent_folder("a/b/c.d"), "a/b");
    assert_eq!(parent_folder("c.d"), "");
}

#[test]
fn unsafe_paths_are_not_written() {
    assert!(is_unsafe_path("../x"));
    assert!(is_unsafe_path("a/..b"));
    assert!(!is_unsafe_path("a.b/.c."));
    assert!(!is_unsafe_path(""));
    let entries = [entry("ok", &[]), entry("a/../b", &[]), entry("fine", &[])];
    assert_eq!(writable_entries(&entries, &[2, 9, 1, 0]), [2, 0]);
    assert_eq!(first_unsafe(&entries), Some(1));
    assert_eq!(first_unsafe(&entries[..1]), None);
    assert_eq!(first_unsafe(&[]), None);
}

#[test]
fn icons_follow_the_extension() {
    assert_eq!(file_icon("rs"), "◈");
    assert_eq!(file_icon("md"), "≡");
    assert_eq!(file_icon("webp"), "⬡");
    assert_eq!(file_icon("flac"), "♪");
    assert_eq!(file_icon("mov"), "▶");
    assert_eq!(file_icon("pdf"), "⊞");
    assert_eq!(file_icon("7z"), "⊟");
    assert_eq!(file_icon("csv"), "{}");
    assert_eq!(file_icon("exe"), "·");
}

#[test]
fn commands_have_short_names() {
    assert_eq!(command_of("compress"), Some(Command::Compress));
    assert_eq!(command_of("d"), Some(Command::Decompress));
    assert_eq!(command_of("info"), Some(Command::Info));
    assert_eq!(command_of("b"), Some(Command::Bench));
    assert_eq!(command_of("x"), None);
}

#[test]
fn bytes_are_read_in_decimal() {
    for (text, value) in [("0", Some(0)), ("255", Some(255)), ("+7", Some(7)), ("0007", Some(7))] {
        assert_eq!(parse_byte(text), value);
        assert_eq!(text.parse::<u8>().ok(), value);
    }
    for text in ["", "+", "-1", "256", "1x", "99999999999999999999", "++1"] {
        assert_eq!(parse_byte(text), None);
        assert!(text.parse::<u8>().is_err());
    }
}

#[test]
fn options_stand_behind_the_files() {
    let parse = |words: &[&str]| {
        let words: Vec<String> = words.iter().map(|w| w.to_string()).collect();
        parse_options(&words)
    };
    assert_eq!(parse(&["in", "out"]), Options { quality: 100, channels: 1 });
    assert_eq!(parse(&[]), Options { quality: 100, channels: 1 });
    assert_eq!(parse(&["in", "out", "--quality", "90", "--channels", "3"]), Options { quality: 90, channels: 3 });
    assert_eq!(parse(&["in", "out", "x", "--channels", "4", "--channels"]), Options { quality: 100, channels: 1 });
    assert_eq!(parse(&["in", "out", "--quality", "abc"]), Options { quality: 100, channels: 1 });
    assert_eq!(parse(&["--quality", "5"]), Options { quality: 100, channels: 1 });
}

#[test]
fn dropped_archives_are_opened() {
    assert!(opens_as_archive("a.axm"));
    assert!(opens_as_archive("a.b.axm"));
    for name in ["axm", ".axm", "a.AXM", "a.axm.txt", "", "a.", ".."] {
        assert!(!opens_as_archive(name), "{name}");
        assert_ne!(std::path::Path::new(name).extension().and_then(|e| e.to_str()), Some("axm"));
    }
    assert!(opens_as_archive("..axm"));
    assert_eq!(std::path::Path::new("..axm").extension().and_then(|e| e.to_str()), Some("axm"));
}

#[test]
fn folders_are_packed_by_path() {
    let entries = [entry("b", &[]), entry("a/z", &[]), entry("a", &[]), entry("B", &[]), entry("ä", &[])];
    assert_eq!(path_order(&entries), [3, 2, 1, 0, 4]);
    assert!(path_order(&[]).is_empty());
}
