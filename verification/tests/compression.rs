use axmzip::AxmzipError;
use axmzip::CompressStats;
use axmzip::Measurements;
use axmzip::Score;
use axmzip::compress;
use axmzip::container::MODE_LOSSY;
use axmzip::container::MODE_PLAIN;
use axmzip::container::MODE_STRIDE;
use axmzip::container::read_header;
use axmzip::container::write_header;
use axmzip::decompress;
use axmzip::dfa::infer_dfa;
use axmzip::filter::apply_filter;
use axmzip::filter::candidate_filters;
use axmzip::is_axmzip;
use axmzip::is_axmzip_archive;
use axmzip::probe;
use axmzip::quantize::quantize;
use axmzip::score::byte_counts;
use axmzip::stride::best_stride;
use axmzip::stride::candidate_strides;
use axmzip::stride::stride_delta;
use axmzip::varint::decode_varint;
use axmzip::varint::encode_varint;
use std::cell::RefCell;

fn entropy(data: &[u8]) -> f64 {
    if data.is_empty() {
        return 0.0;
    }
    let n = data.len() as f64;
    byte_counts(data)
        .iter()
        .filter(|&&c| c > 0)
        .map(|&c| {
            let p = c as f64 / n;
            -p * p.log2()
        })
        .sum()
}

fn order_key(x: f64) -> i64 {
    let bits = (x + 0.0).to_bits() as i64;
    bits ^ (((bits >> 63) as u64) >> 1) as i64
}

fn score(data: &[u8]) -> Score {
    let h = entropy(data);
    Score { rank: order_key(h), bar: order_key(h - 0.05) }
}

fn filter_scores(data: &[u8], channels: u8) -> Vec<Score> {
    candidate_filters(data.len(), channels).into_iter().map(|f| score(&apply_filter(data, f))).collect()
}

fn measure(data: &[u8], quality: u8, channels: u8) -> Measurements {
    if quality < 100 {
        let filters = filter_scores(&quantize(data, quality), channels);
        return Measurements { filters, strides: vec![], stride_filters: vec![] };
    }
    let strides: Vec<Score> = candidate_strides(data.len())
        .into_iter()
        .map(|s| if s == 0 { score(data) } else { score(&stride_delta(data, s)) })
        .collect();
    let (_, differences) = best_stride(data, &strides);
    Measurements {
        filters: filter_scores(data, channels),
        stride_filters: filter_scores(&differences, channels),
        strides,
    }
}

fn pack(data: &[u8], quality: u8, channels: u8, name: &str) -> (Vec<u8>, CompressStats) {
    compress(data, quality, channels, name, &measure(data, quality, channels), &|_: u32| {})
}

fn roundtrip(data: &[u8], quality: u8) {
    let (blob, stats) = pack(data, quality, 1, "test.bin");
    let result = decompress(&blob).unwrap();
    if quality == 100 {
        assert_eq!(result.data, data, "Lossless mismatch");
    }
    assert_eq!(stats.original_bytes, data.len());
    assert_eq!(stats.compressed_bytes, blob.len());
}

fn text_of(e: AxmzipError) -> String {
    e.message()
}

#[test]
fn rt_repetitive() {
    roundtrip(&b"\xAB\xCD\xEF\x01".repeat(2000), 100);
}

#[test]
fn rt_counter() {
    roundtrip(&(0u8..=255).cycle().take(8000).collect::<Vec<_>>(), 100);
}

#[test]
fn rt_lossy() {
    roundtrip(&(0u8..=255).cycle().take(8000).collect::<Vec<_>>(), 75);
}

#[test]
fn filename_preserved() {
    let data = b"hello world".repeat(200);
    let (blob, _) = pack(&data, 100, 1, "document.txt");
    let result = decompress(&blob).unwrap();
    assert_eq!(result.original_filename.as_deref(), Some("document.txt"));
    assert_eq!(result.data, data);
}

#[test]
fn sensor_stride() {
    let mut data = Vec::new();
    for i in 0u16..800 {
        data.extend_from_slice(&[0xFF, (i % 64) as u8, (i * 3 % 256) as u8, 0x04, 0x00]);
    }
    let (blob, stats) = pack(&data, 100, 1, "sensor.bin");
    let ratio_pct = (1.0 - stats.compressed_bytes as f64 / stats.original_bytes as f64) * 100.0;
    assert!(ratio_pct > 50.0, "Expected >50% got {:.1}%", ratio_pct);
    let result = decompress(&blob).unwrap();
    assert_eq!(result.data, data);
}

#[test]
fn varint_rt() {
    for n in [0u64, 1, 127, 128, 16383, 16384, u32::MAX as u64] {
        let enc = encode_varint(n);
        let (dec, _) = decode_varint(&enc, 0).unwrap();
        assert_eq!(n, dec);
    }
}

#[test]
fn dfa_types() {
    let d = vec![0xFFu8; 100];
    assert_eq!(infer_dfa(&d).generate(), d);
    let d: Vec<u8> = (0..100).collect();
    assert_eq!(infer_dfa(&d).generate(), d);
    let d: Vec<u8> = (0..100).map(|i| if i % 2 == 0 { 0xAA } else { 0x55 }).collect();
    assert_eq!(infer_dfa(&d).generate(), d);
    let d = b"ABC".repeat(30);
    assert_eq!(infer_dfa(&d).generate(), d);
}

#[test]
fn empty_file_comes_back() {
    for quality in [100u8, 40] {
        let (blob, stats) = pack(&[], quality, 1, "empty");
        let result = decompress(&blob).unwrap();
        assert!(result.data.is_empty());
        assert_eq!(result.original_filename.as_deref(), Some("empty"));
        assert_eq!(stats.max_error, 0);
        assert_eq!(stats.squared_error, if quality == 100 { Some(0) } else { None });
    }
}

#[test]
fn every_channel_count_comes_back() {
    let data: Vec<u8> = (0..1200u32).map(|i| (i / 3 * 7 + i % 3 * 50) as u8).collect();
    for channels in [0u8, 1, 3, 4, 255] {
        let (blob, _) = pack(&data, 100, channels, "");
        assert_eq!(decompress(&blob).unwrap().data, data);
    }
}

#[test]
fn scores_do_not_matter_for_the_contents() {
    let data: Vec<u8> = (0..900u32).map(|i| (i * i % 251) as u8).collect();
    let odd = vec![Score { rank: 5, bar: 5 }, Score { rank: -3, bar: 7 }, Score { rank: -9, bar: 0 }];
    let m = Measurements { filters: odd.clone(), strides: odd.clone(), stride_filters: odd };
    let (blob, _) = compress(&data, 100, 3, "x", &m, &|_: u32| {});
    assert_eq!(decompress(&blob).unwrap().data, data);
    let (blob, _) = compress(&data, 100, 3, "x", &Measurements::none(), &|_: u32| {});
    assert_eq!(decompress(&blob).unwrap().data, data);
}

#[test]
fn lossy_keeps_rounded_bytes() {
    let data: Vec<u8> = (0u8..=255).collect();
    for quality in [0u8, 25, 50, 74, 75, 89, 90, 99] {
        let (blob, stats) = pack(&data, quality, 1, "");
        let result = decompress(&blob).unwrap();
        assert_eq!(result.data, quantize(&data, quality));
        assert!(!stats.lossless);
        assert_eq!(stats.max_error, axmzip::max_error(&data, &result.data));
    }
}

#[test]
fn lossy_statistics_are_exact() {
    let (blob, stats) = pack(&[0, 10, 20, 40], 75, 1, "");
    assert_eq!(decompress(&blob).unwrap().data, [0, 0, 32, 32]);
    assert_eq!(stats.mode, "lossy(q=75,step=32)");
    assert_eq!(stats.max_error, 12);
    assert_eq!(stats.squared_error, Some(100 + 144 + 64));
    assert_eq!(stats.lib_entries, 0);
}

#[test]
fn quality_above_full_is_lossless() {
    let data = b"abcabcabc".to_vec();
    let (blob, stats) = pack(&data, 200, 1, "");
    assert!(stats.lossless);
    assert_eq!(decompress(&blob).unwrap().data, data);
}

#[test]
fn header_layout_is_exact() {
    let (blob, stats) = pack(b"abc", 100, 1, "a.txt");
    assert_eq!(&blob[..5], b"AXM5\x02");
    let digest = [
        0x90, 0x01, 0x50, 0x98, 0x3c, 0xd2, 0x4f, 0xb0, 0xd6, 0x96, 0x3f, 0x7d, 0x28, 0xe1, 0x7f, 0x72,
    ];
    assert_eq!(&blob[5..21], &digest);
    assert_eq!(blob[21], MODE_PLAIN);
    assert_eq!(&blob[22..28], b"\x05a.txt");
    assert_eq!(stats.mode, "plain");
}

#[test]
fn header_round_trip() {
    let blob = write_header(&[7; 16], MODE_STRIDE, "Grüße.bin");
    let (mode, name, off) = read_header(&blob).unwrap();
    assert_eq!((mode, name.as_str(), off), (MODE_STRIDE, "Grüße.bin", blob.len()));
}

#[test]
fn odd_file_name_is_read_with_replacements() {
    let mut blob = write_header(&[0; 16], MODE_PLAIN, "ab");
    let at = blob.len() - 1;
    blob[at] = 0xFF;
    let (_, name, _) = read_header(&blob).unwrap();
    assert_eq!(name, "a\u{FFFD}");
}

#[test]
fn no_file_name_gives_none() {
    let (blob, _) = pack(b"data", 100, 1, "");
    assert!(decompress(&blob).unwrap().original_filename.is_none());
}

#[test]
fn stride_is_chosen_only_if_shorter() {
    let mut data = Vec::new();
    for i in 0u32..400 {
        data.extend_from_slice(&(i * 77 + 1234567).to_le_bytes());
        data.extend_from_slice(&(i * i % 7).to_le_bytes()[..1]);
    }
    let m = measure(&data, 100, 1);
    let (blob, stats) = compress(&data, 100, 1, "s", &m, &|_: u32| {});
    let plain = Measurements { strides: vec![], ..m.clone() };
    let (other, plain_stats) = compress(&data, 100, 1, "s", &plain, &|_: u32| {});
    assert_eq!(plain_stats.mode, "plain");
    assert!(blob.len() <= other.len());
    assert_eq!(stats.mode == "plain", blob == other);
    assert_eq!(decompress(&blob).unwrap().data, data);
    assert_eq!(decompress(&other).unwrap().data, data);
}

#[test]
fn stride_container_comes_back() {
    let mut data = Vec::new();
    for i in 0u32..300 {
        data.extend_from_slice(&[(i * 3) as u8, (i / 5) as u8, 9, (200 - i % 200) as u8, 0, (i * 11) as u8, 1]);
    }
    let (blob, stats) = pack(&data, 100, 1, "s");
    assert_eq!(stats.mode, "stride(s=7)");
    assert_eq!(probe(&blob).unwrap(), "lossless/stride(s=7)");
    assert_eq!(blob[21], MODE_STRIDE);
    assert_eq!(decompress(&blob).unwrap().data, data);
}

#[test]
fn probe_tells_the_mode() {
    let (plain, _) = pack(b"x", 100, 1, "n");
    assert_eq!(probe(&plain).unwrap(), "lossless/plain");
    let (lossy, _) = pack(b"x", 42, 1, "n");
    assert_eq!(probe(&lossy).unwrap(), "lossy(q=42)");
    assert_eq!(lossy[21], MODE_LOSSY);
    let stride = write_header(&[0; 16], MODE_STRIDE, "");
    assert_eq!(probe(&stride).unwrap(), "lossless/stride(s=0)");
    let other = write_header(&[0; 16], 9, "");
    assert_eq!(probe(&other).unwrap(), "unknown");
    assert!(probe(b"short").is_none());
}

#[test]
fn containers_are_recognised() {
    let (blob, _) = pack(b"x", 100, 1, "n");
    assert!(is_axmzip(&blob));
    assert!(!is_axmzip_archive(&blob));
    assert!(!is_axmzip(&blob[..21]));
    assert!(!is_axmzip(b"AXMA\x01\x00\x00\x00\x00\x00\x00\x00\x00\x00\x00\x00\x00\x00\x00\x00\x00\x00\x00"));
}

#[test]
fn damaged_containers_are_refused() {
    let (blob, _) = compress(&b"hello world".repeat(20), 100, 1, "name", &Measurements::none(), &|_: u32| {});
    assert_eq!(text_of(decompress(&blob[..10]).unwrap_err()), "Invalid data: File too short");
    let mut bad = blob.clone();
    bad[0] = b'Z';
    assert!(matches!(decompress(&bad).unwrap_err(), AxmzipError::BadMagic));
    assert_eq!(text_of(decompress(&bad).unwrap_err()), "Not an axmzip file (bad magic)");
    let mut bad = blob.clone();
    bad[4] = 1;
    assert!(matches!(decompress(&bad).unwrap_err(), AxmzipError::BadVersion));
    assert_eq!(text_of(decompress(&bad).unwrap_err()), "Unsupported format version");
    let mut bad = blob.clone();
    bad[5] ^= 1;
    assert!(matches!(decompress(&bad).unwrap_err(), AxmzipError::ChecksumMismatch));
    assert_eq!(text_of(decompress(&bad).unwrap_err()), "Checksum mismatch — file may be corrupted");
    let mut bad = blob.clone();
    bad[21] = 7;
    assert_eq!(text_of(decompress(&bad).unwrap_err()), "Invalid data: Unknown mode 7");
    let mut bad = blob.clone();
    bad[22] = 127;
    bad.truncate(60);
    assert_eq!(text_of(decompress(&bad).unwrap_err()), "Invalid data: Filename truncated");
    assert_eq!(text_of(decompress(&blob[..blob.len() - 1]).unwrap_err()), "Invalid data: Truncated plain blob");
}

#[test]
fn damaged_bodies_are_refused() {
    let mut stride = write_header(&[0; 16], MODE_STRIDE, "");
    assert_eq!(text_of(decompress(&stride).unwrap_err()), "Invalid data: Truncated stride blob");
    stride.push(3);
    assert_eq!(text_of(decompress(&stride).unwrap_err()), "Invalid data: Unexpected end of varint");
    stride.push(9);
    assert_eq!(text_of(decompress(&stride).unwrap_err()), "Invalid data: Truncated stride blob");
    let mut lossy = write_header(&[0; 16], MODE_LOSSY, "");
    assert_eq!(text_of(decompress(&lossy).unwrap_err()), "Invalid data: Unexpected end of varint");
    lossy.extend_from_slice(&[50, 1, 4]);
    assert_eq!(text_of(decompress(&lossy).unwrap_err()), "Invalid data: Truncated lossy blob");
    let mut plain = write_header(&[0; 16], MODE_PLAIN, "");
    plain.extend_from_slice(&[3, 1, 2, 3]);
    assert_eq!(text_of(decompress(&plain).unwrap_err()), "Invalid data: Bad inner magic");
}

#[test]
fn zero_stride_is_refused() {
    let mut blob = write_header(&[0; 16], MODE_STRIDE, "");
    blob.push(0);
    blob.extend_from_slice(&[7, b'A', b'X', b'i', 5, 0, 0, 0]);
    assert_eq!(text_of(decompress(&blob).unwrap_err()), "Invalid data: Stride is zero");
}

#[test]
fn progress_is_told_in_order() {
    let data = b"abcdefgh".repeat(100);
    for quality in [100u8, 60] {
        let told: RefCell<Vec<u32>> = RefCell::new(Vec::new());
        let report = |p: u32| told.borrow_mut().push(p);
        let m = measure(&data, quality, 1);
        compress(&data, quality, 1, "p", &m, &report);
        let told = told.into_inner();
        assert!(told.windows(2).all(|w| w[0] <= w[1]), "{:?}", told);
        assert_eq!(told[0], 20);
        assert_eq!(*told.last().unwrap(), 1000);
        assert!(told.contains(&50));
        let (from, to) = if quality < 100 { (100, 900) } else { (50, 520) };
        for part in [0, 10, 450, 500, 750, 900, 980] {
            assert!(told.contains(&(from + part * (to - from) / 1000)), "{part} {:?}", told);
        }
        assert!(told.contains(&(if quality < 100 { 950 } else { 550 })));
    }
}

#[test]
fn progress_without_a_stride_skips_to_its_end() {
    let told: RefCell<Vec<u32>> = RefCell::new(Vec::new());
    let report = |p: u32| told.borrow_mut().push(p);
    compress(&[], 100, 1, "", &Measurements::none(), &report);
    assert_eq!(
        told.into_inner(),
        [20, 50, 50, 261, 285, 402, 402, 473, 510, 550, 950, 1000],
    );
}
