use axmzip::AxmzipError;
use axmzip::Score;
use axmzip::compound::compound_passes;
use axmzip::dfa::DfaKind;
use axmzip::dfa::infer_dfa;
use axmzip::encode::greedy_encode;
use axmzip::filter::Filter;
use axmzip::filter::apply_filter;
use axmzip::filter::best_filter;
use axmzip::filter::candidate_filters;
use axmzip::filter::delta1;
use axmzip::filter::delta2;
use axmzip::filter::delta_ch;
use axmzip::filter::reverse_filter;
use axmzip::filter::undelta1;
use axmzip::filter::undelta2;
use axmzip::filter::undelta_ch;
use axmzip::inner::des_inner;
use axmzip::inner::ser_inner;
use axmzip::library::AxiomEntry;
use axmzip::library::AxiomLib;
use axmzip::max_error;
use axmzip::order::rank;
use axmzip::patterns::find_candidates;
use axmzip::patterns::select_axioms;
use axmzip::quality_to_step;
use axmzip::quantize::QualityBand;
use axmzip::quantize::quality_band;
use axmzip::quantize::quantize;
use axmzip::quantize::squared_error;
use axmzip::score::byte_counts;
use axmzip::stream::compress_stream;
use axmzip::stream::decompress_stream;
use axmzip::stride::best_stride;
use axmzip::stride::candidate_strides;
use axmzip::stride::stride_delta;
use axmzip::stride::stride_undelta;
use axmzip::tally::tally;
use axmzip::varint::decode_varint;
use axmzip::varint::encode_varint;
use axmzip::varint::varint_len;
use std::cell::RefCell;

fn quiet(_: u32) {}

fn sample() -> Vec<u8> {
    let mut x = 12345u32;
    let mut out = Vec::new();
    for i in 0..600u32 {
        x = x.wrapping_mul(1664525).wrapping_add(1013904223);
        out.push(if i % 3 == 0 { (x >> 24) as u8 } else { (i / 7) as u8 });
    }
    out
}

#[test]
fn varint_bytes_are_exact() {
    assert_eq!(encode_varint(0), [0]);
    assert_eq!(encode_varint(127), [0x7F]);
    assert_eq!(encode_varint(300), [0xAC, 0x02]);
    assert_eq!(encode_varint(u64::MAX), [0xFF, 0xFF, 0xFF, 0xFF, 0xFF, 0xFF, 0xFF, 0xFF, 0xFF, 0x01]);
    for n in [0u64, 127, 128, 300, 1 << 35, u64::MAX] {
        assert_eq!(varint_len(n), encode_varint(n).len());
        let mut data = vec![9u8, 9];
        data.extend(encode_varint(n));
        data.push(0x80);
        assert_eq!(decode_varint(&data, 2).unwrap(), (n, data.len() - 1));
    }
}

#[test]
fn bad_varints_are_refused() {
    assert_eq!(decode_varint(&[0x80], 0).unwrap_err().message(), "Invalid data: Unexpected end of varint");
    assert_eq!(decode_varint(&[], 5).unwrap_err().message(), "Invalid data: Unexpected end of varint");
    assert_eq!(decode_varint(&[0xFF; 12], 0).unwrap_err().message(), "Invalid data: Varint too large");
}

#[test]
fn filters_are_exact() {
    assert_eq!(delta1(&[5, 7, 4]), [5, 2, 253]);
    assert_eq!(undelta1(&[5, 2, 253]), [5, 7, 4]);
    assert_eq!(delta2(&[1, 0, 1, 5, 0, 255]), [1, 0, 0, 5, 0xFF, 0xFA]);
    assert_eq!(undelta2(&[1, 0, 0, 5, 0xFF, 0xFA]), [1, 0, 1, 5, 0, 255]);
    assert_eq!(delta2(&[1, 2, 3]), [1, 2, 3]);
    assert_eq!(delta_ch(&[1, 2, 3, 2, 4, 6], 3), [1, 2, 3, 1, 2, 3]);
    assert_eq!(undelta_ch(&[1, 2, 3, 1, 2, 3], 3), [1, 2, 3, 2, 4, 6]);
    assert_eq!(delta_ch(&[1, 2, 3, 4], 3), [1, 2, 3, 4]);
    assert!(delta2(&[]).is_empty());
}

#[test]
fn filters_are_reversible() {
    for n in 0..40usize {
        let data: Vec<u8> = sample().into_iter().take(n).collect();
        for f in [Filter::Identity, Filter::Delta1, Filter::Delta2, Filter::DeltaRgb, Filter::DeltaRgba] {
            assert_eq!(reverse_filter(&apply_filter(&data, f), f), data);
            assert_eq!(Filter::from_u8(f.code()), f);
        }
    }
    assert_eq!(Filter::from_u8(77), Filter::Identity);
}

#[test]
fn filter_choice_takes_the_first_lowest() {
    assert_eq!(candidate_filters(12, 3), [Filter::Identity, Filter::Delta1, Filter::Delta2, Filter::DeltaRgb]);
    assert_eq!(candidate_filters(12, 4), [Filter::Identity, Filter::Delta1, Filter::Delta2, Filter::DeltaRgba]);
    assert_eq!(candidate_filters(5, 3), [Filter::Identity, Filter::Delta1]);
    let s = |rank: i64| Score { rank, bar: rank };
    assert_eq!(best_filter(&[1, 2], 1, &[s(5), s(3), s(3)]).0, Filter::Delta1);
    assert_eq!(best_filter(&[1, 2], 1, &[s(5), s(5), s(4)]).0, Filter::Delta2);
    assert_eq!(best_filter(&[1, 2], 1, &[s(5), s(6), s(5)]).0, Filter::Identity);
    assert_eq!(best_filter(&[1, 2], 1, &[]), (Filter::Identity, vec![1, 2]));
    assert_eq!(best_filter(&[1, 2], 1, &[s(5), s(3)]).1, [1, 1]);
}

#[test]
fn strides_are_exact() {
    assert_eq!(stride_delta(&[1, 2, 3, 5, 5, 5], 3), [1, 2, 3, 4, 3, 2]);
    assert_eq!(stride_undelta(&[1, 2, 3, 4, 3, 2], 3), [1, 2, 3, 5, 5, 5]);
    assert_eq!(stride_delta(&[1, 2, 3], 2), [1, 2, 3]);
    assert_eq!(stride_delta(&[1, 2, 3], 1), [1, 2, 3]);
    assert_eq!(candidate_strides(12), [0, 2, 3, 4, 6, 12]);
    assert_eq!(candidate_strides(7), [0, 7]);
    for s in 1..40usize {
        assert_eq!(stride_undelta(&stride_delta(&sample(), s), s), sample());
    }
}

#[test]
fn stride_choice_needs_a_clear_gain() {
    let data = [0u8; 12];
    let s = |rank: i64| Score { rank, bar: rank - 10 };
    assert_eq!(best_stride(&data, &[s(100), s(95), s(91)]).0, 0);
    assert_eq!(best_stride(&data, &[s(100), s(89), s(80)]).0, 2);
    assert_eq!(best_stride(&data, &[s(100), s(89), s(78)]).0, 3);
    assert_eq!(best_stride(&data, &[]), (0, data.to_vec()));
}

#[test]
fn bytes_are_counted() {
    let counts = byte_counts(&[1, 1, 255, 0, 1]);
    assert_eq!(counts.len(), 256);
    assert_eq!((counts[0], counts[1], counts[2], counts[255]), (1, 3, 0, 1));
}

#[test]
fn rules_are_the_cheapest() {
    assert!(matches!(infer_dfa(&[7; 9]), DfaKind::Constant(7, 9)));
    assert!(matches!(infer_dfa(&[250, 253, 0, 3, 6]), DfaKind::Arithmetic(250, 3, 5)));
    assert!(matches!(infer_dfa(&[1, 9, 1, 9, 1, 9]), DfaKind::Alternating(1, 9, 6)));
    assert!(matches!(infer_dfa(b"ABDABDABDABD"), DfaKind::Periodic(_, 4)));
    assert!(matches!(infer_dfa(&[1, 2]), DfaKind::Raw(_)));
    assert!(matches!(infer_dfa(&[]), DfaKind::Raw(_)));
    assert_eq!(infer_dfa(&[7; 200]).serial_cost(), 3);
    assert_eq!(infer_dfa(b"ABDABDABDABD").serial_cost(), 5);
}

#[test]
fn no_rule_that_is_looked_for_is_cheaper() {
    let rules = [
        DfaKind::Raw(vec![3, 1, 4]),
        DfaKind::Constant(7, 1),
        DfaKind::Constant(7, 300),
        DfaKind::Arithmetic(1, 2, 2),
        DfaKind::Arithmetic(1, 200, 40),
        DfaKind::Alternating(1, 2, 3),
        DfaKind::Alternating(1, 2, 40),
        DfaKind::Alternating(1, 129, 41),
        DfaKind::Alternating(5, 5, 41),
        DfaKind::Periodic(vec![1, 1], 20),
        DfaKind::Periodic(b"ABDABD".to_vec(), 100),
        DfaKind::Periodic((0..32).map(|i| (i * i) as u8).collect(), 2),
        DfaKind::Periodic((0..40).map(|i| (i * i) as u8).collect(), 1),
        DfaKind::Periodic(vec![], 9),
    ];
    for rule in rules {
        assert!(infer_dfa(&rule.generate()).serial_cost() <= rule.serial_cost(), "{:?}", rule);
    }
}

#[test]
fn two_kinds_of_rule_are_not_looked_for() {
    let turns = DfaKind::Alternating(1, 2, 5);
    assert!(matches!(infer_dfa(&turns.generate()), DfaKind::Raw(_)));
    let long = DfaKind::Periodic((0..33).map(|i| (i * i) as u8).collect(), 3);
    assert!(matches!(infer_dfa(&long.generate()), DfaKind::Raw(_)));
}

#[test]
fn stream_tells_each_point() {
    let told: RefCell<Vec<u32>> = RefCell::new(Vec::new());
    let report = |p: u32| told.borrow_mut().push(p);
    compress_stream(b"abab", 1, &[], &report, 0, 1000);
    assert_eq!(told.into_inner(), [0, 10, 450, 500, 500, 562, 625, 687, 750, 750, 900, 980]);
    let told: RefCell<Vec<u32>> = RefCell::new(Vec::new());
    let report = |p: u32| told.borrow_mut().push(p);
    compress_stream(b"x", 1, &[], &report, 100, 900);
    assert_eq!(told.into_inner(), [100, 460, 500, 500, 700, 700, 820, 884]);
}

#[test]
fn rules_generate_what_they_were_found_for() {
    let data = sample();
    for from in 0..100usize {
        for len in 0..20usize {
            let part = &data[from..from + len];
            let rule = infer_dfa(part);
            assert_eq!(rule.generate(), part);
            assert!(rule.serial_cost() <= len as u128);
        }
    }
}

#[test]
fn ranking_is_stable() {
    assert_eq!(rank(&[3, 9, 3, 10, -1, 9]), [3, 1, 5, 0, 2, 4]);
    assert!(rank(&[]).is_empty());
}

#[test]
fn tallies_count_first_positions() {
    let t = tally(&[4, 7, 4, 4, 7]);
    assert_eq!(t.first, [0, 1, 0, 0, 1]);
    assert_eq!(t.count, [3, 2, 0, 0, 0]);
}

#[test]
fn registering_twice_gives_the_same_axiom() {
    let mut lib = AxiomLib::new();
    let a = lib.add_dfa(DfaKind::Raw(vec![1, 2]));
    let b = lib.add_dfa(DfaKind::Constant(5, 4));
    let again = lib.add_dfa(DfaKind::Arithmetic(1, 1, 2));
    assert_eq!((a, b, again, lib.len()), (0, 1, 0, 2));
    let c = lib.add_compound(vec![a, b], vec![1, 2, 5, 5, 5, 5]);
    assert_eq!(c, 2);
    assert_eq!(lib.resolve(c), [1, 2, 5, 5, 5, 5]);
}

#[test]
fn unneeded_axioms_are_dropped() {
    let mut lib = AxiomLib::new();
    let a = lib.add_dfa(DfaKind::Raw(vec![1]));
    lib.add_dfa(DfaKind::Raw(vec![2]));
    let c = lib.add_dfa(DfaKind::Raw(vec![3]));
    let d = lib.add_compound(vec![a, c], vec![1, 3]);
    let (entries, seq) = lib.reindex(&[d, c]);
    assert_eq!(entries.len(), 3);
    assert_eq!(seq, [2, 1]);
    assert!(matches!(&entries[2], AxiomEntry::Compound(refs) if *refs == [0, 1]));
}

#[test]
fn patterns_that_save_most_become_axioms() {
    let data = b"abcdefgh".repeat(10);
    let found = find_candidates(&data, &quiet, 0, 1000);
    let lib = select_axioms(&found);
    assert!(lib.len() > 0 && lib.len() <= 256);
    assert!(lib.bytes_of(0).len() >= 8);
}

#[test]
fn greedy_takes_the_longest_match() {
    let mut lib = AxiomLib::new();
    lib.add_dfa(DfaKind::Raw(b"ab".to_vec()));
    lib.add_dfa(DfaKind::Raw(b"abc".to_vec()));
    let seq = greedy_encode(&mut lib, b"abcabxab", &quiet, 0, 1000);
    assert_eq!(seq, [1, 0, 2, 0]);
    assert_eq!(lib.resolve(2), b"x");
}

#[test]
fn frequent_pairs_become_compounds() {
    let mut lib = AxiomLib::new();
    let a = lib.add_dfa(DfaKind::Raw(vec![1]));
    let b = lib.add_dfa(DfaKind::Raw(vec![2]));
    let mut seq = Vec::new();
    for _ in 0..8 {
        seq.push(a);
        seq.push(b);
    }
    let out = compound_passes(&mut lib, seq.clone(), &quiet, 0, 1000);
    assert!(out.len() < seq.len());
    let all: Vec<u8> = out.iter().flat_map(|&id| lib.resolve(id)).collect();
    assert_eq!(all, [1u8, 2].repeat(8));
    let few = vec![a, b, a, b, a, b];
    assert_eq!(compound_passes(&mut lib, few.clone(), &quiet, 0, 1000), few);
}

#[test]
fn inner_stream_bytes_are_exact() {
    let entries = vec![
        AxiomEntry::Dfa(DfaKind::Raw(vec![9, 8])),
        AxiomEntry::Dfa(DfaKind::Constant(7, 300)),
        AxiomEntry::Compound(vec![0, 1]),
    ];
    let blob = ser_inner(&entries, &[2, 0], Filter::Delta1);
    let expected = [
        b'A', b'X', b'i', 5, 1, 3, 2, 0, 1, 2, 9, 8, 1, 3, 7, 0xAC, 0x02, 2, 2, 2, 0, 1, 2, 0,
    ];
    assert_eq!(blob, expected);
    let (back, seq, filter) = des_inner(&blob).unwrap();
    assert_eq!((back.len(), seq, filter), (3, vec![2, 0], Filter::Delta1));
}

#[test]
fn inner_stream_round_trip() {
    let entries = vec![
        AxiomEntry::Dfa(DfaKind::Arithmetic(1, 2, 5)),
        AxiomEntry::Dfa(DfaKind::Alternating(3, 4, 6)),
        AxiomEntry::Dfa(DfaKind::Periodic(vec![1, 2, 3], 7)),
        AxiomEntry::Compound(vec![2, 0]),
    ];
    let blob = ser_inner(&entries, &[3, 1], Filter::Identity);
    let (back, seq, _) = des_inner(&blob).unwrap();
    assert_eq!(ser_inner(&back, &seq, Filter::Identity), blob);
    let mut all = [1u8, 2, 3].repeat(7);
    all.extend_from_slice(&[1, 3, 5, 7, 9]);
    all.extend_from_slice(&[3, 4, 3, 4, 3, 4]);
    assert_eq!(decompress_stream(&blob).unwrap(), all);
}

#[test]
fn inner_streams_are_sorted_by_number() {
    let blob = [b'A', b'X', b'i', 5, 0, 2, 2, 1, 1, 1, 66, 0, 1, 1, 65, 0, 1];
    assert_eq!(decompress_stream(&blob).unwrap(), b"AB");
}

#[test]
fn damaged_inner_streams_are_refused() {
    let text = |blob: &[u8]| decompress_stream(blob).unwrap_err().message();
    assert_eq!(text(b"AXi"), "Invalid data: Bad inner magic");
    assert_eq!(text(b"AXj\x05\x00\x00\x00"), "Invalid data: Bad inner magic");
    assert_eq!(text(b"AXi\x05\x00\x01\x00\x00\x09"), "Invalid data: Unknown type 9");
    assert_eq!(text(b"AXi\x05\x00\x01\x00\x00"), "Invalid data: Truncated axiom");
    assert_eq!(text(b"AXi\x05\x00\x01\x00\x00\x01\x05ab"), "Invalid data: Truncated axiom");
    assert_eq!(text(b"AXi\x05\x00\x01\x00\x00\x03"), "Invalid data: Truncated axiom");
    assert_eq!(text(b"AXi\x05\x00\x01\x00\x00\x04\x01"), "Invalid data: Truncated axiom");
    assert_eq!(text(b"AXi\x05\x00\x00\x01"), "Invalid data: Unexpected end of varint");
    assert_eq!(text(b"AXi\x05\x00\x00\x01\x00"), "Invalid data: Bad axiom reference");
    assert_eq!(text(b"AXi\x05\x00\x01\x01\x00\x02\x01\x00\x00"), "Invalid data: Bad axiom reference");
}

#[test]
fn stream_round_trip() {
    for n in [0usize, 1, 2, 3, 50, 600] {
        let data: Vec<u8> = sample().into_iter().take(n).collect();
        for scores in [vec![], vec![Score { rank: 1, bar: 0 }, Score { rank: 0, bar: 0 }]] {
            let blob = compress_stream(&data, 1, &scores, &quiet, 0, 1000);
            assert_eq!(decompress_stream(&blob).unwrap(), data);
        }
    }
}

#[test]
fn steps_are_exact() {
    let steps: Vec<u8> = [0u8, 1, 25, 50, 74, 75, 90, 98, 99, 100, 255].iter().map(|&q| quality_to_step(q)).collect();
    assert_eq!(steps, [128, 127, 96, 64, 33, 32, 13, 3, 1, 1, 1]);
    for q in 0..=100u8 {
        let exact = (128.0 * (1.0 - q as f64 / 100.0)).round() as u8;
        assert_eq!(quality_to_step(q), exact.max(1));
    }
}

#[test]
fn rounding_is_exact() {
    assert_eq!(quantize(&[0, 15, 16, 47, 48, 239, 240, 255], 75), [0, 0, 32, 32, 64, 224, 255, 255]);
    assert_eq!(quantize(&sample(), 100), sample());
    assert_eq!(quantize(&quantize(&sample(), 40), 40), quantize(&sample(), 40));
}

#[test]
fn quality_bands_keep_their_promise() {
    let all: Vec<u8> = (0u8..=255).collect();
    for q in 0..=100u8 {
        let most = max_error(&all, &quantize(&all, q));
        match quality_band(q) {
            QualityBand::Lossless => assert_eq!(most, 0),
            QualityBand::Excellent => assert!(most <= 6),
            QualityBand::Good => assert!(most <= 16),
            QualityBand::Acceptable => assert!(most <= 32),
            QualityBand::HighCompression => assert!(q < 50),
        }
    }
    assert_eq!(quality_band(100).description(), "Lossless — bit-perfect");
    assert_eq!(quality_band(95).description(), "Excellent quality (±6 per byte)");
    assert_eq!(quality_band(80).description(), "Good quality (±16 per byte)");
    assert_eq!(quality_band(50).description(), "Acceptable (±32 per byte)");
    assert_eq!(quality_band(49).description(), "High compression (lossy)");
}

#[test]
fn errors_are_measured() {
    assert_eq!(max_error(&[1, 200, 3], &[4, 100]), 100);
    assert_eq!(max_error(&[], &[4, 100]), 0);
    assert_eq!(squared_error(&[1, 200], &[4, 100]), Some(10009));
    assert_eq!(squared_error(&[1, 200], &[4]), None);
    assert_eq!(squared_error(&[], &[]), None);
}

#[test]
fn errors_have_texts() {
    assert_eq!(AxmzipError::InvalidData("x".to_string()).message(), "Invalid data: x");
    assert_eq!(AxmzipError::ChecksumMismatch.message(), "Checksum mismatch — file may be corrupted");
}

#[test]
fn nothing_is_claimed_where_nothing_recurs() {
    let data: Vec<u8> = (0u8..=255).rev().collect();
    let blob = compress_stream(&data, 1, &[], &quiet, 0, 1000);
    let (entries, seq, filter) = des_inner(&blob).unwrap();
    assert_eq!((entries.len(), seq.len(), filter), (256, 256, Filter::Identity));
    assert!(entries.iter().all(|e| matches!(e, AxiomEntry::Dfa(DfaKind::Raw(d)) if d.len() == 1)));
}

#[test]
fn resolving_expands_the_entries() {
    let mut lib = AxiomLib::new();
    let a = lib.register(AxiomEntry::Dfa(DfaKind::Raw(vec![1])), vec![2]);
    let b = lib.add_compound(vec![a, a], vec![9]);
    assert_eq!((a, b), (0, 1));
    assert_eq!(lib.resolve(a), [1]);
    assert_eq!(lib.resolve(b), [1, 1]);
    assert_eq!(lib.bytes_of(0), [2]);
    let (entries, seq) = lib.reindex(&[b, a]);
    assert_eq!(decompress_stream(&ser_inner(&entries, &seq, Filter::Identity)).unwrap(), [1, 1, 1]);
}

#[test]
fn pruning_keeps_each_member() {
    let mut lib = AxiomLib::new();
    for v in [1u8, 2, 3] {
        lib.add_dfa(DfaKind::Raw(vec![v]));
    }
    let c = lib.add_compound(vec![0, 2], vec![1, 3]);
    let (entries, seq) = lib.reindex(&[c, c]);
    assert_eq!(seq, [2, 2]);
    assert!(matches!(&entries[0], AxiomEntry::Dfa(DfaKind::Raw(d)) if *d == [1]));
    assert!(matches!(&entries[1], AxiomEntry::Dfa(DfaKind::Raw(d)) if *d == [3]));
    assert!(matches!(&entries[2], AxiomEntry::Compound(refs) if *refs == [0, 1]));
}

#[test]
fn bytes_behind_an_inner_stream_are_passed_over() {
    let entries = vec![AxiomEntry::Dfa(DfaKind::Raw(vec![5, 6]))];
    let mut blob = ser_inner(&entries, &[0, 0], Filter::Identity);
    blob.extend_from_slice(&[0xFF, 0x80, 7]);
    assert_eq!(decompress_stream(&blob).unwrap(), [5, 6, 5, 6]);
}
