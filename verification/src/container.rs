//! The container for a single file: a header with a checksum and the original
//! file name, and the stream.
//!
//! ```text
//! [magic 4B][version 1B][MD5 16B][mode 1B][name length varint][name UTF-8]
//! plain:  [length varint][stream]
//! stride: [stride 1B][length varint][stream]
//! lossy:  [quality 1B][channels 1B][length varint][stream]
//! ```

use vstd::prelude::*;
use vstd::utf8::encode_utf8;
use vstd::utf8::encode_utf8_decode_utf8;
use vstd::utf8::encode_utf8_valid_utf8;

use crate::bytes::extend;
use crate::bytes::holds_at;
use crate::bytes::lemma_holds_parts;
use crate::bytes::same_bytes;
use crate::digest::checksum;
use crate::digest::checksum_of;
use crate::error::AxmzipError;
use crate::error::Failure;
use crate::error::invalid;
use crate::filter::chosen_filter;
use crate::filter::filtered;
use crate::filter::law_filter_reversible;
use crate::progress::accepts;
use crate::progress::tell;
use crate::progress::told;
use crate::quantize::greatest_distance;
use crate::quantize::max_error;
use crate::quantize::quality_to_step;
use crate::quantize::quantize;
use crate::quantize::quantized;
use crate::quantize::squared_distances;
use crate::quantize::squared_error;
use crate::quantize::step_of;
use crate::score::Score;
use crate::stream::compress_stream;
use crate::stream::compressed_stream;
use crate::stream::decompress_stream;
use crate::stream::decompressed_stream;
use crate::stream::fits;
use crate::stream::law_moderate_data_fit;
use crate::stream::law_stream_round_trip;
use crate::stream::stream_told;
use crate::stride::MAX_STRIDE;
use crate::stride::best_stride;
use crate::stride::chosen_stride;
use crate::stride::law_stride_reversible;
use crate::stride::lemma_chosen_stride;
use crate::stride::stride_undelta;
use crate::stride::strided;
use crate::stride::unstrided;
use crate::text::decimal;
use crate::text::decimal_text;
use crate::text::read_as_text;
use crate::text::text_of;
use crate::varint::decode_varint;
use crate::varint::encode_varint;
use crate::varint::lemma_varint_agrees;
use crate::varint::lemma_varint_extends;
use crate::varint::lemma_varint_read;
use crate::varint::read_varint;
use crate::varint::varint;

verus! {

/// The version of the format.
pub const VERSION: u8 = 2;

pub const MODE_PLAIN: u8 = 0;

pub const MODE_STRIDE: u8 = 1;

pub const MODE_LOSSY: u8 = 2;

/// How long a header is, without the file name and its length.
pub const HEADER_LEN: usize = 22;

/// What a container begins with: `AXM5`.
pub open spec fn magic() -> Seq<u8> {
    seq![0x41u8, 0x58, 0x4D, 0x35]
}

/// A header.
pub open spec fn header_bytes(sum: Seq<u8>, mode: u8, name: Seq<char>) -> Seq<u8> {
    magic() + seq![VERSION] + sum + seq![mode] + block(encode_utf8(name))
}

/// Bytes, with their length in front.
pub open spec fn block(bytes: Seq<u8>) -> Seq<u8> {
    varint(bytes.len()) + bytes
}

/// Appends bytes, with their length in front.
pub(crate) fn write_block(out: &mut Vec<u8>, bytes: &[u8])
    ensures
        final(out)@ == old(out)@ + block(bytes@),
{
    extend(out, encode_varint(bytes.len() as u64).as_slice());
    extend(out, bytes);
    assert(out@ =~= old(out)@ + block(bytes@));
}

/// Writes a header.
pub fn write_header(sum: &[u8; 16], mode: u8, name: &str) -> (out: Vec<u8>)
    ensures
        out@ == header_bytes(sum@, mode, name@),
{
    let mut out: Vec<u8> = Vec::new();
    out.push(0x41);
    out.push(0x58);
    out.push(0x4D);
    out.push(0x35);
    out.push(VERSION);
    extend(&mut out, sum.as_slice());
    out.push(mode);
    assert(out@ =~= magic() + seq![VERSION] + sum@ + seq![mode]);
    write_block(&mut out, name.as_bytes());
    out
}

/// The bytes at `off` that follow their length, and where they end; an error with
/// the text `short`, if there are not as many.
pub open spec fn read_block(blob: Seq<u8>, off: int, short: Seq<char>) -> Result<
    (Seq<u8>, int),
    Failure,
> {
    match read_varint(blob, off) {
        Err(e) => Err(e),
        Ok((len, next)) => if len as usize > blob.len() - next {
            Err(Failure::InvalidData(short))
        } else {
            Ok((blob.subrange(next, next + len as usize), next + len as usize))
        },
    }
}

/// Where the bytes that follow their length begin and end.
pub(crate) fn find_block(
    blob: &[u8],
    off: usize,
    short: &str,
) -> (r: Result<(usize, usize), AxmzipError>)
    ensures
        match r {
            Ok((from, to)) => off <= from <= to <= blob@.len() && read_block(
                blob@,
                off as int,
                short@,
            ) == Ok::<(Seq<u8>, int), Failure>(
                (blob@.subrange(from as int, to as int), to as int),
            ),
            Err(e) => read_block(blob@, off as int, short@) == Err::<(Seq<u8>, int), Failure>(e@),
        },
{
    match decode_varint(blob, off) {
        Err(e) => Err(e),
        Ok((len, next)) => {
            let len: usize = len as usize;
            if len > blob.len() - next {
                Err(invalid(short))
            } else {
                Ok((next, next + len))
            }
        },
    }
}

/// The mode, the file name, and where the header ends.
pub open spec fn read_header_bytes(blob: Seq<u8>) -> Result<(u8, Seq<char>, int), Failure> {
    if blob.len() < HEADER_LEN {
        Err(Failure::InvalidData("File too short"@))
    } else if blob.subrange(0, 4) != magic() {
        Err(Failure::BadMagic)
    } else if blob[4] != VERSION {
        Err(Failure::BadVersion)
    } else {
        match read_block(blob, HEADER_LEN as int, "Filename truncated"@) {
            Err(e) => Err(e),
            Ok((name, off)) => Ok((blob[21], read_as_text(name), off)),
        }
    }
}

/// Whether a blob begins with the given four bytes.
pub(crate) fn begins_with(blob: &[u8], a: u8, b: u8, c: u8, d: u8) -> (yes: bool)
    requires
        blob@.len() >= 4,
    ensures
        yes == (blob@.subrange(0, 4) == seq![a, b, c, d]),
{
    let ghost start = blob@.subrange(0, 4);
    let yes = blob[0] == a && blob[1] == b && blob[2] == c && blob[3] == d;
    proof {
        if yes {
            assert(start =~= seq![a, b, c, d]);
        } else {
            assert(start[0] == blob@[0] && start[1] == blob@[1] && start[2] == blob@[2] && start[3]
                == blob@[3]);
            let want = seq![a, b, c, d];
            assert(want[0] == a && want[1] == b && want[2] == c && want[3] == d);
        }
    }
    yes
}

/// Reads a header: the mode, the file name, and where the header ends.
pub fn read_header(blob: &[u8]) -> (r: Result<(u8, String, usize), AxmzipError>)
    ensures
        match r {
            Ok((mode, name, off)) => HEADER_LEN <= off <= blob@.len() && read_header_bytes(blob@)
                == Ok::<(u8, Seq<char>, int), Failure>((mode, name@, off as int)),
            Err(e) => read_header_bytes(blob@) == Err::<(u8, Seq<char>, int), Failure>(e@),
        },
        r is Ok ==> blob@.len() >= HEADER_LEN,
{
    if blob.len() < HEADER_LEN {
        return Err(invalid("File too short"));
    }
    if !begins_with(blob, 0x41, 0x58, 0x4D, 0x35) {
        return Err(AxmzipError::BadMagic);
    }
    if blob[4] != VERSION {
        return Err(AxmzipError::BadVersion);
    }
    match find_block(blob, HEADER_LEN, "Filename truncated") {
        Err(e) => Err(e),
        Ok((from, to)) => {
            let name = text_of(vstd::slice::slice_subrange(blob, from, to));
            Ok((blob[21], name, to))
        },
    }
}

/// Whether a blob is the container of a single file.
pub open spec fn is_container(blob: Seq<u8>) -> bool {
    blob.len() >= HEADER_LEN && blob.subrange(0, 4) == magic() && blob[4] == VERSION
}

/// Whether a blob is the container of a single file.
pub fn is_axmzip(blob: &[u8]) -> (yes: bool)
    ensures
        yes == is_container(blob@),
{
    blob.len() >= HEADER_LEN && begins_with(blob, 0x41, 0x58, 0x4D, 0x35) && blob[4] == VERSION
}

/// The byte at `off`; zero, if there is none.
pub open spec fn byte_or_zero(blob: Seq<u8>, off: int) -> u8 {
    if off < blob.len() {
        blob[off]
    } else {
        0
    }
}

/// What a header tells of the mode.
pub open spec fn mode_text(blob: Seq<u8>, mode: u8, off: int) -> Seq<char> {
    let n = decimal(byte_or_zero(blob, off) as nat);
    if mode == MODE_PLAIN {
        "lossless/plain"@
    } else if mode == MODE_STRIDE {
        "lossless/stride(s="@ + n + ")"@
    } else if mode == MODE_LOSSY {
        "lossy(q="@ + n + ")"@
    } else {
        "unknown"@
    }
}

/// What a container tells of its mode without being decompressed.
pub open spec fn probed(blob: Seq<u8>) -> Option<Seq<char>> {
    match read_header_bytes(blob) {
        Ok((mode, _, off)) => Some(mode_text(blob, mode, off)),
        Err(_) => None,
    }
}

/// Tells the mode of a container without decompressing it.
pub fn probe(blob: &[u8]) -> (mode: Option<String>)
    ensures
        match mode {
            Some(text) => probed(blob@) == Some(text@),
            None => probed(blob@) is None,
        },
{
    match read_header(blob) {
        Err(_) => None,
        Ok((mode, _, off)) => {
            let b: u8 = if off < blob.len() {
                blob[off]
            } else {
                0
            };
            if mode == MODE_PLAIN {
                Some("lossless/plain".to_owned())
            } else if mode == MODE_STRIDE {
                Some(
                    "lossless/stride(s=".to_owned().concat(decimal_text(b as u64).as_str()).concat(
                        ")",
                    ),
                )
            } else if mode == MODE_LOSSY {
                Some("lossy(q=".to_owned().concat(decimal_text(b as u64).as_str()).concat(")"))
            } else {
                Some("unknown".to_owned())
            }
        },
    }
}

/// How disordered the candidates for a file are: the scores that the choices depend
/// on.
#[derive(Clone, Debug)]
pub struct Measurements {
    /// Of the results of the filters on the data, or on the rounded data if the
    /// compression is lossy.
    pub filters: Vec<Score>,
    /// Of the data, and of their differences at each of the strides.
    pub strides: Vec<Score>,
    /// Of the results of the filters on the differences at the chosen stride.
    pub stride_filters: Vec<Score>,
}

/// The mathematical value of [`Measurements`].
pub struct Measured {
    pub filters: Seq<Score>,
    pub strides: Seq<Score>,
    pub stride_filters: Seq<Score>,
}

impl View for Measurements {
    type V = Measured;

    open spec fn view(&self) -> Measured {
        Measured {
            filters: self.filters@,
            strides: self.strides@,
            stride_filters: self.stride_filters@,
        }
    }
}

/// No scores: no filter and no stride is considered.
pub open spec fn nothing_measured() -> Measured {
    Measured { filters: Seq::empty(), strides: Seq::empty(), stride_filters: Seq::empty() }
}

impl Measurements {
    /// No scores: no filter and no stride is considered.
    pub fn none() -> (m: Measurements)
        ensures
            m@ == nothing_measured(),
    {
        Measurements { filters: Vec::new(), strides: Vec::new(), stride_filters: Vec::new() }
    }
}

/// What became of a file.
#[derive(Clone, Debug)]
pub struct CompressStats {
    pub original_bytes: usize,
    pub compressed_bytes: usize,
    /// The mode, with its parameters.
    pub mode: String,
    pub lossless: bool,
    /// The sum of the squared errors; nothing, if there are no bytes.
    pub squared_error: Option<u128>,
    /// The greatest error.
    pub max_error: u8,
    pub lib_entries: usize,
}

/// The plain container.
pub open spec fn plain_blob(
    data: Seq<u8>,
    channels: u8,
    name: Seq<char>,
    filters: Seq<Score>,
) -> Seq<
    u8,
> {
    header_bytes(checksum(data), MODE_PLAIN, name) + block(
        compressed_stream(data, channels, filters),
    )
}

/// The container of the differences at the stride `s`.
pub open spec fn stride_blob(
    data: Seq<u8>,
    s: usize,
    channels: u8,
    name: Seq<char>,
    filters: Seq<Score>,
) -> Seq<u8> {
    header_bytes(checksum(data), MODE_STRIDE, name) + seq![s as u8] + block(
        compressed_stream(strided(data, s as int), channels, filters),
    )
}

/// The container of rounded data.
pub open spec fn lossy_blob(
    data: Seq<u8>,
    quality: u8,
    channels: u8,
    name: Seq<char>,
    filters: Seq<Score>,
) -> Seq<u8> {
    let rough = quantized(data, quality);
    header_bytes(checksum(rough), MODE_LOSSY, name) + seq![quality, channels] + block(
        compressed_stream(rough, channels, filters),
    )
}

/// Whether the differences at a stride are what is stored: one was chosen, and it
/// makes the container shorter.
pub open spec fn stride_pays(data: Seq<u8>, channels: u8, name: Seq<char>, m: Measured) -> bool {
    let s = chosen_stride(data.len(), m.strides);
    s > 0 && stride_blob(data, s, channels, name, m.stride_filters).len() < plain_blob(
        data,
        channels,
        name,
        m.filters,
    ).len()
}

/// The container of a file.
pub open spec fn compressed(
    data: Seq<u8>,
    quality: u8,
    channels: u8,
    name: Seq<char>,
    m: Measured,
) -> Seq<u8> {
    if quality < 100 {
        lossy_blob(data, quality, channels, name, m.filters)
    } else if stride_pays(data, channels, name, m) {
        stride_blob(
            data,
            chosen_stride(data.len(), m.strides),
            channels,
            name,
            m.stride_filters,
        )
    } else {
        plain_blob(data, channels, name, m.filters)
    }
}

/// The mode of a container, as the statistics give it.
pub open spec fn compressed_mode(
    data: Seq<u8>,
    quality: u8,
    channels: u8,
    name: Seq<char>,
    m: Measured,
) -> Seq<char> {
    if quality < 100 {
        "lossy(q="@ + decimal(quality as nat) + ",step="@ + decimal(step_of(quality) as nat) + ")"@
    } else if stride_pays(data, channels, name, m) {
        "stride(s="@ + decimal(chosen_stride(data.len(), m.strides) as nat) + ")"@
    } else {
        "plain"@
    }
}

/// That the points of compressing a file were told.
pub open spec fn file_told<F: Fn(u32)>(
    report: &F,
    data: Seq<u8>,
    quality: u8,
    channels: u8,
    m: Measured,
) -> bool {
    let s = chosen_stride(data.len(), m.strides);
    &&& told(report, 20)
    &&& told(report, 50)
    &&& if quality < 100 {
        &&& stream_told(report, quantized(data, quality), channels, m.filters, 100, 900)
        &&& told(report, 950)
    } else {
        &&& stream_told(report, data, channels, m.filters, 50, 520)
        &&& told(report, 550)
        &&& if s > 0 {
            stream_told(report, strided(data, s as int), channels, m.stride_filters, 550, 930)
        } else {
            told(report, 950)
        }
    }
    &&& told(report, 1000)
}

/// Compresses a rounded file.
fn compress_lossy<F: Fn(u32)>(
    data: &[u8],
    quality: u8,
    channels: u8,
    original_filename: &str,
    filters: &[Score],
    report: &F,
) -> (r: (Vec<u8>, CompressStats))
    requires
        accepts(*report, 0, 1000),
        quality < 100,
    ensures
        r.0@ == lossy_blob(data@, quality, channels, original_filename@, filters@),
        r.1.original_bytes == data@.len(),
        r.1.compressed_bytes == r.0@.len(),
        r.1.mode@ == "lossy(q="@ + decimal(quality as nat) + ",step="@ + decimal(
            step_of(quality) as nat,
        ) + ")"@,
        !r.1.lossless,
        r.1.max_error == greatest_distance(
            data@,
            quantized(data@, quality),
            data@.len() as int,
        ),
        r.1.squared_error == (if data@.len() == 0 {
            None
        } else {
            Some(
                squared_distances(
                    data@,
                    quantized(data@, quality),
                    data@.len() as int,
                ) as u128,
            )
        }),
        r.1.lib_entries == 0,
        told(report, 50),
        stream_told(report, quantized(data@, quality), channels, filters@, 100, 900),
        told(report, 950),
        told(report, 1000),
{
    tell(report, 0, 1000, 50);
    let rough = quantize(data, quality);
    let noise = squared_error(data, rough.as_slice());
    let most: u8 = max_error(data, rough.as_slice());
    let sum = checksum_of(rough.as_slice());
    let inner = compress_stream(rough.as_slice(), channels, filters, report, 100, 900);
    tell(report, 0, 1000, 950);
    let mut blob = write_header(&sum, MODE_LOSSY, original_filename);
    let ghost head = blob@;
    blob.push(quality);
    blob.push(channels);
    assert(blob@ =~= head + seq![quality, channels]);
    write_block(&mut blob, inner.as_slice());
    tell(report, 0, 1000, 1000);
    let step: u8 = quality_to_step(quality);
    let mode = "lossy(q=".to_owned().concat(decimal_text(quality as u64).as_str()).concat(
        ",step=",
    ).concat(decimal_text(step as u64).as_str()).concat(")");
    let stats = CompressStats {
        original_bytes: data.len(),
        compressed_bytes: blob.len(),
        mode,
        lossless: false,
        squared_error: noise,
        max_error: most,
        lib_entries: 0,
    };
    (blob, stats)
}

/// Compresses a file that comes back as it is, plainly or at a stride.
#[verifier::rlimit(40)]
fn compress_lossless<F: Fn(u32)>(
    data: &[u8],
    channels: u8,
    original_filename: &str,
    measured: &Measurements,
    report: &F,
) -> (r: (Vec<u8>, CompressStats))
    requires
        accepts(*report, 0, 1000),
    ensures
        r.0@ == compressed(data@, 100, channels, original_filename@, measured@),
        r.1.original_bytes == data@.len(),
        r.1.compressed_bytes == r.0@.len(),
        r.1.mode@ == compressed_mode(data@, 100, channels, original_filename@, measured@),
        r.1.lossless,
        r.1.max_error == 0,
        r.1.squared_error == Some(0u128),
        r.1.lib_entries == 0,
        told(report, 50),
        stream_told(report, data@, channels, measured@.filters, 50, 520),
        told(report, 550),
        ({
            let s = chosen_stride(data@.len(), measured@.strides);
            if s > 0 {
                stream_told(
                    report,
                    strided(data@, s as int),
                    channels,
                    measured@.stride_filters,
                    550,
                    930,
                )
            } else {
                told(report, 950)
            }
        }),
        told(report, 1000),
{
    let sum = checksum_of(data);
    tell(report, 0, 1000, 50);
    let inner = compress_stream(data, channels, measured.filters.as_slice(), report, 50, 520);
    let mut plain = write_header(&sum, MODE_PLAIN, original_filename);
    write_block(&mut plain, inner.as_slice());
    tell(report, 0, 1000, 550);
    let (s, differences) = best_stride(data, measured.strides.as_slice());
    let (blob, mode) = if s > 0 {
        let inner = compress_stream(
            differences.as_slice(),
            channels,
            measured.stride_filters.as_slice(),
            report,
            550,
            930,
        );
        let mut stride = write_header(&sum, MODE_STRIDE, original_filename);
        let ghost head = stride@;
        stride.push(s as u8);
        assert(stride@ =~= head + seq![s as u8]);
        write_block(&mut stride, inner.as_slice());
        if stride.len() < plain.len() {
            (
                stride,
                "stride(s=".to_owned().concat(decimal_text(s as u64).as_str()).concat(")"),
            )
        } else {
            (plain, "plain".to_owned())
        }
    } else {
        tell(report, 0, 1000, 950);
        (plain, "plain".to_owned())
    };
    tell(report, 0, 1000, 1000);
    let stats = CompressStats {
        original_bytes: data.len(),
        compressed_bytes: blob.len(),
        mode,
        lossless: true,
        squared_error: Some(0),
        max_error: 0,
        lib_entries: 0,
    };
    (blob, stats)
}

/// Compresses a file.
///
/// - `quality`: 100 is lossless, less is lossy
/// - `channels`: 1 for mono or gray, 3 for RGB, 4 for RGBA
/// - `original_filename`: kept in the header
/// - `measured`: the scores of the candidates
/// - `report`: is told the progress, in thousandths
pub fn compress<F: Fn(u32)>(
    data: &[u8],
    quality: u8,
    channels: u8,
    original_filename: &str,
    measured: &Measurements,
    report: &F,
) -> (r: (Vec<u8>, CompressStats))
    requires
        accepts(*report, 0, 1000),
    ensures
        r.0@ == compressed(data@, quality, channels, original_filename@, measured@),
        r.1.original_bytes == data@.len(),
        r.1.compressed_bytes == r.0@.len(),
        r.1.mode@ == compressed_mode(data@, quality, channels, original_filename@, measured@),
        r.1.lossless == (quality >= 100),
        r.1.max_error == (if quality < 100 {
            greatest_distance(data@, quantized(data@, quality), data@.len() as int)
        } else {
            0
        }),
        r.1.squared_error == (if quality >= 100 {
            Some(0u128)
        } else if data@.len() == 0 {
            None
        } else {
            Some(
                squared_distances(
                    data@,
                    quantized(data@, quality),
                    data@.len() as int,
                ) as u128,
            )
        }),
        r.1.lib_entries == 0,
        file_told(report, data@, quality, channels, measured@),
        file_fits(data@, quality, channels, original_filename@, measured@) ==> decompressed(r.0@) == Ok::<
            (Seq<u8>, Option<Seq<char>>),
            Failure,
        >((restored(data@, quality), given_name(original_filename@))),
{
    tell(report, 0, 1000, 20);
    if quality < 100 {
        let (blob, stats) = compress_lossy(
            data,
            quality,
            channels,
            original_filename,
            measured.filters.as_slice(),
            report,
        );
        proof {
            if file_fits(data@, quality, channels, original_filename@, measured@) {
                law_file_round_trip(data@, quality, channels, original_filename@, measured@);
            }
        }
        return (blob, stats);
    }
    let (blob, stats) = compress_lossless(data, channels, original_filename, measured, report);
    proof {
        if file_fits(data@, quality, channels, original_filename@, measured@) {
            law_file_round_trip(data@, quality, channels, original_filename@, measured@);
        }
    }
    (blob, stats)
}

/// A file that was decompressed.
#[derive(Clone, Debug)]
pub struct DecompressResult {
    pub data: Vec<u8>,
    /// The name it had, if one was stored.
    pub original_filename: Option<String>,
}

/// The contents of a container, before the checksum is looked at.
pub open spec fn unpacked(blob: Seq<u8>, mode: u8, off: int) -> Result<Seq<u8>, Failure> {
    if mode == MODE_PLAIN {
        match read_block(blob, off, "Truncated plain blob"@) {
            Err(e) => Err(e),
            Ok((inner, _)) => decompressed_stream(inner),
        }
    } else if mode == MODE_STRIDE {
        if off >= blob.len() {
            Err(Failure::InvalidData("Truncated stride blob"@))
        } else {
            match read_block(blob, off + 1, "Truncated stride blob"@) {
                Err(e) => Err(e),
                Ok((inner, _)) => match decompressed_stream(inner) {
                    Err(e) => Err(e),
                    Ok(differences) => if blob[off] == 0 {
                        Err(Failure::InvalidData("Stride is zero"@))
                    } else {
                        Ok(unstrided(differences, blob[off] as int))
                    },
                },
            }
        }
    } else if mode == MODE_LOSSY {
        match read_block(blob, off + 2, "Truncated lossy blob"@) {
            Err(e) => Err(e),
            Ok((inner, _)) => decompressed_stream(inner),
        }
    } else {
        Err(Failure::InvalidData("Unknown mode "@ + decimal(mode as nat)))
    }
}

/// The contents of a container and the file name, if it has one.
pub open spec fn decompressed(blob: Seq<u8>) -> Result<(Seq<u8>, Option<Seq<char>>), Failure> {
    match read_header_bytes(blob) {
        Err(e) => Err(e),
        Ok((mode, name, off)) => match unpacked(blob, mode, off) {
            Err(e) => Err(e),
            Ok(data) => if checksum(data) != blob.subrange(5, 21) {
                Err(Failure::ChecksumMismatch)
            } else {
                Ok((data, given_name(name)))
            },
        },
    }
}

/// A stored file name; none, if it is empty.
pub open spec fn given_name(name: Seq<char>) -> Option<Seq<char>> {
    if name.len() == 0 {
        None
    } else {
        Some(name)
    }
}

/// The mathematical value of an optional text.
pub open spec fn text_view(text: Option<String>) -> Option<Seq<char>> {
    match text {
        Some(t) => Some(t@),
        None => None,
    }
}

/// Reads the stream at `off` and decompresses it.
fn unpack_block(blob: &[u8], off: usize, short: &str) -> (r: Result<Vec<u8>, AxmzipError>)
    ensures
        r matches Ok(data) ==> read_block(blob@, off as int, short@) matches Ok((inner, _))
            && decompressed_stream(inner) == Ok::<Seq<u8>, Failure>(data@),
        r matches Err(e) ==> match read_block(blob@, off as int, short@) {
            Err(f) => f == e@,
            Ok((inner, _)) => decompressed_stream(inner) == Err::<Seq<u8>, Failure>(e@),
        },
{
    match find_block(blob, off, short) {
        Err(e) => Err(e),
        Ok((from, to)) => decompress_stream(vstd::slice::slice_subrange(blob, from, to)),
    }
}

/// Decompresses the contents of a container that begin at `off`.
fn unpack(blob: &[u8], mode: u8, off: usize) -> (r: Result<Vec<u8>, AxmzipError>)
    requires
        HEADER_LEN <= off <= blob@.len(),
    ensures
        match r {
            Ok(data) => unpacked(blob@, mode, off as int) == Ok::<Seq<u8>, Failure>(data@),
            Err(e) => unpacked(blob@, mode, off as int) == Err::<Seq<u8>, Failure>(e@),
        },
{
    let total: usize = blob.len();
    if mode == MODE_PLAIN {
        unpack_block(blob, off, "Truncated plain blob")
    } else if mode == MODE_STRIDE {
        if off >= total {
            return Err(invalid("Truncated stride blob"));
        }
        match unpack_block(blob, off + 1, "Truncated stride blob") {
            Err(e) => Err(e),
            Ok(differences) => if blob[off] == 0 {
                Err(invalid("Stride is zero"))
            } else {
                Ok(stride_undelta(differences.as_slice(), blob[off] as usize))
            },
        }
    } else if mode == MODE_LOSSY {
        if total - off < 2 {
            return Err(invalid("Unexpected end of varint"));
        }
        unpack_block(blob, off + 2, "Truncated lossy blob")
    } else {
        Err(
            AxmzipError::InvalidData(
                "Unknown mode ".to_owned().concat(decimal_text(mode as u64).as_str()),
            ),
        )
    }
}

/// Decompresses a file.
pub fn decompress(blob: &[u8]) -> (r: Result<DecompressResult, AxmzipError>)
    ensures
        match r {
            Ok(file) => decompressed(blob@) == Ok::<(Seq<u8>, Option<Seq<char>>), Failure>(
                (file.data@, text_view(file.original_filename)),
            ),
            Err(e) => decompressed(blob@) == Err::<(Seq<u8>, Option<Seq<char>>), Failure>(e@),
        },
{
    match read_header(blob) {
        Err(e) => Err(e),
        Ok((mode, name, off)) => match unpack(blob, mode, off) {
            Err(e) => Err(e),
            Ok(data) => {
                let sum = checksum_of(data.as_slice());
                if !same_bytes(sum.as_slice(), vstd::slice::slice_subrange(blob, 5, 21)) {
                    return Err(AxmzipError::ChecksumMismatch);
                }
                let original_filename = if name.as_str().is_empty() {
                    None
                } else {
                    Some(name)
                };
                Ok(DecompressResult { data, original_filename })
            },
        },
    }
}

/// What is left of a file: all of it, or its bytes rounded.
pub open spec fn restored(data: Seq<u8>, quality: u8) -> Seq<u8> {
    if quality < 100 {
        quantized(data, quality)
    } else {
        data
    }
}

/// Whether the stream that is kept of a file fits on this machine.
pub open spec fn file_fits(
    data: Seq<u8>,
    quality: u8,
    channels: u8,
    name: Seq<char>,
    m: Measured,
) -> bool {
    if quality >= 100 && stride_pays(data, channels, name, m) {
        let differences = strided(data, chosen_stride(data.len(), m.strides) as int);
        fits(
            filtered(
                differences,
                chosen_filter(differences.len(), channels, m.stride_filters),
            ),
        )
    } else {
        let left = restored(data, quality);
        fits(filtered(left, chosen_filter(left.len(), channels, m.filters)))
    }
}

/// Files of up to sixty million bytes fit on every machine.
pub proof fn law_moderate_file_fits(
    data: Seq<u8>,
    quality: u8,
    channels: u8,
    name: Seq<char>,
    m: Measured,
)
    requires
        data.len() <= 60_000_000,
    ensures
        file_fits(data, quality, channels, name, m),
{
    let first = restored(data, quality);
    let s = chosen_stride(data.len(), m.strides) as int;
    let second = strided(data, s);
    let f1 = chosen_filter(first.len(), channels, m.filters);
    let f2 = chosen_filter(second.len(), channels, m.stride_filters);
    law_stride_reversible(data, s);
    law_filter_reversible(first, f1);
    law_filter_reversible(second, f2);
    law_moderate_data_fit(filtered(first, f1));
    law_moderate_data_fit(filtered(second, f2));
}

/// A block is read back.
pub proof fn lemma_block_read(blob: Seq<u8>, off: int, bytes: Seq<u8>, short: Seq<char>)
    requires
        bytes.len() <= usize::MAX,
        holds_at(blob, off, block(bytes)),
    ensures
        read_block(blob, off, short) == Ok::<(Seq<u8>, int), Failure>(
            (bytes, off + block(bytes).len()),
        ),
{
    lemma_holds_parts(blob, off, varint(bytes.len()), bytes);
    lemma_varint_read(blob, off, bytes.len());
}

/// A header is read back, whatever follows it.
pub proof fn law_header_round_trip(sum: Seq<u8>, mode: u8, name: Seq<char>, rest: Seq<u8>)
    requires
        sum.len() == 16,
        encode_utf8(name).len() <= usize::MAX,
    ensures
        ({
            let head = header_bytes(sum, mode, name);
            let blob = head + rest;
            &&& read_header_bytes(blob) == Ok::<(u8, Seq<char>, int), Failure>(
                (mode, name, head.len() as int),
            )
            &&& is_container(blob)
            &&& blob.subrange(5, 21) == sum
            &&& holds_at(blob, head.len() as int, rest)
        }),
{
    let head = header_bytes(sum, mode, name);
    let blob = head + rest;
    let fixed = magic() + seq![VERSION] + sum + seq![mode];
    let name_bytes = encode_utf8(name);
    assert(holds_at(blob, 0, blob)) by {
        assert(blob.subrange(0, blob.len() as int) =~= blob);
    }
    lemma_holds_parts(blob, 0, head, rest);
    lemma_holds_parts(blob, 0, fixed, block(name_bytes));
    lemma_block_read(blob, 22, name_bytes, "Filename truncated"@);
    encode_utf8_valid_utf8(name);
    encode_utf8_decode_utf8(name);
    assert(blob.subrange(0, 22) == fixed);
    assert(blob.subrange(0, 4) =~= fixed.subrange(0, 4));
    assert(fixed.subrange(0, 4) =~= magic());
    assert(blob[4] == fixed[4]);
    assert(blob[21] == fixed[21]);
    assert(blob.subrange(5, 21) =~= fixed.subrange(5, 21));
    assert(fixed.subrange(5, 21) =~= sum);
}

proof fn lemma_plain_round_trip(data: Seq<u8>, channels: u8, name: Seq<char>, filters: Seq<Score>)
    requires
        fits(filtered(data, chosen_filter(data.len(), channels, filters))),
        plain_blob(data, channels, name, filters).len() <= usize::MAX,
    ensures
        decompressed(plain_blob(data, channels, name, filters)) == Ok::<
            (Seq<u8>, Option<Seq<char>>),
            Failure,
        >((data, given_name(name))),
{
    let inner = compressed_stream(data, channels, filters);
    let head = header_bytes(checksum(data), MODE_PLAIN, name);
    law_header_round_trip(checksum(data), MODE_PLAIN, name, block(inner));
    lemma_block_read(head + block(inner), head.len() as int, inner, "Truncated plain blob"@);
    law_stream_round_trip(data, channels, filters);
}

proof fn lemma_stride_round_trip(
    data: Seq<u8>,
    s: usize,
    channels: u8,
    name: Seq<char>,
    filters: Seq<Score>,
)
    requires
        1 <= s <= MAX_STRIDE,
        fits(
            filtered(
                strided(data, s as int),
                chosen_filter(strided(data, s as int).len(), channels, filters),
            ),
        ),
        stride_blob(data, s, channels, name, filters).len() <= usize::MAX,
    ensures
        decompressed(stride_blob(data, s, channels, name, filters)) == Ok::<
            (Seq<u8>, Option<Seq<char>>),
            Failure,
        >((data, given_name(name))),
{
    let inner = compressed_stream(strided(data, s as int), channels, filters);
    let head = header_bytes(checksum(data), MODE_STRIDE, name);
    let rest = seq![s as u8] + block(inner);
    let blob = head + rest;
    assert(blob =~= stride_blob(data, s, channels, name, filters));
    law_header_round_trip(checksum(data), MODE_STRIDE, name, rest);
    lemma_holds_parts(blob, head.len() as int, seq![s as u8], block(inner));
    assert(blob[head.len() as int] == s);
    lemma_block_read(blob, head.len() as int + 1, inner, "Truncated stride blob"@);
    law_stream_round_trip(strided(data, s as int), channels, filters);
    law_stride_reversible(data, s as int);
}

proof fn lemma_lossy_round_trip(
    data: Seq<u8>,
    quality: u8,
    channels: u8,
    name: Seq<char>,
    filters: Seq<Score>,
)
    requires
        fits(
            filtered(
                quantized(data, quality),
                chosen_filter(quantized(data, quality).len(), channels, filters),
            ),
        ),
        lossy_blob(data, quality, channels, name, filters).len() <= usize::MAX,
    ensures
        decompressed(lossy_blob(data, quality, channels, name, filters)) == Ok::<
            (Seq<u8>, Option<Seq<char>>),
            Failure,
        >((quantized(data, quality), given_name(name))),
{
    let rough = quantized(data, quality);
    let inner = compressed_stream(rough, channels, filters);
    let head = header_bytes(checksum(rough), MODE_LOSSY, name);
    let rest = seq![quality, channels] + block(inner);
    let blob = head + rest;
    assert(blob =~= lossy_blob(data, quality, channels, name, filters));
    law_header_round_trip(checksum(rough), MODE_LOSSY, name, rest);
    lemma_holds_parts(blob, head.len() as int, seq![quality, channels], block(inner));
    assert(blob[head.len() as int] == quality);
    lemma_block_read(blob, head.len() as int + 2, inner, "Truncated lossy blob"@);
    law_stream_round_trip(rough, channels, filters);
}

/// Decompressing gives back what was compressed, and the name of the file: every
/// byte if the compression is lossless, the rounded bytes if it is lossy.
pub proof fn law_file_round_trip(
    data: Seq<u8>,
    quality: u8,
    channels: u8,
    name: Seq<char>,
    m: Measured,
)
    requires
        file_fits(data, quality, channels, name, m),
        compressed(data, quality, channels, name, m).len() <= usize::MAX,
    ensures
        decompressed(compressed(data, quality, channels, name, m)) == Ok::<
            (Seq<u8>, Option<Seq<char>>),
            Failure,
        >((restored(data, quality), given_name(name))),
{
    if quality < 100 {
        lemma_lossy_round_trip(data, quality, channels, name, m.filters);
    } else if stride_pays(data, channels, name, m) {
        let s = chosen_stride(data.len(), m.strides);
        lemma_chosen_stride(data.len(), m.strides);
        lemma_stride_round_trip(data, s, channels, name, m.stride_filters);
    } else {
        lemma_plain_round_trip(data, channels, name, m.filters);
    }
}

/// A container tells how it was made.
pub proof fn law_probe_tells(data: Seq<u8>, quality: u8, channels: u8, name: Seq<char>, m: Measured)
    requires
        compressed(data, quality, channels, name, m).len() <= usize::MAX,
    ensures
        probed(compressed(data, quality, channels, name, m)) == Some(
            if quality < 100 {
                "lossy(q="@ + decimal(quality as nat) + ")"@
            } else if stride_pays(data, channels, name, m) {
                "lossless/stride(s="@ + decimal(chosen_stride(data.len(), m.strides) as nat)
                    + ")"@
            } else {
                "lossless/plain"@
            },
        ),
{
    let blob = compressed(data, quality, channels, name, m);
    if quality < 100 {
        let rough = quantized(data, quality);
        let inner = block(compressed_stream(rough, channels, m.filters));
        lemma_probe(checksum(rough), MODE_LOSSY, name, seq![quality, channels], inner);
    } else if stride_pays(data, channels, name, m) {
        let s = chosen_stride(data.len(), m.strides);
        let inner = block(compressed_stream(strided(data, s as int), channels, m.stride_filters));
        lemma_chosen_stride(data.len(), m.strides);
        lemma_probe(checksum(data), MODE_STRIDE, name, seq![s as u8], inner);
    } else {
        let inner = block(compressed_stream(data, channels, m.filters));
        lemma_probe(checksum(data), MODE_PLAIN, name, Seq::empty(), inner);
        assert(header_bytes(checksum(data), MODE_PLAIN, name) + Seq::<u8>::empty() + inner =~= blob);
    }
}

/// What is told of a container depends on the header and the byte behind it.
proof fn lemma_probe(sum: Seq<u8>, mode: u8, name: Seq<char>, parameters: Seq<u8>, inner: Seq<u8>)
    requires
        sum.len() == 16,
        (header_bytes(sum, mode, name) + parameters + inner).len() <= usize::MAX,
    ensures
        ({
            let head = header_bytes(sum, mode, name);
            let blob = head + parameters + inner;
            &&& probed(blob) == Some(mode_text(blob, mode, head.len() as int))
            &&& parameters.len() > 0 ==> byte_or_zero(blob, head.len() as int) == parameters[0]
        }),
{
    let head = header_bytes(sum, mode, name);
    let blob = head + parameters + inner;
    assert(blob =~= head + (parameters + inner));
    law_header_round_trip(sum, mode, name, parameters + inner);
}

/// Trying strides never makes a container longer than the plain one.
pub proof fn law_never_longer_than_plain(
    data: Seq<u8>,
    quality: u8,
    channels: u8,
    name: Seq<char>,
    m: Measured,
)
    requires
        quality >= 100,
    ensures
        compressed(data, quality, channels, name, m).len() <= plain_blob(
            data,
            channels,
            name,
            m.filters,
        ).len(),
{
}

/// What is decompressed has the checksum that the container holds.
pub proof fn law_decompressed_matches_checksum(blob: Seq<u8>)
    requires
        decompressed(blob) is Ok,
    ensures
        is_container(blob),
        checksum(decompressed(blob)->Ok_0.0) == blob.subrange(5, 21),
{
}

/// A header: the mark, the version, the checksum, the mode, and the file name behind its
/// length.
proof fn lemma_header_made_of(sum: Seq<u8>, mode: u8, name: Seq<char>)
    ensures
        header_bytes(sum, mode, name) == seq![0x41u8, 0x58, 0x4D, 0x35, 2] + sum + seq![mode]
            + varint(encode_utf8(name).len()) + encode_utf8(name),
{
    assert(header_bytes(sum, mode, name) =~= seq![0x41u8, 0x58, 0x4D, 0x35, 2] + sum + seq![mode]
        + varint(encode_utf8(name).len()) + encode_utf8(name));
}

/// A file compressed with loss: the header with the checksum of the rounded bytes, the
/// quality, the channels, and the stream of the rounded bytes behind its length.
pub proof fn law_lossy_made_of(
    data: Seq<u8>,
    quality: u8,
    channels: u8,
    name: Seq<char>,
    m: Measured,
)
    requires
        quality < 100,
    ensures
        ({
            let rough = quantized(data, quality);
            let stream = compressed_stream(rough, channels, m.filters);
            compressed(data, quality, channels, name, m) == seq![0x41u8, 0x58, 0x4D, 0x35, 2]
                + checksum(rough) + seq![2u8] + varint(encode_utf8(name).len()) + encode_utf8(name)
                + seq![quality, channels] + varint(stream.len()) + stream
        }),
{
    let rough = quantized(data, quality);
    let stream = compressed_stream(rough, channels, m.filters);
    lemma_header_made_of(checksum(rough), MODE_LOSSY, name);
    assert(compressed(data, quality, channels, name, m) =~= seq![0x41u8, 0x58, 0x4D, 0x35, 2]
        + checksum(rough) + seq![2u8] + varint(encode_utf8(name).len()) + encode_utf8(name)
        + seq![quality, channels] + varint(stream.len()) + stream);
}

/// A file compressed without loss: the header with its checksum and the stream of its
/// bytes behind its length; or, where a stride was chosen and this is shorter, the
/// header, the stride, and the stream of the differences.
pub proof fn law_lossless_made_of(
    data: Seq<u8>,
    quality: u8,
    channels: u8,
    name: Seq<char>,
    m: Measured,
)
    requires
        quality >= 100,
    ensures
        ({
            let s = chosen_stride(data.len(), m.strides);
            let start = seq![0x41u8, 0x58, 0x4D, 0x35, 2] + checksum(data);
            let text = varint(encode_utf8(name).len()) + encode_utf8(name);
            let stream = compressed_stream(data, channels, m.filters);
            let plain = start + seq![0u8] + text + varint(stream.len()) + stream;
            let differences = compressed_stream(
                strided(data, s as int),
                channels,
                m.stride_filters,
            );
            let stride = start + seq![1u8] + text + seq![s as u8] + varint(differences.len())
                + differences;
            compressed(data, quality, channels, name, m) == (if s > 0 && stride.len() < plain.len() {
                stride
            } else {
                plain
            })
        }),
{
    let s = chosen_stride(data.len(), m.strides);
    let sum = checksum(data);
    let start = seq![0x41u8, 0x58, 0x4D, 0x35, 2] + sum;
    let text = varint(encode_utf8(name).len()) + encode_utf8(name);
    let stream = compressed_stream(data, channels, m.filters);
    let plain = start + seq![0u8] + text + varint(stream.len()) + stream;
    let differences = compressed_stream(strided(data, s as int), channels, m.stride_filters);
    let stride = start + seq![1u8] + text + seq![s as u8] + varint(differences.len()) + differences;
    lemma_header_made_of(sum, MODE_PLAIN, name);
    lemma_header_made_of(sum, MODE_STRIDE, name);
    assert(plain_blob(data, channels, name, m.filters) =~= plain);
    assert(stride_blob(data, s, channels, name, m.stride_filters) =~= stride);
}

/// A file name that is not empty is given back whole.
pub proof fn law_name_given(name: Seq<char>)
    ensures
        given_name(name) == (if name.len() > 0 {
            Some(name)
        } else {
            None
        }),
{
}

/// What is left of a file: without loss all of it, with loss its bytes rounded.
pub proof fn law_restored(data: Seq<u8>, quality: u8)
    ensures
        quality >= 100 ==> restored(data, quality) == data,
        quality < 100 ==> restored(data, quality) == quantized(data, quality),
{
}

/// The mode that is told of a file when it is compressed is the one that its container
/// tells.
#[verifier::rlimit(40)]
pub proof fn law_modes_agree(data: Seq<u8>, quality: u8, channels: u8, name: Seq<char>, m: Measured)
    requires
        compressed(data, quality, channels, name, m).len() <= usize::MAX,
    ensures
        ({
            let mode = compressed_mode(data, quality, channels, name, m);
            let blob = compressed(data, quality, channels, name, m);
            if quality < 100 {
                &&& mode == "lossy(q="@ + decimal(quality as nat) + ",step="@ + decimal(
                    step_of(quality) as nat,
                ) + ")"@
                &&& probed(blob) == Some("lossy(q="@ + decimal(quality as nat) + ")"@)
            } else {
                &&& probed(blob) == Some("lossless/"@ + mode)
                &&& blob[21] == 0 ==> mode == "plain"@
                &&& blob[21] != 0 ==> blob[21] == 1 && mode == "stride(s="@ + decimal(
                    chosen_stride(data.len(), m.strides) as nat,
                ) + ")"@
            }
        }),
{
    law_probe_tells(data, quality, channels, name, m);
    if quality >= 100 {
        lemma_mode_texts(decimal(chosen_stride(data.len(), m.strides) as nat));
        lemma_mode_byte(data, quality, channels, name, m);
    }
}

proof fn lemma_mode_texts(n: Seq<char>)
    ensures
        "lossless/"@ + "plain"@ == "lossless/plain"@,
        "lossless/"@ + ("stride(s="@ + n + ")"@) == "lossless/stride(s="@ + n + ")"@,
{
    reveal_strlit("lossless/");
    reveal_strlit("plain");
    reveal_strlit("lossless/plain");
    reveal_strlit("stride(s=");
    reveal_strlit("lossless/stride(s=");
    assert("lossless/"@ + "plain"@ =~= "lossless/plain"@);
    assert("lossless/"@ + "stride(s="@ =~= "lossless/stride(s="@);
    assert("lossless/"@ + ("stride(s="@ + n + ")"@) =~= ("lossless/"@ + "stride(s="@) + n + ")"@);
}

proof fn lemma_mode_byte(data: Seq<u8>, quality: u8, channels: u8, name: Seq<char>, m: Measured)
    requires
        quality >= 100,
    ensures
        compressed(data, quality, channels, name, m)[21] == (if stride_pays(
            data,
            channels,
            name,
            m,
        ) {
            1u8
        } else {
            0u8
        }),
{
    let sum = checksum(data);
    assert(header_bytes(sum, MODE_PLAIN, name)[21] == MODE_PLAIN);
    assert(header_bytes(sum, MODE_STRIDE, name)[21] == MODE_STRIDE);
}

/// What is too short for a container, does not begin with its mark, or has another
/// version is refused, and nothing is told of its mode.
pub proof fn law_container_refused(blob: Seq<u8>)
    ensures
        blob.len() < 22 ==> decompressed(blob) == Err::<(Seq<u8>, Option<Seq<char>>), Failure>(
            Failure::InvalidData("File too short"@),
        ),
        blob.len() >= 22 && blob.take(4) != seq![0x41u8, 0x58, 0x4D, 0x35] ==> decompressed(blob)
            == Err::<(Seq<u8>, Option<Seq<char>>), Failure>(Failure::BadMagic),
        blob.len() >= 22 && blob.take(4) == seq![0x41u8, 0x58, 0x4D, 0x35] && blob[4] != 2
            ==> decompressed(blob) == Err::<(Seq<u8>, Option<Seq<char>>), Failure>(
            Failure::BadVersion,
        ),
        is_container(blob) <==> blob.len() >= 22 && blob.take(4) == seq![0x41u8, 0x58, 0x4D, 0x35]
            && blob[4] == 2,
        !is_container(blob) ==> probed(blob) is None,
{
    assert(magic() =~= seq![0x41u8, 0x58, 0x4D, 0x35]);
}

proof fn lemma_block_agrees(a: Seq<u8>, b: Seq<u8>, off: int, short: Seq<char>)
    requires
        0 <= off,
        a.len() == b.len(),
        forall|j: int| off <= j < a.len() ==> #[trigger] a[j] == b[j],
    ensures
        read_block(a, off, short) == read_block(b, off, short),
        read_block(a, off, short) matches Ok((_, end)) ==> off <= end <= a.len(),
{
    lemma_varint_agrees(a, b, off);
    if let Ok((len, next)) = read_varint(a, off) {
        if len as usize <= a.len() - next {
            assert(a.subrange(next, next + len as usize) =~= b.subrange(next, next + len as usize));
        }
    }
}

proof fn lemma_unpacked_agrees(a: Seq<u8>, b: Seq<u8>, mode: u8, off: int)
    requires
        0 <= off,
        a.len() == b.len(),
        forall|j: int| off <= j < a.len() ==> #[trigger] a[j] == b[j],
    ensures
        unpacked(a, mode, off) == unpacked(b, mode, off),
{
    lemma_block_agrees(a, b, off, "Truncated plain blob"@);
    lemma_block_agrees(a, b, off + 1, "Truncated stride blob"@);
    lemma_block_agrees(a, b, off + 2, "Truncated lossy blob"@);
    if off < a.len() {
        assert(a[off] == b[off]);
    }
}

/// A container whose checksum was changed is refused.
pub proof fn law_wrong_checksum_refused(blob: Seq<u8>, other: Seq<u8>)
    requires
        decompressed(blob) is Ok,
        other.len() == blob.len(),
        forall|i: int|
            0 <= i < blob.len() && !(5 <= i < 21) ==> #[trigger] other[i] == blob[i],
        other.subrange(5, 21) != blob.subrange(5, 21),
    ensures
        decompressed(other) == Err::<(Seq<u8>, Option<Seq<char>>), Failure>(
            Failure::ChecksumMismatch,
        ),
{
    assert(other.subrange(0, 4) =~= blob.subrange(0, 4));
    assert(other[4] == blob[4] && other[21] == blob[21]);
    lemma_block_agrees(blob, other, 22, "Filename truncated"@);
    let (mode, name, off) = read_header_bytes(blob)->Ok_0;
    lemma_unpacked_agrees(blob, other, mode, off);
}

/// The points that are told while a file is compressed, besides those of its streams.
pub proof fn law_file_points<F: Fn(u32)>(
    report: &F,
    data: Seq<u8>,
    quality: u8,
    channels: u8,
    m: Measured,
)
    requires
        file_told(report, data, quality, channels, m),
    ensures
        call_ensures(*report, (20u32,), ()),
        call_ensures(*report, (50u32,), ()),
        call_ensures(*report, (1000u32,), ()),
        quality < 100 ==> call_ensures(*report, (950u32,), ()) && stream_told(
            report,
            quantized(data, quality),
            channels,
            m.filters,
            100,
            900,
        ),
        quality >= 100 ==> call_ensures(*report, (550u32,), ()) && stream_told(
            report,
            data,
            channels,
            m.filters,
            50,
            520,
        ),
        quality >= 100 && chosen_stride(data.len(), m.strides) == 0 ==> call_ensures(
            *report,
            (950u32,),
            (),
        ),
        quality >= 100 && chosen_stride(data.len(), m.strides) > 0 ==> stream_told(
            report,
            strided(data, chosen_stride(data.len(), m.strides) as int),
            channels,
            m.stride_filters,
            550,
            930,
        ),
{
}

/// What a container of any origin tells of its mode: the byte behind the checksum names
/// it, and the byte behind the file name its parameter. One of an unknown mode, one
/// whose stride is zero, and one that ends too early are refused.
pub proof fn law_mode_read(blob: Seq<u8>)
    requires
        read_header_bytes(blob) is Ok,
    ensures
        ({
            let (mode, _, off) = read_header_bytes(blob)->Ok_0;
            let n = decimal(
                if off < blob.len() {
                    blob[off] as nat
                } else {
                    0
                },
            );
            &&& mode == blob[21]
            &&& mode == 0 ==> probed(blob) == Some("lossless/plain"@)
            &&& mode == 1 ==> probed(blob) == Some("lossless/stride(s="@ + n + ")"@)
            &&& mode == 2 ==> probed(blob) == Some("lossy(q="@ + n + ")"@)
            &&& mode > 2 ==> probed(blob) == Some("unknown"@)
            &&& mode > 2 ==> decompressed(blob) == Err::<(Seq<u8>, Option<Seq<char>>), Failure>(
                Failure::InvalidData("Unknown mode "@ + decimal(mode as nat)),
            )
            &&& mode == 1 && off < blob.len() && blob[off] == 0 ==> decompressed(blob) is Err
            &&& mode == 1 && off >= blob.len() ==> decompressed(blob) == Err::<
                (Seq<u8>, Option<Seq<char>>),
                Failure,
            >(Failure::InvalidData("Truncated stride blob"@))
        }),
{
}

/// What is measured of a file is taken as it is.
pub proof fn law_measurements_taken(measured: Measurements)
    ensures
        measured@.filters == measured.filters@,
        measured@.strides == measured.strides@,
        measured@.stride_filters == measured.stride_filters@,
{
}

/// A block that is there is read, whatever follows it.
pub(crate) proof fn lemma_block_extends(a: Seq<u8>, extra: Seq<u8>, off: int, short: Seq<char>)
    requires
        0 <= off,
        read_block(a, off, short) is Ok,
    ensures
        read_block(a + extra, off, short) == read_block(a, off, short),
        off < read_block(a, off, short)->Ok_0.1 <= a.len(),
{
    lemma_varint_extends(a, extra, off);
    let (len, next) = read_varint(a, off)->Ok_0;
    assert((a + extra).subrange(next, next + len as usize) =~= a.subrange(
        next,
        next + len as usize,
    ));
}

/// What follows a container does not matter.
pub proof fn law_rest_passed_over(blob: Seq<u8>, extra: Seq<u8>)
    requires
        decompressed(blob) is Ok,
    ensures
        decompressed(blob + extra) == decompressed(blob),
{
    let all = blob + extra;
    let (mode, name, off) = read_header_bytes(blob)->Ok_0;
    assert(all.subrange(0, 4) =~= blob.subrange(0, 4));
    assert(all.subrange(5, 21) =~= blob.subrange(5, 21));
    lemma_block_extends(blob, extra, 22, "Filename truncated"@);
    assert(read_header_bytes(all) == read_header_bytes(blob));
    if mode == MODE_PLAIN {
        lemma_block_extends(blob, extra, off, "Truncated plain blob"@);
    } else if mode == MODE_STRIDE {
        lemma_block_extends(blob, extra, off + 1, "Truncated stride blob"@);
    } else {
        lemma_block_extends(blob, extra, off + 2, "Truncated lossy blob"@);
    }
    assert(unpacked(all, mode, off) == unpacked(blob, mode, off));
}

/// A name that is given is the text of it.
pub proof fn law_text_given(text: String)
    ensures
        text_view(Some(text)) == Some(text@),
        text_view(None) is None,
{
}

} // verus!
