//! Lossy compression: rounding each byte to a multiple of a step, and how far that
//! takes it.

use vstd::prelude::*;

verus! {

/// The step for a quality in percent: the integer nearest to
/// `128 * (1 - quality / 100)`, and one at least.
pub open spec fn step_of(quality: u8) -> int {
    let nearest = (64 * (100 - quality) + 25) / 50;
    if quality >= 100 || nearest < 1 {
        1
    } else {
        nearest
    }
}

/// A byte rounded to the nearest multiple of `step`, the larger of two, or to the
/// largest byte if that is smaller.
pub open spec fn rounded(b: u8, step: int) -> u8 {
    let multiple = (b + step / 2) / step * step;
    if multiple > 255 {
        255
    } else {
        multiple as u8
    }
}

/// Data with each byte rounded.
pub open spec fn quantized(data: Seq<u8>, quality: u8) -> Seq<u8> {
    Seq::new(data.len(), |i: int| rounded(data[i], step_of(quality)))
}

/// How far apart two bytes are.
pub open spec fn distance(a: u8, b: u8) -> u8 {
    if a < b {
        (b - a) as u8
    } else {
        (a - b) as u8
    }
}

/// How many bytes two byte strings have at the same places.
pub open spec fn shared(a: Seq<u8>, b: Seq<u8>) -> nat {
    if a.len() < b.len() {
        a.len()
    } else {
        b.len()
    }
}

/// The greatest distance of bytes at the same place among the first `n`.
pub open spec fn greatest_distance(a: Seq<u8>, b: Seq<u8>, n: int) -> u8
    decreases n,
{
    if n <= 0 {
        0
    } else {
        let d = distance(a[n - 1], b[n - 1]);
        let before = greatest_distance(a, b, n - 1);
        if d > before {
            d
        } else {
            before
        }
    }
}

/// The sum of the squared distances of bytes at the same place among the first `n`.
pub open spec fn squared_distances(a: Seq<u8>, b: Seq<u8>, n: int) -> nat
    decreases n,
{
    if n <= 0 {
        0
    } else {
        let d = distance(a[n - 1], b[n - 1]) as nat;
        squared_distances(a, b, n - 1) + d * d
    }
}

/// Rounding is to the nearest multiple: no byte moves by more than half a step.
pub proof fn law_rounded_near(b: u8, step: int)
    requires
        1 <= step <= 128,
    ensures
        distance(b, rounded(b, step)) <= step / 2,
{
    let h = step / 2;
    let q = (b + h) / step;
    assert(q * step <= b + h < q * step + step) by (nonlinear_arith)
        requires
            step >= 1,
            q == (b + h) / step,
    ;
}

/// Rounding what is rounded changes nothing.
pub proof fn law_rounded_twice(b: u8, step: int)
    requires
        1 <= step <= 128,
    ensures
        rounded(rounded(b, step), step) == rounded(b, step),
{
    let h = step / 2;
    let q = (b + h) / step;
    if q * step <= 255 {
        assert((q * step + h) / step == q && q * step >= 0) by (nonlinear_arith)
            requires
                step >= 1,
                q >= 0,
                h == step / 2,
        ;
    } else {
        assert((255 + h) / step * step >= q * step) by (nonlinear_arith)
            requires
                step >= 1,
                b <= 255,
                q == (b + h) / step,
        ;
    }
}

/// The step of a quality lies in the range for which rounding is meant, and full
/// quality has a step of one.
pub proof fn law_step_range(quality: u8)
    ensures
        1 <= step_of(quality) <= 128,
        quality >= 100 ==> step_of(quality) == 1,
{
}

/// The better the quality, the smaller the step.
pub proof fn law_step_monotone(better: u8, worse: u8)
    requires
        worse <= better,
    ensures
        step_of(better) <= step_of(worse),
{
}

/// With a step of one nothing changes.
pub proof fn law_full_quality_keeps(data: Seq<u8>, quality: u8)
    requires
        quality >= 100,
    ensures
        quantized(data, quality) == data,
{
    assert(quantized(data, quality) =~= data);
}

proof fn lemma_greatest_bound(a: Seq<u8>, b: Seq<u8>, n: int, most: int)
    requires
        0 <= most,
        forall|i: int| 0 <= i < n ==> distance(#[trigger] a[i], b[i]) <= most,
    ensures
        greatest_distance(a, b, n) <= most,
    decreases n,
{
    if n > 0 {
        lemma_greatest_bound(a, b, n - 1, most);
        assert(distance(a[n - 1], b[n - 1]) <= most);
    }
}

/// No byte is further from what it was than half the step of the quality.
pub proof fn law_quantized_near(data: Seq<u8>, quality: u8)
    ensures
        quantized(data, quality).len() == data.len(),
        greatest_distance(data, quantized(data, quality), data.len() as int) <= step_of(quality)
            / 2,
{
    assert forall|i: int| 0 <= i < data.len() implies distance(
        #[trigger] data[i],
        quantized(data, quality)[i],
    ) <= step_of(quality) / 2 by {
        law_rounded_near(data[i], step_of(quality));
    }
    lemma_greatest_bound(data, quantized(data, quality), data.len() as int, step_of(quality) / 2);
}

proof fn lemma_no_distance(a: Seq<u8>, b: Seq<u8>, n: int)
    ensures
        squared_distances(a, b, n) == 0 <==> forall|i: int| 0 <= i < n ==> a[i] == b[i],
        greatest_distance(a, b, n) == 0 <==> forall|i: int| 0 <= i < n ==> a[i] == b[i],
    decreases n,
{
    if n > 0 {
        lemma_no_distance(a, b, n - 1);
        let d = distance(a[n - 1], b[n - 1]) as nat;
        assert(d > 0 ==> d * d > 0) by (nonlinear_arith);
        if a[n - 1] == b[n - 1] && forall|i: int| 0 <= i < n - 1 ==> a[i] == b[i] {
            assert(forall|i: int| 0 <= i < n ==> a[i] == b[i]);
        }
    }
}

/// Two byte strings of the same length are equal where there is no noise, and only
/// there; and so it is with the greatest error.
pub proof fn law_no_error_means_equal(a: Seq<u8>, b: Seq<u8>)
    requires
        a.len() == b.len(),
    ensures
        squared_distances(a, b, a.len() as int) == 0 <==> a == b,
        greatest_distance(a, b, a.len() as int) == 0 <==> a == b,
{
    lemma_no_distance(a, b, a.len() as int);
    if forall|i: int| 0 <= i < a.len() ==> a[i] == b[i] {
        assert(a =~= b);
    }
}

/// The step for a quality.
pub fn quality_to_step(quality: u8) -> (step: u8)
    ensures
        step == step_of(quality),
        1 <= step <= 128,
{
    if quality >= 100 {
        return 1;
    }
    let nearest: u32 = (64 * (100 - quality as u32) + 25) / 50;
    if nearest < 1 {
        1
    } else {
        nearest as u8
    }
}

/// Rounds each byte to a multiple of the step for a quality.
pub fn quantize(data: &[u8], quality: u8) -> (out: Vec<u8>)
    ensures
        out@ == quantized(data@, quality),
{
    let step: u16 = quality_to_step(quality) as u16;
    let mut out: Vec<u8> = Vec::with_capacity(data.len());
    let mut i: usize = 0;
    while i < data.len()
        invariant
            i <= data@.len(),
            step == step_of(quality),
            1 <= step <= 128,
            out@.len() == i,
            forall|j: int| 0 <= j < i ==> #[trigger] out@[j] == rounded(data@[j], step as int),
        decreases data@.len() - i,
    {
        let near: u16 = data[i] as u16 + step / 2;
        assert(near / step * step <= near) by (nonlinear_arith)
            requires
                step >= 1,
        ;
        let multiple: u16 = near / step * step;
        out.push(
            if multiple > 255 {
                255
            } else {
                multiple as u8
            },
        );
        i += 1;
    }
    assert(out@ =~= quantized(data@, quality));
    out
}

/// The greatest distance between the bytes of two byte strings, up to where the
/// shorter one ends.
pub fn max_error(original: &[u8], reconstructed: &[u8]) -> (most: u8)
    ensures
        most == greatest_distance(
            original@,
            reconstructed@,
            shared(original@, reconstructed@) as int,
        ),
{
    let mut most: u8 = 0;
    let mut i: usize = 0;
    while i < original.len() && i < reconstructed.len()
        invariant
            i <= original@.len(),
            i <= reconstructed@.len(),
            most == greatest_distance(original@, reconstructed@, i as int),
        decreases original@.len() - i,
    {
        let a: u8 = original[i];
        let b: u8 = reconstructed[i];
        let d: u8 = if a < b {
            b - a
        } else {
            a - b
        };
        if d > most {
            most = d;
        }
        i += 1;
    }
    most
}

/// The sum of the squared distances between the bytes of two byte strings: what
/// the signal-to-noise ratio is computed from. Nothing, if there are no bytes or
/// not as many in the one as in the other.
pub fn squared_error(original: &[u8], reconstructed: &[u8]) -> (sum: Option<u128>)
    ensures
        sum matches Some(total) ==> total == squared_distances(
            original@,
            reconstructed@,
            original@.len() as int,
        ),
        sum is None <==> original@.len() != reconstructed@.len() || original@.len() == 0,
{
    if original.len() != reconstructed.len() || original.len() == 0 {
        return None;
    }
    let mut total: u128 = 0;
    let mut i: usize = 0;
    while i < original.len()
        invariant
            i <= original@.len(),
            original@.len() == reconstructed@.len(),
            total == squared_distances(original@, reconstructed@, i as int),
            total <= i * 65025,
        decreases original@.len() - i,
    {
        let a: u8 = original[i];
        let b: u8 = reconstructed[i];
        let d: u128 = if a < b {
            (b - a) as u128
        } else {
            (a - b) as u128
        };
        assert(d * d <= 65025) by (nonlinear_arith)
            requires
                d <= 255,
        ;
        total += d * d;
        i += 1;
    }
    Some(total)
}

/// What a quality is worth, in the words of the settings.
#[derive(Clone, Copy, Debug, PartialEq, Eq, Structural)]
pub enum QualityBand {
    Lossless,
    Excellent,
    Good,
    Acceptable,
    HighCompression,
}

/// The band that a quality lies in.
pub open spec fn band_of(quality: u8) -> QualityBand {
    if quality == 100 {
        QualityBand::Lossless
    } else if 90 <= quality <= 99 {
        QualityBand::Excellent
    } else if 75 <= quality <= 89 {
        QualityBand::Good
    } else if 50 <= quality <= 74 {
        QualityBand::Acceptable
    } else {
        QualityBand::HighCompression
    }
}

/// How a band is described.
pub open spec fn band_text(band: QualityBand) -> Seq<char> {
    match band {
        QualityBand::Lossless => "Lossless — bit-perfect"@,
        QualityBand::Excellent => "Excellent quality (±6 per byte)"@,
        QualityBand::Good => "Good quality (±16 per byte)"@,
        QualityBand::Acceptable => "Acceptable (±32 per byte)"@,
        QualityBand::HighCompression => "High compression (lossy)"@,
    }
}

/// The distance that a band promises no byte to exceed.
pub open spec fn band_limit(band: QualityBand) -> int {
    match band {
        QualityBand::Lossless => 0,
        QualityBand::Excellent => 6,
        QualityBand::Good => 16,
        QualityBand::Acceptable => 32,
        QualityBand::HighCompression => 255,
    }
}

/// Rounding keeps what the description of a quality promises.
pub proof fn law_band_kept(data: Seq<u8>, quality: u8)
    ensures
        greatest_distance(data, quantized(data, quality), data.len() as int) <= band_limit(
            band_of(quality),
        ),
{
    law_quantized_near(data, quality);
}

/// The band that a quality lies in.
pub fn quality_band(quality: u8) -> (band: QualityBand)
    ensures
        band == band_of(quality),
{
    if quality == 100 {
        QualityBand::Lossless
    } else if 90 <= quality && quality <= 99 {
        QualityBand::Excellent
    } else if 75 <= quality && quality <= 89 {
        QualityBand::Good
    } else if 50 <= quality && quality <= 74 {
        QualityBand::Acceptable
    } else {
        QualityBand::HighCompression
    }
}

impl QualityBand {
    /// The band as described to a user.
    pub fn description(self) -> (text: &'static str)
        ensures
            text@ == band_text(self),
    {
        match self {
            QualityBand::Lossless => "Lossless — bit-perfect",
            QualityBand::Excellent => "Excellent quality (±6 per byte)",
            QualityBand::Good => "Good quality (±16 per byte)",
            QualityBand::Acceptable => "Acceptable (±32 per byte)",
            QualityBand::HighCompression => "High compression (lossy)",
        }
    }
}

/// Rounding gives the nearest multiple of the step, of two that are as near the larger
/// one; where that exceeds a byte, and only there, the largest byte.
pub proof fn law_rounded_to_multiple(b: u8, step: int)
    requires
        1 <= step <= 128,
    ensures
        ({
            let r = rounded(b, step) as int;
            let near = b + step / 2;
            if near - near % step <= 255 {
                r % step == 0 && r <= near < r + step
            } else {
                r == 255
            }
        }),
{
    let near = b + step / 2;
    let q = near / step;
    assert(q * step == near - near % step && (q * step) % step == 0 && q * step >= 0 && 0 <= near
        % step < step) by (nonlinear_arith)
        requires
            step >= 1,
            near >= 0,
            q == near / step,
    ;
}

/// Each byte is rounded to the nearest multiple of the step of the quality, whatever
/// stands around it.
pub proof fn law_quantized_to_multiples(data: Seq<u8>, quality: u8, i: int)
    requires
        0 <= i < data.len(),
    ensures
        quantized(data, quality).len() == data.len(),
        ({
            let step = step_of(quality);
            let r = quantized(data, quality)[i] as int;
            let near = data[i] + step / 2;
            if near - near % step <= 255 {
                r % step == 0 && r <= near < r + step
            } else {
                r == 255
            }
        }),
{
    law_step_range(quality);
    law_rounded_to_multiple(data[i], step_of(quality));
}

/// The step is the integer nearest to 1.28 for each percent that is missing.
pub proof fn law_step_nearest(quality: u8)
    requires
        quality < 100,
    ensures
        -50 <= 100 * step_of(quality) - 128 * (100 - quality) <= 50,
{
}

/// The greatest error is the greatest of the distances at the same place.
pub proof fn law_greatest_distance(a: Seq<u8>, b: Seq<u8>, n: int)
    ensures
        forall|i: int|
            0 <= i < n ==> #[trigger] a[i] - b[i] <= greatest_distance(a, b, n) && b[i] - a[i]
                <= greatest_distance(a, b, n),
        n > 0 ==> exists|i: int|
            0 <= i < n && (#[trigger] a[i] - b[i] == greatest_distance(a, b, n) || b[i] - a[i]
                == greatest_distance(a, b, n)),
        n <= 0 ==> greatest_distance(a, b, n) == 0,
    decreases n,
{
    if n > 0 {
        law_greatest_distance(a, b, n - 1);
        let g = greatest_distance(a, b, n);
        let before = greatest_distance(a, b, n - 1);
        if g != before || n == 1 {
            assert(a[n - 1] - b[n - 1] == g || b[n - 1] - a[n - 1] == g);
        } else {
            let i = choose|i: int|
                0 <= i < n - 1 && (#[trigger] a[i] - b[i] == before || b[i] - a[i] == before);
            assert(a[i] - b[i] == g || b[i] - a[i] == g);
        }
        assert forall|i: int| 0 <= i < n implies #[trigger] a[i] - b[i] <= g && b[i] - a[i] <= g by {
            if i < n - 1 {
                assert(a[i] - b[i] <= before && b[i] - a[i] <= before);
            }
        }
    }
}

/// Errors are measured as far as both byte strings reach.
pub proof fn law_shared(a: Seq<u8>, b: Seq<u8>)
    ensures
        shared(a, b) <= a.len(),
        shared(a, b) <= b.len(),
        shared(a, b) == a.len() || shared(a, b) == b.len(),
{
}

proof fn lemma_squared_prefix(a: Seq<u8>, b: Seq<u8>, c: Seq<u8>, d: Seq<u8>, n: int)
    requires
        forall|i: int| 0 <= i < n ==> #[trigger] a[i] == c[i] && b[i] == d[i],
    ensures
        squared_distances(a, b, n) == squared_distances(c, d, n),
    decreases n,
{
    if n > 0 {
        lemma_squared_prefix(a, b, c, d, n - 1);
        assert(a[n - 1] == c[n - 1]);
    }
}

/// Two more bytes add the square of their difference to the noise; without bytes
/// there is none.
pub proof fn law_noise_adds_up(a: Seq<u8>, b: Seq<u8>, x: u8, y: u8)
    requires
        a.len() == b.len(),
    ensures
        squared_distances(a.push(x), b.push(y), (a.len() + 1) as int) == squared_distances(
            a,
            b,
            a.len() as int,
        ) + (x - y) * (x - y),
        squared_distances(Seq::empty(), Seq::empty(), 0) == 0,
{
    let n = a.len() as int;
    lemma_squared_prefix(a.push(x), b.push(y), a, b, n);
    let d = distance(x, y) as nat;
    assert(d * d == (x - y) * (x - y)) by (nonlinear_arith)
        requires
            d == x - y || d == y - x,
    ;
}

/// Which qualities lie in which band.
pub proof fn law_bands(quality: u8)
    ensures
        band_of(quality) == QualityBand::Lossless <==> quality == 100,
        band_of(quality) == QualityBand::Excellent <==> 90 <= quality < 100,
        band_of(quality) == QualityBand::Good <==> 75 <= quality < 90,
        band_of(quality) == QualityBand::Acceptable <==> 50 <= quality < 75,
        band_limit(QualityBand::Lossless) == 0,
        band_limit(QualityBand::Excellent) == 6,
        band_limit(QualityBand::Good) == 16,
        band_limit(QualityBand::Acceptable) == 32,
{
}

/// What the settings say of each band.
pub proof fn law_band_texts()
    ensures
        band_text(QualityBand::Lossless) == "Lossless — bit-perfect"@,
        band_text(QualityBand::Excellent) == "Excellent quality (±6 per byte)"@,
        band_text(QualityBand::Good) == "Good quality (±16 per byte)"@,
        band_text(QualityBand::Acceptable) == "Acceptable (±32 per byte)"@,
        band_text(QualityBand::HighCompression) == "High compression (lossy)"@,
{
}

} // verus!
