//! Spectral analysis: band energies with adaptive gain control, and
//! loudness as the root mean square of the time-domain block.
//!
//! The frequency transform is computed outside this module; it hands in
//! its bins as whole hertz and magnitudes in millionths. Samples are
//! 16-bit PCM, where 32767 stands for full scale.
use crate::models::{AudioSpectrum, LEVEL_MAX};
use vstd::prelude::*;

verus! {

/// Smallest peak estimate (0.001 in millionths).
pub const PEAK_FLOOR: u128 = 1000;

/// Peak estimate of a fresh analyzer (0.01 in millionths).
pub const PEAK_INITIAL: u128 = 10000;

/// Sampling rate assumed until told otherwise.
pub const DEFAULT_SAMPLING_RATE: u32 = 44100;

/// The sample value that stands for full scale.
pub const FULL_SCALE: u32 = 32767;

/// Peak estimates stay below this bound.
pub const PEAK_LIMIT: u128 = 0x10_0000_0000_0000_0000_0000_0000;

/// One bin of a frequency transform.
#[derive(Debug, Clone, Copy, PartialEq, Eq, Structural)]
pub struct SpectrumBin {
    /// Centre frequency, whole hertz.
    pub freq_hz: u32,
    /// Magnitude, in millionths.
    pub magnitude: u32,
}

/// Band of a frequency: 0 bass (20..250 Hz), 1 mid (250..4000 Hz), 2 high
/// (4000..=20000 Hz), 3 none.
pub open spec fn band_of(freq: u32) -> int {
    if 20 <= freq < 250 {
        0
    } else if 250 <= freq < 4000 {
        1
    } else if 4000 <= freq <= 20000 {
        2
    } else {
        3
    }
}

/// Sum of the magnitudes of the bins in `band`.
pub open spec fn band_total(bins: Seq<SpectrumBin>, band: int) -> nat
    decreases bins.len(),
{
    if bins.len() == 0 {
        0
    } else {
        band_total(bins.drop_last(), band) + if band_of(bins.last().freq_hz) == band {
            bins.last().magnitude as nat
        } else {
            0nat
        }
    }
}

pub open spec fn max3(a: nat, b: nat, c: nat) -> nat {
    if a >= b && a >= c {
        a
    } else if b >= c {
        b
    } else {
        c
    }
}

/// The peak estimate after a block whose largest band total is `top`: a
/// louder block replaces it, else it decays by 1% down to the floor.
pub open spec fn next_peak(peak: nat, top: nat) -> nat {
    if top > peak {
        top
    } else if peak * 99 / 100 < PEAK_FLOOR {
        PEAK_FLOOR as nat
    } else {
        peak * 99 / 100
    }
}

/// The peak estimate after `n` blocks that each have largest band total
/// `top`.
pub open spec fn peak_after(peak: nat, top: nat, n: nat) -> nat
    decreases n,
{
    if n == 0 {
        peak
    } else {
        next_peak(peak_after(peak, top, (n - 1) as nat), top)
    }
}

/// A band total relative to the peak, as a level clamped to `LEVEL_MAX`.
pub open spec fn normalized(total: nat, peak: nat) -> nat {
    if total * (LEVEL_MAX as nat) / peak > LEVEL_MAX as nat {
        LEVEL_MAX as nat
    } else {
        total * (LEVEL_MAX as nat) / peak
    }
}

pub open spec fn square_sum(s: Seq<i16>) -> nat
    decreases s.len(),
{
    if s.len() == 0 {
        0
    } else {
        square_sum(s.drop_last()) + ((s.last() as int) * (s.last() as int)) as nat
    }
}

pub open spec fn mean_square(s: Seq<i16>) -> nat {
    if s.len() == 0 {
        0
    } else {
        square_sum(s) / s.len()
    }
}

/// `r` is the integer square root of `x`.
pub open spec fn is_root(x: nat, r: nat) -> bool {
    r * r <= x < (r + 1) * (r + 1)
}

/// Root mean square of a block, rounded down.
pub open spec fn rms(s: Seq<i16>) -> nat {
    choose|r: nat| is_root(mean_square(s), r)
}

/// Loudness of a block as a level.
pub open spec fn energy_level(s: Seq<i16>) -> nat {
    if rms(s) * (LEVEL_MAX as nat) / (FULL_SCALE as nat) > LEVEL_MAX as nat {
        LEVEL_MAX as nat
    } else {
        rms(s) * (LEVEL_MAX as nat) / (FULL_SCALE as nat)
    }
}

proof fn lemma_root_unique(x: nat, a: nat, b: nat)
    requires
        is_root(x, a),
        is_root(x, b),
    ensures
        a == b,
{
    if a < b {
        assert((a + 1) * (a + 1) <= b * b) by (nonlinear_arith)
            requires a + 1 <= b;
    } else if b < a {
        assert((b + 1) * (b + 1) <= a * a) by (nonlinear_arith)
            requires b + 1 <= a;
    }
}

/// Integer square root of `x`.
fn integer_sqrt(x: u64) -> (r: u64)
    requires
        x < 0x1_0000_0000,
    ensures
        is_root(x as nat, r as nat),
{
    let mut lo: u64 = 0;
    let mut hi: u64 = 0x1_0000;
    while hi - lo > 1
        invariant
            lo < hi <= 0x1_0000,
            lo * lo <= x,
            x < hi * hi,
        decreases hi - lo,
    {
        let mid = lo + (hi - lo) / 2;
        assert(mid * mid <= 0x1_0000 * 0x1_0000) by (nonlinear_arith)
            requires mid <= 0x1_0000;
        if mid * mid <= x {
            lo = mid;
        } else {
            hi = mid;
        }
    }
    assert(hi == lo + 1);
    lo
}

/// Loudness of `samples` as a level.
pub fn loudness(samples: &[i16]) -> (r: u16)
    ensures
        r as nat == energy_level(samples@),
        r <= LEVEL_MAX,
{
    let n = samples.len();
    let mut sum: u128 = 0;
    let mut i: usize = 0;
    while i < n
        invariant
            n == samples@.len(),
            i <= n,
            sum == square_sum(samples@.subrange(0, i as int)),
            sum <= (i as nat) * 0x4000_0000,
        decreases n - i,
    {
        let v = samples[i] as i32;
        assert(0 <= v * v <= 0x4000_0000) by (nonlinear_arith)
            requires -32768 <= v <= 32767;
        let sq: u128 = (v * v) as u128;
        assert(samples@.subrange(0, i + 1).drop_last() =~= samples@.subrange(0, i as int));
        sum = sum + sq;
        i = i + 1;
    }
    assert(samples@.subrange(0, n as int) =~= samples@);
    let mean: u64 = if n == 0 {
        0
    } else {
        assert(sum / (n as u128) <= 0x4000_0000) by (nonlinear_arith)
            requires sum <= (n as nat) * 0x4000_0000, n > 0;
        (sum / (n as u128)) as u64
    };
    let root = integer_sqrt(mean);
    proof {
        lemma_root_unique(mean_square(samples@), root as nat, rms(samples@));
    }
    assert(root <= 0x8000) by (nonlinear_arith)
        requires root * root <= 0x4000_0000;
    assert(root * 10000 <= 0x8000 * 10000) by (nonlinear_arith)
        requires root <= 0x8000;
    let level: u64 = root * (LEVEL_MAX as u64) / (FULL_SCALE as u64);
    if level > LEVEL_MAX as u64 {
        LEVEL_MAX
    } else {
        level as u16
    }
}

/// Totals of the bass, mid and high bands of `bins`.
pub fn band_totals(bins: &[SpectrumBin]) -> (r: (u128, u128, u128))
    ensures
        r.0 as nat == band_total(bins@, 0),
        r.1 as nat == band_total(bins@, 1),
        r.2 as nat == band_total(bins@, 2),
        r.0 < 0x1_0000_0000_0000_0000_0000_0000,
        r.1 < 0x1_0000_0000_0000_0000_0000_0000,
        r.2 < 0x1_0000_0000_0000_0000_0000_0000,
{
    let n = bins.len();
    let mut bass: u128 = 0;
    let mut mids: u128 = 0;
    let mut highs: u128 = 0;
    let mut i: usize = 0;
    while i < n
        invariant
            n == bins@.len(),
            i <= n,
            bass as nat == band_total(bins@.subrange(0, i as int), 0),
            mids as nat == band_total(bins@.subrange(0, i as int), 1),
            highs as nat == band_total(bins@.subrange(0, i as int), 2),
            bass <= (i as nat) * 0xFFFF_FFFF,
            mids <= (i as nat) * 0xFFFF_FFFF,
            highs <= (i as nat) * 0xFFFF_FFFF,
        decreases n - i,
    {
        let bin = bins[i];
        assert(bins@.subrange(0, i + 1).drop_last() =~= bins@.subrange(0, i as int));
        let f = bin.freq_hz;
        let m = bin.magnitude as u128;
        if 20 <= f && f < 250 {
            bass = bass + m;
        } else if 250 <= f && f < 4000 {
            mids = mids + m;
        } else if 4000 <= f && f <= 20000 {
            highs = highs + m;
        }
        i = i + 1;
    }
    assert(bins@.subrange(0, n as int) =~= bins@);
    assert((n as nat) * 0xFFFF_FFFF < 0x1_0000_0000_0000_0000_0000_0000) by (nonlinear_arith)
        requires n <= usize::MAX;
    (bass, mids, highs)
}

fn level_of(total: u128, peak: u128) -> (r: u16)
    requires
        total < 0x1_0000_0000_0000_0000_0000_0000,
        peak > 0,
    ensures
        r as nat == normalized(total as nat, peak as nat),
        r <= LEVEL_MAX,
{
    let q = total * (LEVEL_MAX as u128) / peak;
    if q > LEVEL_MAX as u128 {
        LEVEL_MAX
    } else {
        q as u16
    }
}

/// Band analysis with a rolling peak estimate for gain control.
pub struct FftAnalyzer {
    pub fft_size: usize,
    pub sampling_rate: u32,
    pub max_val: u128,
}

impl FftAnalyzer {
    /// The peak estimate stays between the floor and its bound.
    pub open spec fn wf(&self) -> bool {
        PEAK_FLOOR as nat <= self.peak() < PEAK_LIMIT as nat
    }

    /// The current peak estimate, in millionths.
    pub open spec fn peak(&self) -> nat {
        self.max_val as nat
    }

    pub fn new(fft_size: usize) -> (r: FftAnalyzer)
        ensures
            r.wf(),
            r.fft_size == fft_size,
            r.sampling_rate == DEFAULT_SAMPLING_RATE,
            r.peak() == PEAK_INITIAL,
    {
        FftAnalyzer { fft_size, sampling_rate: DEFAULT_SAMPLING_RATE, max_val: PEAK_INITIAL }
    }

    pub fn set_sampling_rate(&mut self, rate: u32)
        ensures
            final(self).sampling_rate == rate,
            final(self).fft_size == old(self).fft_size,
            final(self).peak() == old(self).peak(),
            final(self).wf() == old(self).wf(),
    {
        self.sampling_rate = rate;
    }

    /// The current peak estimate, in millionths.
    pub fn peak_estimate(&self) -> (r: u128)
        ensures
            r as nat == self.peak(),
    {
        self.max_val
    }

    /// The transform input: `samples` cut or padded with zeros to
    /// `fft_size`.
    pub fn fft_input(&self, samples: &[i16]) -> (r: Vec<i16>)
        ensures
            r@.len() == self.fft_size,
            forall|i: int|
                0 <= i < self.fft_size ==> #[trigger] r@[i] == if i < samples@.len() {
                    samples@[i]
                } else {
                    0i16
                },
    {
        let mut out: Vec<i16> = Vec::new();
        let mut i: usize = 0;
        while i < self.fft_size
            invariant
                i <= self.fft_size,
                out@.len() == i,
                forall|j: int|
                    0 <= j < i ==> #[trigger] out@[j] == if j < samples@.len() {
                        samples@[j]
                    } else {
                        0i16
                    },
            decreases self.fft_size - i,
        {
            if i < samples.len() {
                out.push(samples[i]);
            } else {
                out.push(0);
            }
            i = i + 1;
        }
        out
    }

    /// Turns one block into a snapshot. `spectrum` holds the bins of the
    /// block's transform, or is none where the transform failed: then the
    /// bands are zero, the loudness is still reported and the peak estimate
    /// is kept.
    pub fn process(&mut self, samples: &[i16], spectrum: Option<&[SpectrumBin]>) -> (r: AudioSpectrum)
        requires
            old(self).wf(),
        ensures
            final(self).wf(),
            final(self).fft_size == old(self).fft_size,
            final(self).sampling_rate == old(self).sampling_rate,
            r.wf(),
            r.energy as nat == energy_level(samples@),
            match spectrum {
                None => {
                    &&& r.bass == 0 && r.mids == 0 && r.highs == 0
                    &&& final(self).peak() == old(self).peak()
                },
                Some(bins) => {
                    let b = band_total(bins@, 0);
                    let m = band_total(bins@, 1);
                    let h = band_total(bins@, 2);
                    let p = next_peak(old(self).peak(), max3(b, m, h));
                    &&& final(self).peak() == p
                    &&& r.bass as nat == normalized(b, p)
                    &&& r.mids as nat == normalized(m, p)
                    &&& r.highs as nat == normalized(h, p)
                },
            },
    {
        let energy = loudness(samples);
        match spectrum {
            None => AudioSpectrum { bass: 0, mids: 0, highs: 0, energy },
            Some(bins) => {
                let (bass, mids, highs) = band_totals(bins);
                let top = if bass >= mids && bass >= highs {
                    bass
                } else if mids >= highs {
                    mids
                } else {
                    highs
                };
                if top > self.max_val {
                    self.max_val = top;
                } else {
                    let decayed = self.max_val * 99 / 100;
                    self.max_val = if decayed < PEAK_FLOOR { PEAK_FLOOR } else { decayed };
                }
                AudioSpectrum {
                    bass: level_of(bass, self.max_val),
                    mids: level_of(mids, self.max_val),
                    highs: level_of(highs, self.max_val),
                    energy,
                }
            },
        }
    }
}

proof fn lemma_decay_step(p: nat)
    requires
        p >= PEAK_FLOOR,
    ensures
        p * 99 / 100 + 10 <= p,
{
    assert(p * 99 / 100 + 10 <= p) by (nonlinear_arith)
        requires p >= 1000;
}

proof fn lemma_peak_under_constant_input(peak: nat, top: nat, n: nat)
    requires
        PEAK_FLOOR <= peak,
        PEAK_FLOOR <= top,
    ensures
        PEAK_FLOOR <= peak_after(peak, top, n),
        peak_after(peak, top, n) <= top || peak_after(peak, top, n) + n <= peak,
    decreases n,
{
    if n > 0 {
        lemma_peak_under_constant_input(peak, top, (n - 1) as nat);
        let p = peak_after(peak, top, (n - 1) as nat);
        lemma_decay_step(p);
    }
}

/// Gain control converges: fed blocks whose largest band total is the same
/// `top` (at least the floor), from any peak estimate `peak`, every call
/// from call `max(1, peak - top)` on reports that band at the full level.
pub proof fn lemma_agc_converges(peak: nat, top: nat, n: nat)
    requires
        PEAK_FLOOR <= peak,
        PEAK_FLOOR <= top,
        n >= 1,
        n + top >= peak,
    ensures
        peak_after(peak, top, n) <= top,
        normalized(top, peak_after(peak, top, n)) == LEVEL_MAX,
{
    lemma_peak_under_constant_input(peak, top, n);
    let p = peak_after(peak, top, n);
    assert(top * 10000 / p >= 10000) by (nonlinear_arith)
        requires p <= top, p >= 1000;
}

proof fn lemma_peak_under_silence(peak: nat, n: nat)
    requires
        PEAK_FLOOR <= peak,
    ensures
        PEAK_FLOOR <= peak_after(peak, 0, n),
        peak_after(peak, 0, n) == PEAK_FLOOR || peak_after(peak, 0, n) + n <= peak,
    decreases n,
{
    if n > 0 {
        lemma_peak_under_silence(peak, (n - 1) as nat);
        let p = peak_after(peak, 0, (n - 1) as nat);
        lemma_decay_step(p);
    }
}

/// Under silence the bands read zero, and the peak estimate never rises,
/// falls with every block while above the floor, and rests at the floor
/// from block `peak - PEAK_FLOOR` on.
pub proof fn lemma_agc_silence(peak: nat, n: nat)
    requires
        PEAK_FLOOR <= peak,
    ensures
        normalized(0, peak_after(peak, 0, n)) == 0,
        PEAK_FLOOR <= peak_after(peak, 0, n + 1) <= peak_after(peak, 0, n),
        peak_after(peak, 0, n) > PEAK_FLOOR ==> peak_after(peak, 0, n + 1) < peak_after(peak, 0, n),
        n + PEAK_FLOOR >= peak ==> peak_after(peak, 0, n) == PEAK_FLOOR,
{
    lemma_peak_under_silence(peak, n);
    lemma_peak_under_silence(peak, n + 1);
    let p = peak_after(peak, 0, n);
    lemma_decay_step(p);
    assert(peak_after(peak, 0, n + 1) == next_peak(p, 0));
}

} // verus!
