use crate::audio::{copy_samples, spec_time_as_samples, Sound};
use crate::numeric::{
    arithmetic_is_total, is_less, is_product, is_quotient, is_sum, Scalar,
};
use vstd::prelude::*;

verus! {

/// One bin of a spectrum: the frequency it stands for and its complex coefficient.
#[derive(Clone, Copy, Debug)]
pub struct FftBin<T> {
    pub freq: T,
    pub re: T,
    pub im: T,
}

impl<T: Scalar> FftBin<T> {
    /// The bin at frequency zero with coefficient zero.
    pub fn empty(zero: T) -> (bin: Self)
        ensures
            bin.freq == zero,
            bin.re == zero,
            bin.im == zero,
    {
        FftBin { freq: zero, re: zero, im: zero }
    }
}

/// The transform lengths for which plans are kept ready: one tick at 44.1 kHz and at 48 kHz.
pub open spec fn spec_is_planned_length(length: nat) -> bool {
    length == spec_time_as_samples(44100, 50) || length == spec_time_as_samples(48000, 50)
}

/// Whether a plan for this transform length is kept ready. For any other length a plan is
/// made for the one transform and not kept.
pub fn is_planned_length(length: usize) -> (planned: bool)
    ensures
        planned == spec_is_planned_length(length as nat),
{
    length == 2205 || length == 2400
}

/// The plan for one transform: one that is kept ready, by its place among the kept plans,
/// or one made for this transform alone.
pub enum Plan<P> {
    Cached(usize),
    Fresh(P),
}

/// Finds the plan for a transform of `length` values. The first kept plan of that length is
/// used; where none is kept, `make` makes one, which is used for this transform and not
/// kept: the kept plans are never changed.
pub fn plan_for<P, M: Fn(usize) -> P>(cached: &Vec<(usize, P)>, length: usize, make: &M) -> (plan: Plan<P>)
    requires
        forall|n: usize| make.requires((n,)),
    ensures
        match plan {
            Plan::Cached(k) => k < cached@.len() && cached@[k as int].0 == length && forall|q: int|
                0 <= q < k ==> (#[trigger] cached@[q]).0 != length,
            Plan::Fresh(made) => make.ensures((length,), made) && forall|q: int|
                0 <= q < cached@.len() ==> (#[trigger] cached@[q]).0 != length,
        },
{
    let mut k: usize = 0;
    while k < cached.len()
        invariant
            k <= cached@.len(),
            forall|q: int| 0 <= q < k ==> (#[trigger] cached@[q]).0 != length,
        decreases cached.len() - k,
    {
        if cached[k].0 == length {
            return Plan::Cached(k);
        }
        k += 1;
    }
    Plan::Fresh(make(length))
}

/// `freq` is a value of `count(index) · count(rate) / count(length)`, the frequency of bin
/// `index` of `length` bins at `rate` hertz.
pub open spec fn is_bin_frequency<T: Scalar, C: Fn(usize) -> T>(
    count: &C,
    index: usize,
    rate: usize,
    length: usize,
    freq: T,
) -> bool {
    exists|i: T, r: T, n: T, scaled: T|
        {
            &&& #[trigger] count.ensures((index,), i)
            &&& #[trigger] count.ensures((rate,), r)
            &&& #[trigger] count.ensures((length,), n)
            &&& #[trigger] is_product(i, r, scaled)
            &&& is_quotient(scaled, n, freq)
        }
}

/// The frequency of bin `index` of `length` bins at `rate` hertz.
pub fn bin_frequency<T: Scalar, C: Fn(usize) -> T>(count: &C, index: usize, rate: usize, length: usize) -> (freq: T)
    requires
        arithmetic_is_total::<T>(),
        forall|n: usize| count.requires((n,)),
    ensures
        is_bin_frequency(count, index, rate, length, freq),
{
    let i = count(index);
    let r = count(rate);
    let n = count(length);
    let scaled = i * r;
    let freq = scaled / n;
    assert(count.ensures((index,), i) && count.ensures((rate,), r) && count.ensures((length,), n) && is_product(
        i,
        r,
        scaled,
    ));
    freq
}

/// `m` is a value of the mel term `2595 · log10(1 + f / 700) / 24000`.
pub open spec fn is_mel_term<T: Scalar, C: Fn(usize) -> T, L: Fn(T) -> T>(count: &C, log10: &L, f: T, m: T) -> bool {
    exists|c2595: T, one: T, c700: T, c24000: T, ratio: T, shifted: T, log: T, scaled: T|
        {
            &&& #[trigger] count.ensures((2595usize,), c2595)
            &&& #[trigger] count.ensures((1usize,), one)
            &&& #[trigger] count.ensures((700usize,), c700)
            &&& #[trigger] count.ensures((24000usize,), c24000)
            &&& #[trigger] is_quotient(f, c700, ratio)
            &&& #[trigger] is_sum(one, ratio, shifted)
            &&& #[trigger] log10.ensures((shifted,), log)
            &&& #[trigger] is_product(c2595, log, scaled)
            &&& is_quotient(scaled, c24000, m)
        }
}

/// `h` is a value of the high-pass term `f / (f² + 100²) + 0.4`.
pub open spec fn is_high_pass_term<T: Scalar, C: Fn(usize) -> T>(count: &C, f: T, h: T) -> bool {
    exists|c100: T, c4: T, c10: T, lift: T, square: T, floor: T, below: T, share: T|
        {
            &&& #[trigger] count.ensures((100usize,), c100)
            &&& #[trigger] count.ensures((4usize,), c4)
            &&& #[trigger] count.ensures((10usize,), c10)
            &&& #[trigger] is_quotient(c4, c10, lift)
            &&& #[trigger] is_product(f, f, square)
            &&& #[trigger] is_product(c100, c100, floor)
            &&& #[trigger] is_sum(square, floor, below)
            &&& #[trigger] is_quotient(f, below, share)
            &&& is_sum(share, lift, h)
        }
}

/// `w` is a value of the weight of frequency `f`: twice the mel term, times the high-pass
/// term where that one tests less than 1, and times 1 otherwise.
pub open spec fn is_mel_weight<T: Scalar, C: Fn(usize) -> T, L: Fn(T) -> T>(count: &C, log10: &L, f: T, w: T) -> bool {
    exists|m: T, h: T, one: T, two: T, doubled: T, under: bool|
        {
            &&& #[trigger] is_mel_term(count, log10, f, m)
            &&& #[trigger] is_high_pass_term(count, f, h)
            &&& #[trigger] count.ensures((1usize,), one)
            &&& #[trigger] count.ensures((2usize,), two)
            &&& #[trigger] is_product(m, two, doubled)
            &&& #[trigger] is_less(h, one, under)
            &&& is_product(doubled, if under {
                h
            } else {
                one
            }, w)
        }
}

/// The weight that the frontend gives to frequency `f`: it lifts the middle of the spectrum
/// and holds the bass down.
pub fn mel_weight<T: Scalar, C: Fn(usize) -> T, L: Fn(T) -> T>(count: &C, log10: &L, f: T) -> (w: T)
    requires
        arithmetic_is_total::<T>(),
        forall|n: usize| count.requires((n,)),
        forall|x: T| log10.requires((x,)),
    ensures
        is_mel_weight(count, log10, f, w),
{
    let c2595 = count(2595);
    let one = count(1);
    let c700 = count(700);
    let c24000 = count(24000);
    let ratio = f / c700;
    let shifted = one + ratio;
    let log = log10(shifted);
    let scaled = c2595 * log;
    let m = scaled / c24000;
    assert(count.ensures((2595usize,), c2595) && count.ensures((1usize,), one) && count.ensures((700usize,), c700)
        && count.ensures((24000usize,), c24000) && is_quotient(f, c700, ratio) && is_sum(one, ratio, shifted)
        && log10.ensures((shifted,), log) && is_product(c2595, log, scaled));
    assert(is_mel_term(count, log10, f, m));

    let c100 = count(100);
    let c4 = count(4);
    let c10 = count(10);
    let lift = c4 / c10;
    let square = f * f;
    let floor = c100 * c100;
    let below = square + floor;
    let share = f / below;
    let h = share + lift;
    assert(count.ensures((100usize,), c100) && count.ensures((4usize,), c4) && count.ensures((10usize,), c10)
        && is_quotient(c4, c10, lift) && is_product(f, f, square) && is_product(c100, c100, floor) && is_sum(
        square,
        floor,
        below,
    ) && is_quotient(f, below, share));
    assert(is_high_pass_term(count, f, h));

    let two = count(2);
    let doubled = m * two;
    let under = h < one;
    let capped = if under {
        h
    } else {
        one
    };
    let w = doubled * capped;
    assert(count.ensures((2usize,), two) && is_product(m, two, doubled) && is_less(h, one, under));
    w
}

/// `after` is `before` with the coefficient of every bin multiplied by the weight of the
/// bin's frequency, both parts alike; the frequencies stay.
pub open spec fn is_weighted_bin<T: Scalar, C: Fn(usize) -> T, L: Fn(T) -> T>(
    count: &C,
    log10: &L,
    before: FftBin<T>,
    after: FftBin<T>,
) -> bool {
    &&& after.freq == before.freq
    &&& exists|w: T| #[trigger]
        is_mel_weight(count, log10, before.freq, w) && is_product(before.re, w, after.re) && is_product(
            before.im,
            w,
            after.im,
        )
}

/// `after` is `before` weighted bin by bin.
pub open spec fn is_weighted_spectrum<T: Scalar, C: Fn(usize) -> T, L: Fn(T) -> T>(
    count: &C,
    log10: &L,
    before: Seq<FftBin<T>>,
    after: Seq<FftBin<T>>,
) -> bool {
    &&& after.len() == before.len()
    &&& forall|i: int| 0 <= i < before.len() ==> is_weighted_bin(count, log10, before[i], #[trigger] after[i])
}

/// Multiplies the coefficient of every bin by the weight of its frequency.
pub fn weigh_spectrum<T: Scalar, C: Fn(usize) -> T, L: Fn(T) -> T>(
    spectrum: &Vec<FftBin<T>>,
    count: &C,
    log10: &L,
) -> (weighted: Vec<FftBin<T>>)
    requires
        arithmetic_is_total::<T>(),
        forall|n: usize| count.requires((n,)),
        forall|x: T| log10.requires((x,)),
    ensures
        is_weighted_spectrum(count, log10, spectrum@, weighted@),
{
    let mut weighted: Vec<FftBin<T>> = Vec::with_capacity(spectrum.len());
    let mut i: usize = 0;
    while i < spectrum.len()
        invariant
            arithmetic_is_total::<T>(),
            forall|n: usize| count.requires((n,)),
            forall|x: T| log10.requires((x,)),
            i <= spectrum@.len(),
            weighted@.len() == i,
            forall|k: int| 0 <= k < i ==> is_weighted_bin(count, log10, spectrum@[k], #[trigger] weighted@[k]),
        decreases spectrum.len() - i,
    {
        let freq = spectrum[i].freq;
        let w = mel_weight(count, log10, freq);
        let re = spectrum[i].re * w;
        let im = spectrum[i].im * w;
        let bin = FftBin { freq, re, im };
        assert(is_mel_weight(count, log10, spectrum@[i as int].freq, w));
        assert(is_weighted_bin(count, log10, spectrum@[i as int], bin));
        weighted.push(bin);
        i += 1;
    }
    weighted
}

/// Whatever `transform` hands back is as long as what it was given.
pub open spec fn keeps_length<T, F: Fn(Vec<(T, T)>) -> Vec<(T, T)>>(transform: &F) -> bool {
    forall|buffer: Vec<(T, T)>, out: Vec<(T, T)>|
        transform.ensures((buffer,), out) ==> out@.len() == buffer@.len()
}

/// The windowed forward and inverse transforms of the frontend.
///
/// The three parts come from outside: `window` gives the window coefficients for a length,
/// `forward` and `inverse` transform a buffer of complex values, each a pair of its real and
/// its imaginary part.
pub struct Processor<W, F, G> {
    pub window: W,
    pub forward: F,
    pub inverse: G,
}

/// `windowed` is `samples` multiplied by `window`, sample by sample, as complex values
/// without an imaginary part.
pub open spec fn is_windowed<T: Scalar>(samples: Seq<T>, window: Seq<T>, zero: T, windowed: Seq<(T, T)>) -> bool {
    &&& windowed.len() == samples.len()
    &&& forall|i: int|
        0 <= i < samples.len() ==> is_product(samples[i], window[i], (#[trigger] windowed[i]).0) && windowed[i].1
            == zero
}

/// `bins` holds the coefficients of `buffer` in order, each with the frequency of its bin.
pub open spec fn is_binned<T: Scalar, C: Fn(usize) -> T>(
    count: &C,
    buffer: Seq<(T, T)>,
    rate: usize,
    bins: Seq<FftBin<T>>,
) -> bool {
    &&& bins.len() == buffer.len()
    &&& forall|i: int|
        0 <= i < buffer.len() ==> {
            &&& (#[trigger] bins[i]).re == buffer[i].0
            &&& bins[i].im == buffer[i].1
            &&& is_bin_frequency(count, i as usize, rate, buffer.len() as usize, bins[i].freq)
        }
}

/// The coefficients of `spectrum` in order, as pairs.
pub open spec fn coefficients<T>(spectrum: Seq<FftBin<T>>) -> Seq<(T, T)> {
    Seq::new(spectrum.len(), |i: int| (spectrum[i].re, spectrum[i].im))
}

/// The real parts of `buffer` in order.
pub open spec fn real_parts<T>(buffer: Seq<(T, T)>) -> Seq<T> {
    Seq::new(buffer.len(), |i: int| buffer[i].0)
}

impl<W, F, G> Processor<W, F, G> {
    /// A processor over the given window and transforms.
    pub fn new(window: W, forward: F, inverse: G) -> (processor: Self)
        ensures
            processor.window == window,
            processor.forward == forward,
            processor.inverse == inverse,
    {
        Processor { window, forward, inverse }
    }

    /// `bins` is a value of the spectrum of `sound`: the samples windowed, transformed
    /// forward, and each coefficient given the frequency of its bin.
    pub open spec fn is_spectrum<T: Scalar, C: Fn(usize) -> T>(
        &self,
        sound: Sound<T>,
        zero: T,
        count: &C,
        bins: Seq<FftBin<T>>,
    ) -> bool where W: Fn(usize) -> Vec<T>, F: Fn(Vec<(T, T)>) -> Vec<(T, T)> {
        exists|window: Vec<T>, buffer: Vec<(T, T)>, out: Vec<(T, T)>|
            {
                &&& #[trigger] self.window.ensures((sound.samples.len(),), window)
                &&& #[trigger] is_windowed(sound.samples@, window@, zero, buffer@)
                &&& #[trigger] self.forward.ensures((buffer,), out)
                &&& is_binned(count, out@, sound.sample_rate, bins)
            }
    }

    /// `samples` is a value of the signal of `spectrum`: the real parts of its coefficients
    /// transformed back.
    pub open spec fn is_signal<T: Scalar>(&self, spectrum: Seq<FftBin<T>>, samples: Seq<T>) -> bool where
        G: Fn(Vec<(T, T)>) -> Vec<(T, T)>,
     {
        exists|buffer: Vec<(T, T)>, out: Vec<(T, T)>|
            {
                &&& buffer@ == coefficients(spectrum)
                &&& #[trigger] self.inverse.ensures((buffer,), out)
                &&& samples == real_parts(out@)
            }
    }

    /// The spectrum of `sound` under a window of its length: as many bins as values come
    /// out of the transform, bin `i` of `N` at frequency `i · rate / N`.
    pub fn fft<T: Scalar, C: Fn(usize) -> T>(&self, sound: Sound<T>, zero: T, count: &C) -> (bins: Vec<FftBin<T>>) where
        W: Fn(usize) -> Vec<T>,
        F: Fn(Vec<(T, T)>) -> Vec<(T, T)>,

        requires
            arithmetic_is_total::<T>(),
            forall|n: usize| count.requires((n,)),
            forall|n: usize| self.window.requires((n,)),
            forall|n: usize, w: Vec<T>| self.window.ensures((n,), w) ==> w@.len() == n,
            forall|buffer: Vec<(T, T)>| self.forward.requires((buffer,)),
        ensures
            self.is_spectrum(sound, zero, count, bins@),
            keeps_length(&self.forward) ==> bins@.len() == sound.samples@.len(),
    {
        let length = sound.samples.len();
        let window = (self.window)(length);
        let mut buffer: Vec<(T, T)> = Vec::with_capacity(length);
        let mut i: usize = 0;
        while i < length
            invariant
                arithmetic_is_total::<T>(),
                length == sound.samples@.len(),
                window@.len() == length,
                i <= length,
                buffer@.len() == i,
                forall|k: int|
                    0 <= k < i ==> is_product(sound.samples@[k], window@[k], (#[trigger] buffer@[k]).0)
                        && buffer@[k].1 == zero,
            decreases length - i,
        {
            let sample = sound.samples[i] * window[i];
            buffer.push((sample, zero));
            i += 1;
        }
        let ghost windowed = buffer;
        let out = (self.forward)(buffer);
        let total = out.len();
        let mut bins: Vec<FftBin<T>> = Vec::with_capacity(total);
        let mut j: usize = 0;
        while j < total
            invariant
                arithmetic_is_total::<T>(),
                forall|n: usize| count.requires((n,)),
                total == out@.len(),
                j <= total,
                bins@.len() == j,
                forall|k: int|
                    0 <= k < j ==> {
                        &&& (#[trigger] bins@[k]).re == out@[k].0
                        &&& bins@[k].im == out@[k].1
                        &&& is_bin_frequency(count, k as usize, sound.sample_rate, total, bins@[k].freq)
                    },
            decreases total - j,
        {
            let freq = bin_frequency(count, j, sound.sample_rate, total);
            bins.push(FftBin { freq, re: out[j].0, im: out[j].1 });
            j += 1;
        }
        proof {
            assert(self.window.ensures((sound.samples.len(),), window));
            assert(is_windowed(sound.samples@, window@, zero, windowed@));
            assert(self.forward.ensures((windowed,), out));
        }
        bins
    }

    /// The signal of `spectrum`: the inverse transform of its coefficients, real parts only.
    /// Nothing is rescaled.
    pub fn ifft<T: Scalar>(&self, spectrum: Vec<FftBin<T>>) -> (samples: Vec<T>) where
        G: Fn(Vec<(T, T)>) -> Vec<(T, T)>,

        requires
            forall|buffer: Vec<(T, T)>| self.inverse.requires((buffer,)),
        ensures
            self.is_signal(spectrum@, samples@),
            keeps_length(&self.inverse) ==> samples@.len() == spectrum@.len(),
    {
        let mut buffer: Vec<(T, T)> = Vec::with_capacity(spectrum.len());
        let mut i: usize = 0;
        while i < spectrum.len()
            invariant
                i <= spectrum@.len(),
                buffer@.len() == i,
                forall|k: int| 0 <= k < i ==> #[trigger] buffer@[k] == (spectrum@[k].re, spectrum@[k].im),
            decreases spectrum.len() - i,
        {
            buffer.push((spectrum[i].re, spectrum[i].im));
            i += 1;
        }
        let ghost handed = buffer;
        assert(handed@ =~= coefficients(spectrum@));
        let out = (self.inverse)(buffer);
        let mut samples: Vec<T> = Vec::with_capacity(out.len());
        let mut j: usize = 0;
        while j < out.len()
            invariant
                j <= out@.len(),
                samples@.len() == j,
                forall|k: int| 0 <= k < j ==> #[trigger] samples@[k] == out@[k].0,
            decreases out.len() - j,
        {
            samples.push(out[j].0);
            j += 1;
        }
        proof {
            assert(samples@ =~= real_parts(out@));
            assert(self.inverse.ensures((handed,), out));
        }
        samples
    }
}

impl<T: Scalar> Sound<T> {
    /// `after` is a value of the samples of `before` once through the frontend: its
    /// spectrum, weighted bin by bin, turned back into a signal.
    pub open spec fn is_mel<W, F, G, C, L>(
        processor: &Processor<W, F, G>,
        zero: T,
        count: &C,
        log10: &L,
        before: Sound<T>,
        after: Seq<T>,
    ) -> bool where
        W: Fn(usize) -> Vec<T>,
        F: Fn(Vec<(T, T)>) -> Vec<(T, T)>,
        G: Fn(Vec<(T, T)>) -> Vec<(T, T)>,
        C: Fn(usize) -> T,
        L: Fn(T) -> T,
     {
        exists|input: Sound<T>, spectrum: Seq<FftBin<T>>, weighted: Seq<FftBin<T>>|
            {
                &&& input.samples@ == before.samples@
                &&& input.sample_rate == before.sample_rate
                &&& #[trigger] processor.is_spectrum(input, zero, count, spectrum)
                &&& #[trigger] is_weighted_spectrum(count, log10, spectrum, weighted)
                &&& processor.is_signal(weighted, after)
            }
    }

    /// Shapes the sound for comparison: forward transform, weighting of every bin by its
    /// frequency (the coefficient itself, not its magnitude), inverse transform. The sample
    /// rate stays.
    pub fn mel<W, F, G, C, L>(&mut self, processor: &Processor<W, F, G>, zero: T, count: &C, log10: &L) -> (out:
        &mut Self) where
        W: Fn(usize) -> Vec<T>,
        F: Fn(Vec<(T, T)>) -> Vec<(T, T)>,
        G: Fn(Vec<(T, T)>) -> Vec<(T, T)>,
        C: Fn(usize) -> T,
        L: Fn(T) -> T,

        requires
            arithmetic_is_total::<T>(),
            forall|n: usize| count.requires((n,)),
            forall|x: T| log10.requires((x,)),
            forall|n: usize| processor.window.requires((n,)),
            forall|n: usize, w: Vec<T>| processor.window.ensures((n,), w) ==> w@.len() == n,
            forall|buffer: Vec<(T, T)>| processor.forward.requires((buffer,)),
            forall|buffer: Vec<(T, T)>| processor.inverse.requires((buffer,)),
        ensures
            *final(self) == *final(out),
            out.sample_rate == old(self).sample_rate,
            Self::is_mel(processor, zero, count, log10, *old(self), out.samples@),
            keeps_length(&processor.forward) && keeps_length(&processor.inverse) ==> out.samples@.len() == old(
                self,
            ).samples@.len(),
    {
        let input = Sound { samples: copy_samples(&self.samples), sample_rate: self.sample_rate };
        let spectrum = processor.fft(input, zero, count);
        let weighted = weigh_spectrum(&spectrum, count, log10);
        let ghost bins = weighted@;
        let samples = processor.ifft(weighted);
        proof {
            assert(processor.is_spectrum(input, zero, count, spectrum@) && is_weighted_spectrum(
                count,
                log10,
                spectrum@,
                bins,
            ));
        }
        self.samples = samples;
        self
    }
}

} // verus!
