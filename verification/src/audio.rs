use crate::numeric::{arithmetic_is_total, is_lerp, is_product, is_quotient, lerp, Scalar};
pub use crate::spectrum::{FftBin, Processor};
use vstd::prelude::*;

verus! {

/// Number of whole samples that `time` milliseconds last at `sample_rate` hertz.
pub open spec fn spec_time_as_samples(sample_rate: nat, time: nat) -> nat {
    (sample_rate * time) / 1000
}

/// Number of whole samples that `time` milliseconds last at `sample_rate` hertz.
pub fn time_as_samples(sample_rate: usize, time: usize) -> (n: usize)
    requires
        sample_rate * time <= usize::MAX,
    ensures
        n == spec_time_as_samples(sample_rate as nat, time as nat),
{
    (sample_rate * time) / 1000
}

/// Length of one tick (50 ms) in samples, rounded up.
pub open spec fn spec_samples_per_tick(sample_rate: nat) -> nat {
    ((sample_rate * 50 + 999) / 1000) as nat
}

/// Length of one tick (50 ms) in samples, rounded up.
pub fn samples_per_tick(sample_rate: usize) -> (n: usize)
    ensures
        n == spec_samples_per_tick(sample_rate as nat),
{
    let whole: usize = sample_rate / 20;
    if sample_rate % 20 == 0 {
        whole
    } else {
        whole + 1
    }
}

/// At a sample rate that is a multiple of 20 Hz a tick is a whole number of samples:
/// rounded up or down, it is the same length, so palette entries and input chunks are
/// equally long.
pub proof fn lemma_tick_lengths_agree(sample_rate: nat)
    requires
        sample_rate % 20 == 0,
    ensures
        spec_samples_per_tick(sample_rate) == spec_time_as_samples(sample_rate, 50),
{
}

/// A playback-speed factor as an exact ratio `num / den`.
#[derive(Clone, Copy, Debug, PartialEq, Eq, Structural)]
pub struct Pitch {
    pub num: usize,
    pub den: usize,
}

impl Pitch {
    /// Both terms of the ratio are positive.
    pub open spec fn well_formed(self) -> bool {
        self.num > 0 && self.den > 0
    }
}

/// Where output sample `i` falls in the source when every step forward covers `num / den`
/// source samples: the source index at or before it.
pub open spec fn tap_index(i: int, num: int, den: int) -> int {
    (i * num) / den
}

/// How far past `tap_index` output sample `i` falls, in units of `1 / den`.
pub open spec fn tap_offset(i: int, num: int, den: int) -> int {
    (i * num) % den
}

/// Length of a sound of `len` samples once played `pitch` times as fast.
pub open spec fn spec_pitched_len(len: nat, pitch: Pitch) -> nat {
    ((len * pitch.den) as int / pitch.num as int) as nat
}

/// The source index after the position of output sample `i`, kept inside the source.
pub open spec fn pitch_upper_index(len: nat, pitch: Pitch, i: int) -> int {
    let lower = tap_index(i, pitch.num as int, pitch.den as int);
    if tap_offset(i, pitch.num as int, pitch.den as int) == 0 || lower + 1 >= len {
        lower
    } else {
        lower + 1
    }
}

/// `t` is a value of `count(part) / count(whole)`.
pub open spec fn is_fraction<T: Scalar, C: Fn(usize) -> T>(count: &C, part: usize, whole: usize, t: T) -> bool {
    exists|above: T, below: T|
        {
            &&& #[trigger] count.ensures((part,), above)
            &&& #[trigger] count.ensures((whole,), below)
            &&& is_quotient(above, below, t)
        }
}

/// `t` is a value of `count(part) / count(whole)`, and `out` one of the interpolation
/// between `start` and `end` at `t`.
pub open spec fn is_blend<T: Scalar, C: Fn(usize) -> T>(
    count: &C,
    start: T,
    end: T,
    part: usize,
    whole: usize,
    one: T,
    out: T,
) -> bool {
    exists|t: T| #[trigger] is_fraction(count, part, whole, t) && is_lerp(start, end, t, one, out)
}

/// `out` is a value of sample `i` of `src` played `pitch` times as fast: the source sample
/// itself where the position falls on one (or past the last one), the interpolation between
/// its two neighbours otherwise.
pub open spec fn is_pitched_sample<T: Scalar, C: Fn(usize) -> T>(
    src: Seq<T>,
    pitch: Pitch,
    one: T,
    count: &C,
    i: int,
    out: T,
) -> bool {
    let lower = tap_index(i, pitch.num as int, pitch.den as int);
    let upper = pitch_upper_index(src.len(), pitch, i);
    if lower == upper {
        out == src[lower]
    } else {
        is_blend(
            count,
            src[lower],
            src[upper],
            tap_offset(i, pitch.num as int, pitch.den as int) as usize,
            pitch.den,
            one,
            out,
        )
    }
}

/// `dst` is a value of `src` played `pitch` times as fast.
pub open spec fn is_pitch_shift<T: Scalar, C: Fn(usize) -> T>(
    src: Seq<T>,
    pitch: Pitch,
    one: T,
    count: &C,
    dst: Seq<T>,
) -> bool {
    &&& dst.len() == spec_pitched_len(src.len(), pitch)
    &&& forall|i: int| 0 <= i < dst.len() ==> is_pitched_sample(src, pitch, one, count, i, #[trigger] dst[i])
}

/// Length of a sound of `len` samples at `rate` hertz once resampled to `new_rate` hertz.
pub open spec fn spec_resampled_len(len: nat, rate: nat, new_rate: nat) -> nat {
    ((len * new_rate) as int / rate as int) as nat
}

/// The number of steps between the first and the last of `len` samples, and 1 where there
/// is no step.
pub open spec fn spec_span(len: nat) -> int {
    if len >= 2 {
        len - 1
    } else {
        1
    }
}

/// `out` is a value of sample `i` of `src` stretched from `src.len()` to `out_len` samples:
/// the interpolation between the source sample at or before position
/// `i·(src.len() − 1)/(out_len − 1)` and the one after it (the same one at the end).
pub open spec fn is_resampled_sample<T: Scalar, C: Fn(usize) -> T>(
    src: Seq<T>,
    out_len: nat,
    one: T,
    count: &C,
    i: int,
    out: T,
) -> bool {
    let lower = tap_index(i, src.len() - 1, spec_span(out_len));
    let upper = if lower + 1 < src.len() {
        lower + 1
    } else {
        lower
    };
    is_blend(
        count,
        src[lower],
        src[upper],
        tap_offset(i, src.len() - 1, spec_span(out_len)) as usize,
        spec_span(out_len) as usize,
        one,
        out,
    )
}

/// `dst` is a value of `src` resampled from `rate` to `new_rate` hertz: nothing where the
/// source or the result would be empty, the source itself where the length stays, and the
/// linear interpolation otherwise.
pub open spec fn is_resampled<T: Scalar, C: Fn(usize) -> T>(
    src: Seq<T>,
    rate: nat,
    new_rate: nat,
    one: T,
    count: &C,
    dst: Seq<T>,
) -> bool {
    let out_len = spec_resampled_len(src.len(), rate, new_rate);
    if src.len() == 0 || out_len == 0 {
        dst.len() == 0
    } else if out_len == src.len() {
        dst == src
    } else {
        &&& dst.len() == out_len
        &&& forall|i: int| 0 <= i < out_len ==> is_resampled_sample(src, out_len, one, count, i, #[trigger] dst[i])
    }
}

/// The first tick of `samples`: cut to one tick, or padded with `silence` up to one tick.
pub open spec fn spec_first_tick<T>(samples: Seq<T>, sample_rate: nat, silence: T) -> Seq<T> {
    let n = spec_samples_per_tick(sample_rate);
    if samples.len() >= n {
        samples.take(n as int)
    } else {
        samples + Seq::new((n - samples.len()) as nat, |i: int| silence)
    }
}

/// `after` is `before` with every sample multiplied by `volume`.
pub open spec fn is_scaled<T: Scalar>(before: Seq<T>, volume: T, after: Seq<T>) -> bool {
    &&& after.len() == before.len()
    &&& forall|i: int| 0 <= i < before.len() ==> is_product(before[i], volume, #[trigger] after[i])
}

/// Position `i` of `len·den/num` output samples falls inside a source of `len` samples.
pub proof fn lemma_tap_in_source(i: int, len: int, num: int, den: int)
    requires
        0 < num,
        0 < den,
        0 <= len,
        0 <= i < (len * den) / num,
    ensures
        0 <= tap_index(i, num, den) < len,
        0 <= tap_offset(i, num, den) < den,
        0 <= i * num < len * den,
{
    let total = len * den;
    assert(0 <= total) by (nonlinear_arith)
        requires
            0 <= len,
            0 < den,
            total == len * den,
    ;
    assert((total / num) * num <= total) by (nonlinear_arith)
        requires
            0 < num,
            0 <= total,
    ;
    assert((i + 1) * num <= (total / num) * num) by (nonlinear_arith)
        requires
            i + 1 <= total / num,
            0 < num,
    ;
    assert((i + 1) * num == i * num + num) by (nonlinear_arith);
    assert(0 <= i * num) by (nonlinear_arith)
        requires
            0 <= i,
            0 < num,
    ;
    let p = i * num;
    assert(p < len * den);
    assert(0 <= p / den < len) by (nonlinear_arith)
        requires
            0 <= p < len * den,
            0 < den,
    ;
}

/// Position `i` of `out_len` output samples falls inside a source of `len` samples, and the
/// last position falls on the last source sample.
pub proof fn lemma_resample_tap_in_source(i: int, len: int, out_len: int)
    requires
        0 < len,
        0 <= i < out_len,
    ensures
        0 <= tap_index(i, len - 1, spec_span(out_len as nat)) < len,
        0 <= tap_offset(i, len - 1, spec_span(out_len as nat)) < spec_span(out_len as nat),
        0 <= i * (len - 1),
        out_len >= 2 && i == out_len - 1 ==> tap_index(i, len - 1, spec_span(out_len as nat)) == len - 1
            && tap_offset(i, len - 1, spec_span(out_len as nat)) == 0,
{
    let span = spec_span(out_len as nat);
    let p = i * (len - 1);
    if out_len >= 2 && i == out_len - 1 {
        assert((span * (len - 1)) / span == len - 1 && (span * (len - 1)) % span == 0) by (nonlinear_arith)
            requires
                0 < span,
                0 <= len - 1,
        ;
    }
    assert(0 <= p) by (nonlinear_arith)
        requires
            0 <= i,
            0 <= len - 1,
            p == i * (len - 1),
    ;
    assert(p <= span * (len - 1)) by (nonlinear_arith)
        requires
            0 <= i <= span,
            0 <= len - 1,
            p == i * (len - 1),
    ;
    assert(0 <= p / span <= len - 1) by (nonlinear_arith)
        requires
            0 <= p <= span * (len - 1),
            0 < span,
    ;
}

/// Played half as fast, a sound lasts exactly twice as many samples.
pub proof fn lemma_half_pitch_doubles_length(len: nat, pitch: Pitch)
    requires
        pitch.well_formed(),
        pitch.den == 2 * pitch.num,
    ensures
        spec_pitched_len(len, pitch) == 2 * len,
{
    let num = pitch.num as int;
    assert((len * (2 * num)) / num == 2 * len) by (nonlinear_arith)
        requires
            0 < num,
            0 <= len,
    ;
}

/// At unit pitch every sample stays where it is.
pub proof fn lemma_unit_pitch_is_identity<T: Scalar, C: Fn(usize) -> T>(
    src: Seq<T>,
    pitch: Pitch,
    one: T,
    count: &C,
)
    requires
        pitch.well_formed(),
        pitch.num == pitch.den,
    ensures
        is_pitch_shift(src, pitch, one, count, src),
{
    let num = pitch.num as int;
    assert((src.len() * num) / num == src.len()) by (nonlinear_arith)
        requires
            0 < num,
            0 <= src.len(),
    ;
    assert forall|i: int| 0 <= i < src.len() implies is_pitched_sample(src, pitch, one, count, i, #[trigger] src[i]) by {
        assert((i * num) / num == i && (i * num) % num == 0) by (nonlinear_arith)
            requires
                0 < num,
                0 <= i,
        ;
    }
}

/// A mono sound: its samples and how many of them make one second.
#[derive(Clone, Debug)]
pub struct Sound<T> {
    pub samples: Vec<T>,
    pub sample_rate: usize,
}

impl<T: Copy> Sound<T> {
    /// Cuts the sound to exactly one tick, padding with `silence` where it is shorter.
    pub fn first_tick(&mut self, silence: T) -> (out: &mut Self)
        ensures
            *final(self) == *final(out),
            out.sample_rate == old(self).sample_rate,
            out.samples@ == spec_first_tick(old(self).samples@, old(self).sample_rate as nat, silence),
            out.samples@.len() == spec_samples_per_tick(old(self).sample_rate as nat),
    {
        let n = samples_per_tick(self.sample_rate);
        if self.samples.len() < n {
            while self.samples.len() < n
                invariant
                    self.sample_rate == old(self).sample_rate,
                    old(self).samples@.len() <= self.samples@.len() <= n,
                    forall|i: int| 0 <= i < old(self).samples@.len() ==> self.samples@[i] == old(self).samples@[i],
                    forall|i: int| old(self).samples@.len() <= i < self.samples@.len() ==> self.samples@[i] == silence,
                decreases n - self.samples.len(),
            {
                self.samples.push(silence);
            }
        } else {
            self.samples.truncate(n);
        }
        assert(self.samples@ =~= spec_first_tick(old(self).samples@, old(self).sample_rate as nat, silence));
        self
    }
}

impl<T: Scalar> Sound<T> {
    /// Changes the sample rate and keeps the duration, by linear interpolation.
    ///
    /// A sound without samples, or one too short to leave any, comes out empty at its old
    /// rate. Every other sound comes out at the new rate; where its length stays, its
    /// samples stay too.
    pub fn resample<C: Fn(usize) -> T>(&mut self, new_rate: usize, one: T, count: &C) -> (out: &mut Self)
        requires
            old(self).sample_rate > 0,
            spec_resampled_len(old(self).samples@.len(), old(self).sample_rate as nat, new_rate as nat)
                <= usize::MAX,
            arithmetic_is_total::<T>(),
            forall|n: usize| count.requires((n,)),
        ensures
            *final(self) == *final(out),
            is_resampled(
                old(self).samples@,
                old(self).sample_rate as nat,
                new_rate as nat,
                one,
                count,
                out.samples@,
            ),
            out.sample_rate == if out.samples@.len() > 0 {
                new_rate
            } else {
                old(self).sample_rate
            },
    {
        let input_len = self.samples.len();
        assert(input_len * new_rate <= usize::MAX * usize::MAX) by (nonlinear_arith)
            requires
                input_len <= usize::MAX,
                new_rate <= usize::MAX,
        ;
        let wide: u128 = (input_len as u128 * new_rate as u128) / (self.sample_rate as u128);
        let output_len: usize = wide as usize;
        if input_len == 0 || output_len == 0 {
            self.samples.truncate(0);
            return self;
        }
        if input_len == output_len {
            self.sample_rate = new_rate;
            return self;
        }
        let span: usize = if output_len >= 2 {
            output_len - 1
        } else {
            1
        };
        let last: usize = input_len - 1;
        let whole = count(span);
        let mut resampled: Vec<T> = Vec::with_capacity(output_len);
        let mut i: usize = 0;
        while i < output_len
            invariant
                arithmetic_is_total::<T>(),
                forall|n: usize| count.requires((n,)),
                input_len == self.samples@.len(),
                self.samples@ == old(self).samples@,
                input_len > 0,
                last == input_len - 1,
                span == spec_span(output_len as nat),
                count.ensures((span,), whole),
                i <= output_len,
                resampled@.len() == i,
                forall|k: int|
                    0 <= k < i ==> is_resampled_sample(
                        self.samples@,
                        output_len as nat,
                        one,
                        count,
                        k,
                        #[trigger] resampled@[k],
                    ),
            decreases output_len - i,
        {
            proof {
                lemma_resample_tap_in_source(i as int, input_len as int, output_len as int);
                assert(i * last <= usize::MAX * usize::MAX) by (nonlinear_arith)
                    requires
                        i <= usize::MAX,
                        last <= usize::MAX,
                ;
            }
            let position: u128 = i as u128 * last as u128;
            let index: usize = (position / span as u128) as usize;
            let offset: usize = (position % span as u128) as usize;
            let here = self.samples[index];
            let next = if index + 1 < input_len {
                self.samples[index + 1]
            } else {
                here
            };
            let above = count(offset);
            let t = above / whole;
            let sample = lerp(here, next, t, one);
            proof {
                assert(count.ensures((offset,), above) && count.ensures((span,), whole));
                assert(is_fraction(count, offset, span, t));
                assert(is_blend(count, here, next, offset, span, one, sample));
            }
            resampled.push(sample);
            i += 1;
        }
        self.samples = resampled;
        self.sample_rate = new_rate;
        self
    }

    /// Plays the sound `pitch` times as fast at the same sample rate, filling in between
    /// source samples linearly.
    pub fn adjust_pitch<C: Fn(usize) -> T>(&mut self, pitch: Pitch, one: T, count: &C) -> (out: &mut Self)
        requires
            pitch.well_formed(),
            spec_pitched_len(old(self).samples@.len(), pitch) <= usize::MAX,
            arithmetic_is_total::<T>(),
            forall|n: usize| count.requires((n,)),
        ensures
            *final(self) == *final(out),
            out.sample_rate == old(self).sample_rate,
            is_pitch_shift(old(self).samples@, pitch, one, count, out.samples@),
            pitch.num == pitch.den ==> out.samples@ == old(self).samples@,
            pitch.den == 2 * pitch.num ==> out.samples@.len() == 2 * old(self).samples@.len(),
    {
        proof {
            if pitch.den == 2 * pitch.num {
                lemma_half_pitch_doubles_length(self.samples@.len(), pitch);
            }
        }
        if pitch.num == pitch.den {
            proof {
                lemma_unit_pitch_is_identity(self.samples@, pitch, one, count);
            }
            return self;
        }
        let len = self.samples.len();
        assert(len * pitch.den <= usize::MAX * usize::MAX) by (nonlinear_arith)
            requires
                len <= usize::MAX,
                pitch.den <= usize::MAX,
        ;
        let new_length: usize = ((len as u128 * pitch.den as u128) / (pitch.num as u128)) as usize;
        let whole = count(pitch.den);
        let mut scaled: Vec<T> = Vec::with_capacity(new_length);
        let mut i: usize = 0;
        while i < new_length
            invariant
                pitch.well_formed(),
                arithmetic_is_total::<T>(),
                forall|n: usize| count.requires((n,)),
                len == self.samples@.len(),
                self.samples@ == old(self).samples@,
                new_length == spec_pitched_len(len as nat, pitch),
                count.ensures((pitch.den,), whole),
                i <= new_length,
                scaled@.len() == i,
                forall|k: int|
                    0 <= k < i ==> is_pitched_sample(self.samples@, pitch, one, count, k, #[trigger] scaled@[k]),
            decreases new_length - i,
        {
            proof {
                lemma_tap_in_source(i as int, len as int, pitch.num as int, pitch.den as int);
                assert(i * pitch.num <= usize::MAX * usize::MAX) by (nonlinear_arith)
                    requires
                        i <= usize::MAX,
                        pitch.num <= usize::MAX,
                ;
            }
            let position: u128 = i as u128 * pitch.num as u128;
            let lower: usize = (position / pitch.den as u128) as usize;
            let offset: usize = (position % pitch.den as u128) as usize;
            let upper: usize = if offset == 0 || lower + 1 >= len {
                lower
            } else {
                lower + 1
            };
            if lower != upper {
                let above = count(offset);
                let t = above / whole;
                let sample = lerp(self.samples[lower], self.samples[upper], t, one);
                proof {
                    assert(count.ensures((offset,), above) && count.ensures((pitch.den,), whole));
                    assert(is_fraction(count, offset, pitch.den, t));
                    assert(is_blend(
                        count,
                        self.samples@[lower as int],
                        self.samples@[upper as int],
                        offset,
                        pitch.den,
                        one,
                        sample,
                    ));
                }
                scaled.push(sample);
            } else {
                scaled.push(self.samples[lower]);
            }
            i += 1;
        }
        self.samples = scaled;
        self
    }

    /// `after` is a value of the samples of a sound of `before` at `rate` hertz once it is
    /// played at `pitch`, then scaled by `volume`, then resampled to `target_rate`.
    pub open spec fn is_prepared<C: Fn(usize) -> T>(
        before: Seq<T>,
        rate: nat,
        pitch: Pitch,
        volume: T,
        target_rate: nat,
        one: T,
        count: &C,
        after: Seq<T>,
    ) -> bool {
        exists|shifted: Seq<T>, scaled: Seq<T>|
            {
                &&& #[trigger] is_pitch_shift(before, pitch, one, count, shifted)
                &&& #[trigger] is_scaled(shifted, volume, scaled)
                &&& is_resampled(scaled, rate, target_rate, one, count, after)
            }
    }

    /// Makes a source ready for the palette: plays it at the pitch and the volume that its
    /// definition asks for, and brings it to the target rate.
    pub fn prepare<C: Fn(usize) -> T>(
        &mut self,
        pitch: Pitch,
        volume: T,
        target_rate: usize,
        one: T,
        count: &C,
    ) -> (out: &mut Self)
        requires
            pitch.well_formed(),
            old(self).sample_rate > 0,
            spec_pitched_len(old(self).samples@.len(), pitch) <= usize::MAX,
            spec_resampled_len(
                spec_pitched_len(old(self).samples@.len(), pitch),
                old(self).sample_rate as nat,
                target_rate as nat,
            ) <= usize::MAX,
            arithmetic_is_total::<T>(),
            forall|n: usize| count.requires((n,)),
        ensures
            *final(self) == *final(out),
            Self::is_prepared(
                old(self).samples@,
                old(self).sample_rate as nat,
                pitch,
                volume,
                target_rate as nat,
                one,
                count,
                out.samples@,
            ),
            out.sample_rate == if out.samples@.len() > 0 {
                target_rate
            } else {
                old(self).sample_rate
            },
    {
        self.adjust_pitch(pitch, one, count);
        let ghost shifted = self.samples@;
        self.adjust_volume(volume);
        let ghost scaled = self.samples@;
        self.resample(target_rate, one, count);
        proof {
            assert(is_pitch_shift(old(self).samples@, pitch, one, count, shifted) && is_scaled(
                shifted,
                volume,
                scaled,
            ));
        }
        self
    }

    /// Multiplies every sample by `volume`.
    pub fn adjust_volume(&mut self, volume: T) -> (out: &mut Self)
        requires
            arithmetic_is_total::<T>(),
        ensures
            *final(self) == *final(out),
            out.sample_rate == old(self).sample_rate,
            is_scaled(old(self).samples@, volume, out.samples@),
    {
        let len = self.samples.len();
        let mut i: usize = 0;
        while i < len
            invariant
                arithmetic_is_total::<T>(),
                self.sample_rate == old(self).sample_rate,
                len == old(self).samples@.len(),
                self.samples@.len() == len,
                i <= len,
                forall|k: int| 0 <= k < i ==> is_product(old(self).samples@[k], volume, #[trigger] self.samples@[k]),
                forall|k: int| i <= k < len ==> self.samples@[k] == old(self).samples@[k],
            decreases len - i,
        {
            let sample = self.samples[i] * volume;
            self.samples.set(i, sample);
            i += 1;
        }
        self
    }
}


/// Point `k` of `resolution` equally spaced pitches from 1/2 to 2, both included.
pub open spec fn spec_grid_pitch(resolution: nat, k: nat) -> Pitch {
    Pitch { num: (resolution - 1 + 3 * k) as usize, den: (2 * (resolution - 1)) as usize }
}

/// Point `k` of `resolution` equally spaced pitches from 1/2 to 2, both included.
pub fn grid_pitch(resolution: usize, k: usize) -> (pitch: Pitch)
    requires
        2 <= resolution,
        k < resolution,
        4 * (resolution - 1) <= usize::MAX,
    ensures
        pitch == spec_grid_pitch(resolution as nat, k as nat),
        pitch.well_formed(),
        pitch.den <= 2 * pitch.num,
        pitch.num <= 2 * pitch.den,
{
    let steps: usize = resolution - 1;
    Pitch { num: steps + 3 * k, den: 2 * steps }
}

/// The grid starts at 1/2, ends at 2, and every step between two neighbours is the same:
/// 3 / (2·(resolution − 1)).
pub proof fn lemma_grid_is_evenly_spaced(resolution: nat, k: nat)
    requires
        2 <= resolution,
        k + 1 < resolution,
        4 * (resolution - 1) <= usize::MAX,
    ensures
        spec_grid_pitch(resolution, 0).den == 2 * spec_grid_pitch(resolution, 0).num,
        spec_grid_pitch(resolution, (resolution - 1) as nat).num == 2 * spec_grid_pitch(
            resolution,
            (resolution - 1) as nat,
        ).den,
        spec_grid_pitch(resolution, k + 1).den == spec_grid_pitch(resolution, k).den,
        spec_grid_pitch(resolution, k + 1).num == spec_grid_pitch(resolution, k).num + 3,
{
}

/// No sound grows to more than twice its length at a pitch of 1/2 or more.
pub proof fn lemma_pitched_len_bound(len: nat, pitch: Pitch)
    requires
        pitch.well_formed(),
        pitch.den <= 2 * pitch.num,
    ensures
        spec_pitched_len(len, pitch) <= 2 * len,
{
    let num = pitch.num as int;
    let den = pitch.den as int;
    assert(len * den <= (2 * len) * num) by (nonlinear_arith)
        requires
            den <= 2 * num,
            0 <= len,
            0 < num,
    ;
    assert((len * den) / num <= 2 * len) by (nonlinear_arith)
        requires
            len * den <= (2 * len) * num,
            0 < num,
            0 <= len * den,
    ;
}

/// A copy of `samples`.
pub fn copy_samples<T: Copy>(samples: &Vec<T>) -> (copy: Vec<T>)
    ensures
        copy@ == samples@,
{
    let mut copy: Vec<T> = Vec::with_capacity(samples.len());
    let mut i: usize = 0;
    while i < samples.len()
        invariant
            i <= samples@.len(),
            copy@ == samples@.take(i as int),
        decreases samples.len() - i,
    {
        copy.push(samples[i]);
        assert(copy@ =~= samples@.take(i + 1));
        i += 1;
    }
    assert(samples@.take(i as int) =~= samples@);
    copy
}

/// Whether a source of `len` samples at `rate` hertz, played at point `k` of the pitch
/// grid, still fills one tick.
pub open spec fn fills_a_tick(len: nat, rate: nat, resolution: nat, k: nat) -> bool {
    spec_pitched_len(len, spec_grid_pitch(resolution, k)) >= spec_samples_per_tick(rate)
}

/// The pairs (source, grid point) that the palette keeps among the first `n` of the cross
/// product, sources outermost, in that order: those that fill a tick.
pub open spec fn palette_sources<T>(
    samples: Seq<(String, Sound<T>)>,
    resolution: nat,
    n: nat,
) -> Seq<(int, int)>
    decreases n,
{
    if n == 0 || resolution == 0 {
        Seq::empty()
    } else {
        let before = palette_sources(samples, resolution, (n - 1) as nat);
        let source = (n - 1) / (resolution as int);
        let k = (n - 1) % (resolution as int);
        if fills_a_tick(
            samples[source].1.samples@.len(),
            samples[source].1.sample_rate as nat,
            resolution,
            k as nat,
        ) {
            before.push((source, k))
        } else {
            before
        }
    }
}

/// Every pair that the palette keeps names a source and a grid point, and fills a tick: a
/// source too short for a tick at some pitch is absent at that pitch.
pub proof fn lemma_palette_sources_fill_a_tick<T>(
    samples: Seq<(String, Sound<T>)>,
    resolution: nat,
    n: nat,
)
    requires
        n <= samples.len() * resolution,
    ensures
        forall|j: int|
            0 <= j < palette_sources(samples, resolution, n).len() ==> {
                let (source, k) = #[trigger] palette_sources(samples, resolution, n)[j];
                &&& 0 <= source < samples.len()
                &&& 0 <= k < resolution
                &&& source * resolution + k < n
                &&& fills_a_tick(
                    samples[source].1.samples@.len(),
                    samples[source].1.sample_rate as nat,
                    resolution,
                    k as nat,
                )
            },
    decreases n,
{
    if n > 0 && resolution > 0 {
        lemma_palette_sources_fill_a_tick(samples, resolution, (n - 1) as nat);
        let r = resolution as int;
        let source = (n - 1) / r;
        let k = (n - 1) % r;
        assert(0 <= source < samples.len() && 0 <= k < r && source * r + k == n - 1) by (nonlinear_arith)
            requires
                0 <= n - 1 < samples.len() * r,
                0 < r,
                source == (n - 1) / r,
                k == (n - 1) % r,
        ;
        let before = palette_sources(samples, resolution, (n - 1) as nat);
        let kept = palette_sources(samples, resolution, n);
        assert forall|j: int| 0 <= j < kept.len() implies {
            let (source, k) = #[trigger] kept[j];
            &&& 0 <= source < samples.len()
            &&& 0 <= k < resolution
            &&& source * resolution + k < n
            &&& fills_a_tick(
                samples[source].1.samples@.len(),
                samples[source].1.sample_rate as nat,
                resolution,
                k as nat,
            )
        } by {
            if j < before.len() {
                assert(kept[j] == before[j]);
            }
        }
    }
}

/// The pairs that the palette keeps stand in the order of the cross product, sources
/// outermost: no pair stands twice.
pub proof fn lemma_palette_sources_are_ordered<T>(samples: Seq<(String, Sound<T>)>, resolution: nat, n: nat)
    requires
        n <= samples.len() * resolution,
    ensures
        forall|i: int, j: int|
            0 <= i < j < palette_sources(samples, resolution, n).len() ==> {
                let first = #[trigger] palette_sources(samples, resolution, n)[i];
                let second = #[trigger] palette_sources(samples, resolution, n)[j];
                first.0 * resolution + first.1 < second.0 * resolution + second.1
            },
    decreases n,
{
    if n > 0 && resolution > 0 {
        lemma_palette_sources_are_ordered(samples, resolution, (n - 1) as nat);
        lemma_palette_sources_fill_a_tick(samples, resolution, (n - 1) as nat);
        let r = resolution as int;
        let source = (n - 1) / r;
        let k = (n - 1) % r;
        assert(source * r + k == n - 1) by (nonlinear_arith)
            requires
                0 <= n - 1,
                0 < r,
                source == (n - 1) / r,
                k == (n - 1) % r,
        ;
        let before = palette_sources(samples, resolution, (n - 1) as nat);
        let kept = palette_sources(samples, resolution, n);
        assert forall|i: int, j: int| 0 <= i < j < kept.len() implies {
            let first = #[trigger] kept[i];
            let second = #[trigger] kept[j];
            first.0 * resolution + first.1 < second.0 * resolution + second.1
        } by {
            assert(kept[i] == before[i]);
            if j < before.len() {
                assert(kept[j] == before[j]);
            }
        }
    }
}

/// `dst` is a value of the first tick of `src` played at `pitch`.
pub open spec fn is_palette_sound<T: Scalar, C: Fn(usize) -> T>(
    src: Seq<T>,
    rate: nat,
    pitch: Pitch,
    one: T,
    count: &C,
    dst: Seq<T>,
) -> bool {
    exists|shifted: Seq<T>| #[trigger]
        is_pitch_shift(src, pitch, one, count, shifted) && dst == shifted.take(
            spec_samples_per_tick(rate) as int,
        )
}

/// `entries` is a value of the palette of `samples` over a pitch grid of `resolution`
/// points: one entry for every kept pair, in order, under the source's name and the grid
/// pitch, holding the first tick of the source played at that pitch.
pub open spec fn is_palette<T: Scalar, C: Fn(usize) -> T>(
    samples: Seq<(String, Sound<T>)>,
    resolution: nat,
    one: T,
    count: &C,
    entries: Seq<((String, Pitch), Sound<T>)>,
) -> bool {
    is_palette_prefix(samples, resolution, one, count, samples.len() * resolution, entries)
}

/// One entry of the palette: `source` at point `k` of a pitch grid of `resolution` points,
/// cut to its first tick; none where the pitch leaves the source shorter than one tick.
/// The entries of a palette do not depend on each other, so they may be made in any order
/// and side by side.
pub fn palette_entry<T: Scalar, C: Fn(usize) -> T>(
    source: &(String, Sound<T>),
    resolution: usize,
    k: usize,
    one: T,
    count: &C,
) -> (entry: Option<((String, Pitch), Sound<T>)>)
    requires
        2 <= resolution,
        k < resolution,
        4 * (resolution - 1) <= usize::MAX,
        2 * source.1.samples@.len() <= usize::MAX,
        arithmetic_is_total::<T>(),
        forall|n: usize| count.requires((n,)),
    ensures
        entry is Some <==> fills_a_tick(
            source.1.samples@.len(),
            source.1.sample_rate as nat,
            resolution as nat,
            k as nat,
        ),
        entry matches Some(made) ==> is_entry_of(*source, resolution as nat, k as nat, one, count, made),
{
    let pitch = grid_pitch(resolution, k);
    let mut sound = Sound { samples: copy_samples(&source.1.samples), sample_rate: source.1.sample_rate };
    proof {
        lemma_pitched_len_bound(sound.samples@.len(), pitch);
    }
    let ghost before = sound.samples@;
    sound.adjust_pitch(pitch, one, count);
    let ghost shifted = sound.samples@;
    let tick = samples_per_tick(sound.sample_rate);
    if sound.samples.len() >= tick {
        sound.samples.truncate(tick);
        proof {
            assert(is_pitch_shift(before, pitch, one, count, shifted));
        }
        Some(((source.0.clone(), pitch), sound))
    } else {
        None
    }
}

/// Builds the palette: every source at every pitch of a grid of `resolution` points from
/// 1/2 to 2, sources outermost, each cut to its first tick. A source that a pitch leaves
/// shorter than one tick is left out at that pitch.
pub fn permute_with_pitch<T: Scalar, C: Fn(usize) -> T>(
    samples: Vec<(String, Sound<T>)>,
    resolution: usize,
    one: T,
    count: &C,
) -> (entries: Vec<((String, Pitch), Sound<T>)>)
    requires
        2 <= resolution,
        4 * (resolution - 1) <= usize::MAX,
        forall|s: int| 0 <= s < samples@.len() ==> 2 * (#[trigger] samples@[s]).1.samples@.len() <= usize::MAX,
        arithmetic_is_total::<T>(),
        forall|n: usize| count.requires((n,)),
    ensures
        is_palette(samples@, resolution as nat, one, count, entries@),
{
    let mut entries: Vec<((String, Pitch), Sound<T>)> = Vec::new();
    let ghost all = samples@;
    let ghost r = resolution as nat;
    let mut s: usize = 0;
    proof {
        assert(0 * r == 0) by (nonlinear_arith);
    }
    while s < samples.len()
        invariant
            all == samples@,
            r == resolution,
            2 <= resolution,
            4 * (resolution - 1) <= usize::MAX,
            forall|q: int| 0 <= q < all.len() ==> 2 * (#[trigger] all[q]).1.samples@.len() <= usize::MAX,
            arithmetic_is_total::<T>(),
            forall|n: usize| count.requires((n,)),
            s <= all.len(),
            is_palette_prefix(all, r, one, count, (s * r) as nat, entries@),
        decreases samples.len() - s,
    {
        let mut k: usize = 0;
        while k < resolution
            invariant
                all == samples@,
                r == resolution,
                2 <= resolution,
                4 * (resolution - 1) <= usize::MAX,
                forall|q: int| 0 <= q < all.len() ==> 2 * (#[trigger] all[q]).1.samples@.len() <= usize::MAX,
                arithmetic_is_total::<T>(),
                forall|n: usize| count.requires((n,)),
                s < all.len(),
                k <= resolution,
                is_palette_prefix(all, r, one, count, (s * r + k) as nat, entries@),
            decreases resolution - k,
        {
            proof {
                assert(((s * r + k + 1) - 1) / (r as int) == s && ((s * r + k + 1) - 1) % (r as int) == k)
                    by (nonlinear_arith)
                    requires
                        0 <= k < r,
                        0 <= s,
                ;
            }
            let ghost kept_before = palette_sources(all, r, (s * r + k) as nat);
            let ghost old_entries = entries@;
            match palette_entry(&samples[s], resolution, k, one, count) {
                Some(made) => {
                    entries.push(made);
                    proof {
                        let kept = palette_sources(all, r, (s * r + k + 1) as nat);
                        assert(kept == kept_before.push((s as int, k as int)));
                        assert forall|j: int| 0 <= j < entries@.len() implies is_palette_entry(
                            all,
                            r,
                            one,
                            count,
                            kept[j],
                            #[trigger] entries@[j],
                        ) by {
                            if j < old_entries.len() {
                                assert(entries@[j] == old_entries[j]);
                                assert(kept[j] == kept_before[j]);
                            }
                        }
                    }
                },
                None => {
                    proof {
                        assert(palette_sources(all, r, (s * r + k + 1) as nat) == kept_before);
                    }
                },
            }
            k += 1;
        }
        proof {
            assert((s + 1) * r == s * r + r) by (nonlinear_arith);
        }
        s += 1;
    }
    entries
}

/// `entry` is the palette entry of `source` at point `k` of the pitch grid: under the
/// source's name and the grid pitch, at the source's rate, the first tick of the source
/// played at that pitch.
pub open spec fn is_entry_of<T: Scalar, C: Fn(usize) -> T>(
    source: (String, Sound<T>),
    resolution: nat,
    k: nat,
    one: T,
    count: &C,
    entry: ((String, Pitch), Sound<T>),
) -> bool {
    &&& entry.0.0@ == source.0@
    &&& entry.0.1 == spec_grid_pitch(resolution, k)
    &&& entry.1.sample_rate == source.1.sample_rate
    &&& entry.1.samples@.len() == spec_samples_per_tick(source.1.sample_rate as nat)
    &&& is_palette_sound(
        source.1.samples@,
        source.1.sample_rate as nat,
        entry.0.1,
        one,
        count,
        entry.1.samples@,
    )
}

/// `entry` is the palette entry of the kept pair `pair`.
pub open spec fn is_palette_entry<T: Scalar, C: Fn(usize) -> T>(
    samples: Seq<(String, Sound<T>)>,
    resolution: nat,
    one: T,
    count: &C,
    pair: (int, int),
    entry: ((String, Pitch), Sound<T>),
) -> bool {
    is_entry_of(samples[pair.0], resolution, pair.1 as nat, one, count, entry)
}

/// `entries` holds the palette entries of the pairs kept among the first `n`.
pub open spec fn is_palette_prefix<T: Scalar, C: Fn(usize) -> T>(
    samples: Seq<(String, Sound<T>)>,
    resolution: nat,
    one: T,
    count: &C,
    n: nat,
    entries: Seq<((String, Pitch), Sound<T>)>,
) -> bool {
    let kept = palette_sources(samples, resolution, n);
    &&& entries.len() == kept.len()
    &&& forall|j: int|
        0 <= j < entries.len() ==> is_palette_entry(samples, resolution, one, count, kept[j], #[trigger] entries[j])
}


/// Why an input recording is refused.
#[derive(Clone, Copy, Debug, PartialEq, Eq, Structural)]
pub enum IngestError {
    /// The recording has more than one channel: it has to be mixed down first.
    StereoInput,
}

/// `chunks` cuts `samples` into whole ticks of `tick` samples, in order, each at
/// `sample_rate`; what is left after the last whole tick is dropped.
pub open spec fn is_tick_chunks<T>(samples: Seq<T>, sample_rate: usize, tick: nat, chunks: Seq<Sound<T>>) -> bool {
    &&& chunks.len() == samples.len() / tick
    &&& forall|k: int|
        0 <= k < chunks.len() ==> {
            &&& (#[trigger] chunks[k]).sample_rate == sample_rate
            &&& chunks[k].samples@ == samples.subrange(k * tick, (k + 1) * tick)
        }
}

/// Cuts a recording into whole ticks, in order. A trailing part shorter than a tick is
/// dropped, not padded.
pub fn chunk_ticks<T: Copy>(samples: &Vec<T>, sample_rate: usize) -> (chunks: Vec<Sound<T>>)
    requires
        sample_rate >= 20,
    ensures
        is_tick_chunks(samples@, sample_rate, spec_time_as_samples(sample_rate as nat, 50), chunks@),
{
    let tick: usize = sample_rate / 20;
    let count: usize = samples.len() / tick;
    let mut chunks: Vec<Sound<T>> = Vec::with_capacity(count);
    let mut k: usize = 0;
    while k < count
        invariant
            tick == spec_time_as_samples(sample_rate as nat, 50),
            tick > 0,
            count == samples@.len() / (tick as nat),
            k <= count,
            chunks@.len() == k,
            forall|q: int|
                0 <= q < k ==> {
                    &&& (#[trigger] chunks@[q]).sample_rate == sample_rate
                    &&& chunks@[q].samples@ == samples@.subrange(q * tick, (q + 1) * tick)
                },
        decreases count - k,
    {
        proof {
            assert((k + 1) * tick <= count * tick) by (nonlinear_arith)
                requires
                    k + 1 <= count,
                    0 < tick,
            ;
            assert(count * tick <= samples@.len()) by (nonlinear_arith)
                requires
                    count == samples@.len() / (tick as nat),
                    0 < tick,
            ;
            assert((k + 1) * tick == k * tick + tick) by (nonlinear_arith);
            assert(0 <= k * tick) by (nonlinear_arith)
                requires
                    0 <= k,
                    0 < tick,
            ;
            assert(samples.len() == samples@.len());
        }
        let start: usize = k * tick;
        let mut piece: Vec<T> = Vec::with_capacity(tick);
        let mut i: usize = 0;
        while i < tick
            invariant
                start + tick <= samples@.len(),
                samples@.len() <= usize::MAX,
                i <= tick,
                piece@ == samples@.subrange(start as int, start + i),
            decreases tick - i,
        {
            piece.push(samples[start + i]);
            assert(piece@ =~= samples@.subrange(start as int, start + i + 1));
            i += 1;
        }
        chunks.push(Sound { samples: piece, sample_rate });
        k += 1;
    }
    chunks
}

/// Takes a recording in: refuses one with more than one channel, and cuts a mono one into
/// whole ticks.
pub fn ingest<T: Copy>(channels: u16, samples: &Vec<T>, sample_rate: usize) -> (chunks: Result<
    Vec<Sound<T>>,
    IngestError,
>)
    requires
        channels <= 1 ==> sample_rate >= 20,
    ensures
        channels > 1 <==> chunks == Err::<Vec<Sound<T>>, IngestError>(IngestError::StereoInput),
        chunks matches Ok(cut) ==> is_tick_chunks(
            samples@,
            sample_rate,
            spec_time_as_samples(sample_rate as nat, 50),
            cut@,
        ),
{
    if channels > 1 {
        return Err(IngestError::StereoInput);
    }
    Ok(chunk_ticks(samples, sample_rate))
}


/// Whatever the sources and the resolution, every entry of a palette belongs to a pair of a
/// source and a grid point that fills a tick, and the entries stand in the order of the
/// cross product with the sources outermost: a source that a pitch leaves shorter than one
/// tick has no entry at that pitch.
pub proof fn lemma_palette_has_no_short_entry<T: Scalar, C: Fn(usize) -> T>(
    samples: Seq<(String, Sound<T>)>,
    resolution: nat,
    one: T,
    count: &C,
    entries: Seq<((String, Pitch), Sound<T>)>,
)
    requires
        is_palette(samples, resolution, one, count, entries),
    ensures
        entries.len() == palette_sources(samples, resolution, samples.len() * resolution).len(),
        forall|j: int|
            0 <= j < entries.len() ==> {
                let (source, k) = palette_sources(samples, resolution, samples.len() * resolution)[j];
                &&& 0 <= source < samples.len()
                &&& 0 <= k < resolution
                &&& fills_a_tick(
                    samples[source].1.samples@.len(),
                    samples[source].1.sample_rate as nat,
                    resolution,
                    k as nat,
                )
                &&& is_entry_of(samples[source], resolution, k as nat, one, count, #[trigger] entries[j])
            },
        forall|i: int, j: int|
            0 <= i < j < entries.len() ==> {
                let first = #[trigger] palette_sources(samples, resolution, samples.len() * resolution)[i];
                let second = #[trigger] palette_sources(samples, resolution, samples.len() * resolution)[j];
                first.0 * resolution + first.1 < second.0 * resolution + second.1
            },
{
    let n = samples.len() * resolution;
    let kept = palette_sources(samples, resolution, n);
    lemma_palette_sources_fill_a_tick(samples, resolution, n);
    lemma_palette_sources_are_ordered(samples, resolution, n);
    assert forall|j: int| 0 <= j < entries.len() implies {
        let (source, k) = kept[j];
        &&& 0 <= source < samples.len()
        &&& 0 <= k < resolution
        &&& fills_a_tick(
            samples[source].1.samples@.len(),
            samples[source].1.sample_rate as nat,
            resolution,
            k as nat,
        )
        &&& is_entry_of(samples[source], resolution, k as nat, one, count, #[trigger] entries[j])
    } by {
        assert(is_palette_entry(samples, resolution, one, count, kept[j], entries[j]));
    }
}

/// Where no two sources carry the same name, no two palette entries carry the same key:
/// they differ in the name or in the pitch.
pub proof fn lemma_palette_keys_are_distinct<T: Scalar, C: Fn(usize) -> T>(
    samples: Seq<(String, Sound<T>)>,
    resolution: nat,
    one: T,
    count: &C,
    entries: Seq<((String, Pitch), Sound<T>)>,
)
    requires
        2 <= resolution,
        4 * (resolution - 1) <= usize::MAX,
        forall|a: int, b: int|
            0 <= a < b < samples.len() ==> (#[trigger] samples[a]).0@ != (#[trigger] samples[b]).0@,
        is_palette(samples, resolution, one, count, entries),
    ensures
        forall|i: int, j: int|
            0 <= i < j < entries.len() ==> (#[trigger] entries[i]).0.0@ != (#[trigger] entries[j]).0.0@
                || entries[i].0.1 != entries[j].0.1,
{
    let n = samples.len() * resolution;
    let kept = palette_sources(samples, resolution, n);
    lemma_palette_sources_are_ordered(samples, resolution, n);
    lemma_palette_sources_fill_a_tick(samples, resolution, n);
    assert forall|i: int, j: int| 0 <= i < j < entries.len() implies (#[trigger] entries[i]).0.0@ != (
    #[trigger] entries[j]).0.0@ || entries[i].0.1 != entries[j].0.1 by {
        let first = kept[i];
        let second = kept[j];
        assert(is_palette_entry(samples, resolution, one, count, first, entries[i]));
        assert(is_palette_entry(samples, resolution, one, count, second, entries[j]));
        assert(first.0 * resolution + first.1 < second.0 * resolution + second.1);
        if first.0 == second.0 {
            assert(first.1 != second.1);
            assert(spec_grid_pitch(resolution, first.1 as nat).num != spec_grid_pitch(
                resolution,
                second.1 as nat,
            ).num);
        } else if first.0 < second.0 {
            assert(samples[first.0].0@ != samples[second.0].0@);
        } else {
            assert(samples[second.0].0@ != samples[first.0].0@);
        }
    }
}

} // verus!
