use crate::algebra::{
    apply_epsilon, can_divide_by_positive, is_normalized_to_global, is_thresholded, normalize_to_global, Matrix,
};
use crate::algebra::Grid;
use crate::audio::Pitch;
use crate::nnls::{
    cpu_pgd_nnls, is_device_solution, is_nonnegative, is_pgd_solution, pgd_nnls, DevicePlan, Kernel, SolveError,
};
use crate::numeric::{arithmetic_is_total, is_quotient, Scalar};
use crate::schedule::{is_tick_record, schedule, TickRecord};
use vstd::prelude::*;

verus! {

/// Where the activations are solved for.
#[derive(Clone, Copy, Debug, PartialEq, Eq, Structural)]
pub enum Backend {
    /// On the host.
    Reference,
    /// On an offload device.
    Accelerated,
}

/// A setting that is a fraction, kept as the two whole numbers it is made of.
#[derive(Clone, Copy, Debug, PartialEq, Eq, Structural)]
pub struct Ratio {
    pub num: usize,
    pub den: usize,
}

/// What can be set about a decomposition.
#[derive(Clone, Copy, Debug, PartialEq, Eq, Structural)]
pub struct Settings {
    /// How many pitches the palette holds of every source.
    pub pitch_resolution: usize,
    /// The sample rate that every source is brought to, in hertz.
    pub target_rate: usize,
    /// The length of a tick, in milliseconds.
    pub tick_ms: usize,
    /// How many steps the solver takes.
    pub solver_iterations: usize,
    /// The step of the solver.
    pub solver_step: Ratio,
    /// The activation below which an entry is silent.
    pub activation_epsilon: Ratio,
    /// How many palette entries a tick names at most.
    pub top_k: usize,
    /// Where the activations are solved for.
    pub backend: Backend,
}

impl Default for Settings {
    fn default() -> (settings: Self)
        ensures
            settings == (Settings {
                pitch_resolution: 256,
                target_rate: 48000,
                tick_ms: 50,
                solver_iterations: 128,
                solver_step: Ratio { num: 1, den: 1000000 },
                activation_epsilon: Ratio { num: 1, den: 100000 },
                top_k: 64,
                backend: Backend::Accelerated,
            }),
    {
        Settings {
            pitch_resolution: 256,
            target_rate: 48000,
            tick_ms: 50,
            solver_iterations: 128,
            solver_step: Ratio { num: 1, den: 1000000 },
            activation_epsilon: Ratio { num: 1, den: 100000 },
            top_k: 64,
            backend: Backend::Accelerated,
        }
    }
}

/// `value` is a value of `count(ratio.num) / count(ratio.den)`.
pub open spec fn is_ratio_value<T: Scalar, C: Fn(usize) -> T>(count: &C, ratio: Ratio, value: T) -> bool {
    exists|above: T, below: T|
        {
            &&& #[trigger] count.ensures((ratio.num,), above)
            &&& #[trigger] count.ensures((ratio.den,), below)
            &&& is_quotient(above, below, value)
        }
}

/// The value of a fractional setting as a sample value.
pub fn ratio_value<T: Scalar, C: Fn(usize) -> T>(count: &C, ratio: Ratio) -> (value: T)
    requires
        forall|n: usize| count.requires((n,)),
        forall|a: T, b: T| call_requires(<T as core::ops::Div>::div, (a, b)),
    ensures
        is_ratio_value(count, ratio, value),
{
    let above = count(ratio.num);
    let below = count(ratio.den);
    let value = above / below;
    assert(count.ensures((ratio.num,), above) && count.ensures((ratio.den,), below));
    value
}

/// `after` is a value of the refined activations: `before` normalised to its greatest
/// entry, and then every entry below `epsilon` set to `zero`.
pub open spec fn is_refined<T: Scalar>(before: Seq<T>, epsilon: T, zero: T, after: Seq<T>) -> bool {
    exists|normalized: Seq<T>| #[trigger]
        is_normalized_to_global(before, zero, normalized) && is_thresholded(normalized, epsilon, zero, after)
}

/// Makes the solver's activations ready for the schedule: normalises them to their greatest
/// entry and silences every entry below `epsilon`.
pub fn refine_activations<T: Scalar>(activations: &mut Matrix<T>, epsilon: T, zero: T)
    requires
        can_divide_by_positive(zero),
    ensures
        final(activations).rows == old(activations).rows,
        final(activations).cols == old(activations).cols,
        is_refined(old(activations)@.cells, epsilon, zero, final(activations)@.cells),
{
    normalize_to_global(activations, zero);
    let ghost normalized = activations@.cells;
    apply_epsilon(activations, epsilon, zero);
    assert(is_normalized_to_global(old(activations)@.cells, zero, normalized));
}


/// `h` is an outcome of the solve on `backend`: on the host the result of the descent,
/// which cannot fail; on the device whatever the device gives, failure included.
pub open spec fn is_backend_solution<T: Scalar, B, E, U, D, R>(
    backend: Backend,
    upload: &U,
    launch: &D,
    download: &R,
    data: Grid<T>,
    basis: Grid<T>,
    iters: nat,
    step: T,
    zero: T,
    h: Result<Matrix<T>, SolveError<E>>,
) -> bool where
    U: Fn(DevicePlan<T>) -> Result<B, E>,
    D: Fn(Kernel, B) -> Result<B, E>,
    R: Fn(B) -> Result<Vec<T>, E>,
 {
    &&& h matches Ok(m) ==> m.well_formed() && m@.rows == basis.cols && m@.cols == data.cols
    &&& match backend {
        Backend::Reference => h matches Ok(m) && is_pgd_solution(data, basis, step, zero, iters, m@)
            && is_nonnegative(m@.cells, zero),
        Backend::Accelerated => is_device_solution(upload, launch, download, data, basis, iters, step, zero, h),
    }
}

/// Solves for the activations on the backend that is asked for, and on no other: a solve
/// on the device that fails is never made up for on the host.
pub fn solve<T: Scalar, B, E, U, D, R>(
    backend: Backend,
    data: &Matrix<T>,
    basis: &Matrix<T>,
    iters: usize,
    step: T,
    zero: T,
    upload: &U,
    launch: &D,
    download: &R,
) -> (h: Result<Matrix<T>, SolveError<E>>) where
    U: Fn(DevicePlan<T>) -> Result<B, E>,
    D: Fn(Kernel, B) -> Result<B, E>,
    R: Fn(B) -> Result<Vec<T>, E>,

    requires
        data.well_formed(),
        basis.well_formed(),
        data@.rows == basis@.rows,
        basis@.cols * data@.cols <= usize::MAX,
        arithmetic_is_total::<T>(),
        forall|plan: DevicePlan<T>| upload.requires((plan,)),
        forall|kernel: Kernel, buffers: B| launch.requires((kernel, buffers)),
        forall|buffers: B| download.requires((buffers,)),
    ensures
        is_backend_solution(backend, upload, launch, download, data@, basis@, iters as nat, step, zero, h),
{
    match backend {
        Backend::Reference => Ok(cpu_pgd_nnls(data, basis, iters, step, zero)),
        Backend::Accelerated => pgd_nnls(data, basis, iters, step, zero, upload, launch, download),
    }
}

/// `records` is a value of the schedule of activations `h`: they are refined, and every
/// tick names its `top` strongest palette entries.
pub open spec fn is_schedule_of<T: Scalar, K: Fn(T) -> u64>(
    rank: &K,
    h: Grid<T>,
    palette: Seq<(String, Pitch)>,
    top: nat,
    epsilon: T,
    zero: T,
    records: Seq<TickRecord<T>>,
) -> bool {
    exists|refined: Grid<T>|
        {
            &&& refined.rows == h.rows
            &&& refined.cols == h.cols
            &&& #[trigger] is_refined(h.cells, epsilon, zero, refined.cells)
            &&& records.len() == h.cols
            &&& forall|tick: int|
                0 <= tick < records.len() ==> is_tick_record(rank, refined, palette, top, tick, #[trigger] records[tick])
        }
}

/// `outcome` is a value of the decomposition of the normalised input `data` over the
/// normalised palette `basis`: the failure of the solve, or the schedule of what it found.
pub open spec fn is_decomposition<T: Scalar, B, E, U, D, R, K>(
    settings: Settings,
    upload: &U,
    launch: &D,
    download: &R,
    rank: &K,
    data: Grid<T>,
    basis: Grid<T>,
    palette: Seq<(String, Pitch)>,
    step: T,
    epsilon: T,
    zero: T,
    outcome: Result<Vec<TickRecord<T>>, SolveError<E>>,
) -> bool where
    U: Fn(DevicePlan<T>) -> Result<B, E>,
    D: Fn(Kernel, B) -> Result<B, E>,
    R: Fn(B) -> Result<Vec<T>, E>,
    K: Fn(T) -> u64,
 {
    exists|h: Result<Matrix<T>, SolveError<E>>|
        {
            &&& #[trigger] is_backend_solution(
                settings.backend,
                upload,
                launch,
                download,
                data,
                basis,
                settings.solver_iterations as nat,
                step,
                zero,
                h,
            )
            &&& match h {
                Err(e) => outcome == Err::<Vec<TickRecord<T>>, SolveError<E>>(e),
                Ok(m) => outcome matches Ok(records) && is_schedule_of(
                    rank,
                    m@,
                    palette,
                    settings.top_k as nat,
                    epsilon,
                    zero,
                    records@,
                ),
            }
        }
}

/// Decomposes the input over the palette. `chunks` holds the features of the input, one
/// tick in every column; `bins` holds the features of the palette, one entry in every
/// column; `palette` names the entries.
///
/// Both matrices are normalised to their greatest cell, in place. Then the activations are
/// solved for on the backend of the settings, refined, and turned into one record for every
/// tick. A failure of the device is handed on; nothing is scheduled then.
pub fn decompose<T: Scalar, B, E, U, D, R, K>(
    chunks: &mut Matrix<T>,
    bins: &mut Matrix<T>,
    palette: &Vec<(String, Pitch)>,
    settings: &Settings,
    step: T,
    epsilon: T,
    zero: T,
    upload: &U,
    launch: &D,
    download: &R,
    rank: &K,
) -> (outcome: Result<Vec<TickRecord<T>>, SolveError<E>>) where
    U: Fn(DevicePlan<T>) -> Result<B, E>,
    D: Fn(Kernel, B) -> Result<B, E>,
    R: Fn(B) -> Result<Vec<T>, E>,
    K: Fn(T) -> u64,

    requires
        old(chunks).well_formed(),
        old(bins).well_formed(),
        old(chunks)@.rows == old(bins)@.rows,
        palette@.len() == old(bins)@.cols,
        old(bins)@.cols * old(chunks)@.cols <= usize::MAX,
        arithmetic_is_total::<T>(),
        forall|plan: DevicePlan<T>| upload.requires((plan,)),
        forall|kernel: Kernel, buffers: B| launch.requires((kernel, buffers)),
        forall|buffers: B| download.requires((buffers,)),
        forall|x: T| rank.requires((x,)),
    ensures
        final(chunks).rows == old(chunks).rows,
        final(chunks).cols == old(chunks).cols,
        final(bins).rows == old(bins).rows,
        final(bins).cols == old(bins).cols,
        is_normalized_to_global(old(chunks)@.cells, zero, final(chunks)@.cells),
        is_normalized_to_global(old(bins)@.cells, zero, final(bins)@.cells),
        is_decomposition(
            *settings,
            upload,
            launch,
            download,
            rank,
            final(chunks)@,
            final(bins)@,
            palette@,
            step,
            epsilon,
            zero,
            outcome,
        ),
        outcome matches Ok(records) ==> records@.len() == old(chunks)@.cols,
{
    normalize_to_global(chunks, zero);
    normalize_to_global(bins, zero);
    proof {
        assert(is_normalized_to_global(old(chunks)@.cells, zero, chunks@.cells));
        assert(chunks@.cells.len() == old(chunks)@.cells.len());
        assert(bins@.cells.len() == old(bins)@.cells.len());
    }
    let solved = solve(
        settings.backend,
        chunks,
        bins,
        settings.solver_iterations,
        step,
        zero,
        upload,
        launch,
        download,
    );
    let ghost h = solved;
    match solved {
        Err(e) => Err(e),
        Ok(mut activations) => {
            let ghost raw = activations@;
            refine_activations(&mut activations, epsilon, zero);
            proof {
                assert(activations@.cells.len() == raw.cells.len());
            }
            let records = schedule(&activations, palette, settings.top_k, rank);
            proof {
                assert(is_refined(raw.cells, epsilon, zero, activations@.cells));
                assert(is_schedule_of(rank, raw, palette@, settings.top_k as nat, epsilon, zero, records@));
            }
            Ok(records)
        },
    }
}

} // verus!
