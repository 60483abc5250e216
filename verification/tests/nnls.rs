use minecraft_player::algebra::{
    cpu_pgd_nnls, matrix_from_vecs, normalize_to_global, normalize_to_minus_plus, pgd_nnls, Matrix,
    ShapeError,
};
use minecraft_player::nnls::{
    collect_activations, device_plan, gemm_wh_minus_v, gemm_wta, update_h, DevicePlan, Kernel,
    SolveError,
};
use minecraft_player::pipeline::{solve, Backend};
use std::cell::Cell;

fn matrix(rows: Vec<Vec<f32>>) -> Matrix<f32> {
    matrix_from_vecs(rows).unwrap()
}

#[test]
fn kernels_compute_the_three_products() {
    // W is 2x2, H is 2x1, V is 2x1.
    let w = matrix(vec![vec![1.0, 2.0], vec![3.0, 4.0]]);
    let h = matrix(vec![vec![1.0], vec![1.0]]);
    let v = matrix(vec![vec![1.0], vec![10.0]]);
    let a = gemm_wh_minus_v(&w, &h, &v, 0.0);
    assert_eq!(a.dim(), (2, 1));
    assert_eq!(a.data, vec![2.0, -3.0]);
    let g = gemm_wta(&w, &a, 0.0);
    assert_eq!(g.dim(), (2, 1));
    assert_eq!(g.data, vec![-7.0, -8.0]);
    let next = update_h(&h, &g, 0.5, 0.0);
    assert_eq!(next.data, vec![4.5, 5.0]);
    let clipped = update_h(&h, &matrix(vec![vec![4.0], vec![1.0]]), 0.5, 0.0);
    assert_eq!(clipped.data, vec![0.0, 0.5]);
}

#[test]
fn solver_without_iterations_returns_zeros() {
    let w = matrix(vec![vec![1.0, 2.0, 3.0], vec![4.0, 5.0, 6.0]]);
    let v = matrix(vec![vec![1.0, 2.0], vec![3.0, 4.0]]);
    let h = cpu_pgd_nnls(&v, &w, 0, 0.1, 0.0);
    assert_eq!(h.dim(), (3, 2));
    assert_eq!(h.data, vec![0.0; 6]);
}

#[test]
fn solver_takes_one_projected_step() {
    let w = matrix(vec![vec![1.0, 0.0], vec![0.0, 1.0]]);
    let v = matrix(vec![vec![2.0, -4.0], vec![6.0, 8.0]]);
    // From H = 0: W·H − V = −V, Wᵀ(−V) = −V, H = max(0, 0.5·V).
    let h = cpu_pgd_nnls(&v, &w, 1, 0.5, 0.0);
    assert_eq!(h.data, vec![1.0, 0.0, 3.0, 4.0]);
}

#[test]
fn solver_output_is_never_negative() {
    let w = matrix(vec![vec![0.5, -1.0, 0.25], vec![-0.75, 0.5, 1.0], vec![1.0, 0.25, -0.5]]);
    let v = matrix(vec![vec![1.0, -1.0], vec![-0.5, 0.75], vec![0.25, -0.25]]);
    for iters in [0usize, 1, 2, 7, 50] {
        let h = cpu_pgd_nnls(&v, &w, iters, 0.05, 0.0);
        assert_eq!(h.dim(), (3, 2));
        assert!(h.data.iter().all(|x| *x >= 0.0));
    }
}

#[test]
fn solver_handles_empty_shapes() {
    let w = Matrix::from_shape_vec(2, 0, Vec::<f32>::new()).unwrap();
    let v = matrix(vec![vec![1.0, 2.0, 3.0], vec![4.0, 5.0, 6.0]]);
    let h = cpu_pgd_nnls(&v, &w, 3, 0.1, 0.0);
    assert_eq!(h.dim(), (0, 3));

    let w = matrix(vec![vec![1.0, 2.0], vec![3.0, 4.0]]);
    let v = Matrix::from_shape_vec(2, 0, Vec::<f32>::new()).unwrap();
    let h = cpu_pgd_nnls(&v, &w, 3, 0.1, 0.0);
    assert_eq!(h.dim(), (2, 0));
}

#[test]
fn solver_recovers_a_trivial_basis() {
    let w = matrix(vec![
        vec![1.0, 0.0, 0.0, 0.0],
        vec![0.0, 1.0, 0.0, 0.0],
        vec![0.0, 0.0, 1.0, 0.0],
        vec![0.0, 0.0, 0.0, 1.0],
    ]);
    let v = matrix(vec![
        vec![0.0, 0.5, 1.0],
        vec![0.0, -1.0, 1.0],
        vec![1.0, -0.5, 0.0],
        vec![0.0, 0.0, 1.0],
    ]);
    let mut h = cpu_pgd_nnls(&v, &w, 200, 1e-6, 0.0);
    normalize_to_global(&mut h, 0.0);
    let rounded: Vec<f32> = h.data.iter().map(|x| (x * 100000.0).round() / 100000.0).collect();
    assert_eq!(rounded, vec![0.0, 0.5, 1.0, 0.0, 0.0, 1.0, 1.0, 0.0, 0.0, 0.0, 0.0, 1.0]);
}

/// A device that runs the three kernels on the host, over the buffers of the plan.
struct HostDevice {
    plan: DevicePlan<f32>,
    h: Vec<f32>,
    a: Vec<f32>,
    g: Vec<f32>,
}

fn upload(plan: DevicePlan<f32>) -> Result<HostDevice, String> {
    let h = plan.h.clone();
    let a = vec![0.0; plan.residual_len];
    let g = vec![0.0; plan.gradient_len];
    Ok(HostDevice { plan, h, a, g })
}

fn launch(kernel: Kernel, mut device: HostDevice) -> Result<HostDevice, String> {
    let (m, n, r) = (device.plan.m, device.plan.n, device.plan.r);
    match kernel {
        Kernel::GemmWhv => {
            let w = Matrix::from_shape_vec(m, r, device.plan.w.clone()).unwrap();
            let h = Matrix::from_shape_vec(r, n, device.h.clone()).unwrap();
            let v = Matrix::from_shape_vec(m, n, device.plan.v.clone()).unwrap();
            device.a = gemm_wh_minus_v(&w, &h, &v, 0.0).data;
        }
        Kernel::GemmGrad => {
            let w_t = Matrix::from_shape_vec(r, m, device.plan.w_t.clone()).unwrap();
            let a = Matrix::from_shape_vec(m, n, device.a.clone()).unwrap();
            let nothing = Matrix::filled(r, n, 0.0f32);
            device.g = gemm_wh_minus_v(&w_t, &a, &nothing, 0.0).data;
        }
        Kernel::UpdateH => {
            let h = Matrix::from_shape_vec(r, n, device.h.clone()).unwrap();
            let g = Matrix::from_shape_vec(r, n, device.g.clone()).unwrap();
            device.h = update_h(&h, &g, device.plan.step, 0.0).data;
        }
    }
    Ok(device)
}

fn download(device: HostDevice) -> Result<Vec<f32>, String> {
    Ok(device.h)
}

#[test]
fn device_plan_lays_out_the_buffers() {
    let w = matrix(vec![vec![1.0, 2.0, 3.0], vec![4.0, 5.0, 6.0]]);
    let v = matrix(vec![vec![7.0, 8.0, 9.0, 10.0], vec![11.0, 12.0, 13.0, 14.0]]);
    let plan = device_plan(&v, &w, 0.25, 0.0);
    assert_eq!((plan.m, plan.n, plan.r), (2, 4, 3));
    assert_eq!(plan.w, vec![1.0, 2.0, 3.0, 4.0, 5.0, 6.0]);
    assert_eq!(plan.w_t, vec![1.0, 4.0, 2.0, 5.0, 3.0, 6.0]);
    assert_eq!(plan.v, vec![7.0, 8.0, 9.0, 10.0, 11.0, 12.0, 13.0, 14.0]);
    assert_eq!(plan.h, vec![0.0; 12]);
    assert_eq!(plan.step, 0.25);
    assert_eq!(plan.residual_len, 8);
    assert_eq!(plan.gradient_len, 12);
    assert_eq!(plan.work_dims, (3, 4));
    let tall = device_plan(&matrix(vec![vec![1.0]; 5]), &matrix(vec![vec![1.0, 2.0]; 5]), 0.5, 0.0);
    assert_eq!(tall.work_dims, (5, 1));
}

#[test]
fn device_runs_three_kernels_in_order_per_iteration() {
    let w = matrix(vec![vec![1.0, 0.0], vec![0.0, 1.0]]);
    let v = matrix(vec![vec![2.0], vec![4.0]]);
    let seen: Cell<Vec<Kernel>> = Cell::new(Vec::new());
    let recording = |kernel: Kernel, device: HostDevice| {
        let mut so_far = seen.take();
        so_far.push(kernel);
        seen.set(so_far);
        launch(kernel, device)
    };
    pgd_nnls(&v, &w, 3, 0.5, 0.0, &upload, &recording, &download).ok().unwrap();
    assert_eq!(
        seen.take(),
        vec![
            Kernel::GemmWhv, Kernel::GemmGrad, Kernel::UpdateH,
            Kernel::GemmWhv, Kernel::GemmGrad, Kernel::UpdateH,
            Kernel::GemmWhv, Kernel::GemmGrad, Kernel::UpdateH,
        ]
    );
}

fn backends_agree(m: usize, n: usize, r: usize) -> bool {
    // A fixed pseudo-random fill in [-1, 1].
    let mut state: u32 = 12345 + (m * 31 + n * 7 + r) as u32;
    let mut next = move || {
        state = state.wrapping_mul(1664525).wrapping_add(1013904223);
        (state >> 8) as f32 / 8388608.0 - 1.0
    };
    let w = Matrix::from_shape_vec(m, r, (0..m * r).map(|_| next()).collect()).unwrap();
    let v = Matrix::from_shape_vec(m, n, (0..m * n).map(|_| next()).collect()).unwrap();
    let mut host = cpu_pgd_nnls(&v, &w, 40, 1e-3, 0.0);
    let mut device = pgd_nnls(&v, &w, 40, 1e-3, 0.0, &upload, &launch, &download).ok().unwrap();
    normalize_to_global(&mut host, 0.0);
    normalize_to_global(&mut device, 0.0);
    assert_eq!(host.dim(), (r, n));
    assert_eq!(device.dim(), (r, n));
    host.data.iter().zip(&device.data).all(|(a, b)| (a - b).abs() < 1e-7)
}

#[test]
fn host_and_device_agree_on_many_shapes() {
    assert!(backends_agree(32, 16, 64));
    assert!(backends_agree(15, 3, 92));
    assert!(backends_agree(240, 9, 5));
    assert!(backends_agree(1, 1, 1));
}

#[test]
fn device_failure_ends_the_solve() {
    let w = matrix(vec![vec![1.0, 0.0], vec![0.0, 1.0]]);
    let v = matrix(vec![vec![2.0], vec![4.0]]);
    let launches = Cell::new(0usize);
    let failing = |kernel: Kernel, device: HostDevice| {
        launches.set(launches.get() + 1);
        if launches.get() == 5 {
            Err("kernel launch failed".to_string())
        } else {
            launch(kernel, device)
        }
    };
    let outcome = pgd_nnls(&v, &w, 10, 0.5, 0.0, &upload, &failing, &download);
    match outcome {
        Err(SolveError::Device(reason)) => assert_eq!(reason, "kernel launch failed"),
        _ => panic!("the failure of the device was not handed on"),
    }
    assert_eq!(launches.get(), 5);
}

#[test]
fn upload_failure_launches_nothing() {
    let w = matrix(vec![vec![1.0]]);
    let v = matrix(vec![vec![1.0]]);
    let launches = Cell::new(0usize);
    let counting = |kernel: Kernel, device: HostDevice| {
        launches.set(launches.get() + 1);
        launch(kernel, device)
    };
    let no_device = |_plan: DevicePlan<f32>| -> Result<HostDevice, String> { Err("no device".to_string()) };
    let outcome = pgd_nnls(&v, &w, 4, 0.5, 0.0, &no_device, &counting, &download);
    assert!(matches!(outcome, Err(SolveError::Device(reason)) if reason == "no device"));
    assert_eq!(launches.get(), 0);
}

#[test]
fn download_failure_and_wrong_length_are_reported() {
    let w = matrix(vec![vec![1.0]]);
    let v = matrix(vec![vec![1.0]]);
    let unreadable = |_device: HostDevice| -> Result<Vec<f32>, String> { Err("read failed".to_string()) };
    let outcome = pgd_nnls(&v, &w, 1, 0.5, 0.0, &upload, &launch, &unreadable);
    assert!(matches!(outcome, Err(SolveError::Device(reason)) if reason == "read failed"));

    let too_long = |_device: HostDevice| -> Result<Vec<f32>, String> { Ok(vec![0.0, 0.0]) };
    let outcome = pgd_nnls(&v, &w, 1, 0.5, 0.0, &upload, &launch, &too_long);
    assert!(matches!(
        outcome,
        Err(SolveError::Shape(ShapeError::WrongLength { capacity: Some(1), given: 2 }))
    ));
}

#[test]
fn collect_activations_shapes_the_buffer() {
    let h = collect_activations::<f32, String>(Ok(vec![1.0, 2.0, 3.0, 4.0, 5.0, 6.0]), 2, 3).ok().unwrap();
    assert_eq!(h.dim(), (2, 3));
    assert_eq!(h.get(1, 0), Some(4.0));
    let failed = collect_activations::<f32, String>(Err("gone".to_string()), 2, 3);
    assert!(matches!(failed, Err(SolveError::Device(reason)) if reason == "gone"));
}

fn residual_norm(w: &Matrix<f32>, h: &Matrix<f32>, v: &Matrix<f32>) -> f64 {
    gemm_wh_minus_v(w, h, v, 0.0).data.iter().map(|x| (*x as f64) * (*x as f64)).sum::<f64>().sqrt()
}

#[test]
fn small_steps_never_move_away_from_the_data() {
    let w = matrix(vec![vec![0.5, -1.0, 0.25], vec![-0.75, 0.5, 1.0], vec![1.0, 0.25, -0.5], vec![0.1, 0.9, 0.3]]);
    let v = matrix(vec![vec![1.0, -1.0], vec![-0.5, 0.75], vec![0.25, -0.25], vec![0.6, 0.2]]);
    let mut last = residual_norm(&w, &cpu_pgd_nnls(&v, &w, 0, 0.01, 0.0), &v);
    for iters in 1..60 {
        let h = cpu_pgd_nnls(&v, &w, iters, 0.01, 0.0);
        let now = residual_norm(&w, &h, &v);
        assert!(now <= last + 1e-6);
        last = now;
    }
}

#[test]
fn solve_runs_on_the_backend_asked_for() {
    let w = matrix(vec![vec![1.0, 0.0], vec![0.0, 1.0]]);
    let v = matrix(vec![vec![2.0, -4.0], vec![6.0, 8.0]]);
    let launches = Cell::new(0usize);
    let counting = |kernel: Kernel, device: HostDevice| {
        launches.set(launches.get() + 1);
        launch(kernel, device)
    };
    let on_host = solve(Backend::Reference, &v, &w, 2, 0.5, 0.0, &upload, &counting, &download).ok().unwrap();
    assert_eq!(launches.get(), 0);
    let on_device = solve(Backend::Accelerated, &v, &w, 2, 0.5, 0.0, &upload, &counting, &download).ok().unwrap();
    assert_eq!(launches.get(), 6);
    assert_eq!(on_host.data, on_device.data);
    assert_eq!(on_host.data, cpu_pgd_nnls(&v, &w, 2, 0.5, 0.0).data);
}

#[test]
fn solve_does_not_fall_back_to_the_host() {
    let w = matrix(vec![vec![1.0]]);
    let v = matrix(vec![vec![1.0]]);
    let broken = |_kernel: Kernel, _device: HostDevice| -> Result<HostDevice, String> { Err("barrier failed".to_string()) };
    let outcome = solve(Backend::Accelerated, &v, &w, 3, 0.5, 0.0, &upload, &broken, &download);
    assert!(matches!(outcome, Err(SolveError::Device(reason)) if reason == "barrier failed"));
}

/// A matrix filled from a fixed sequence of values spread evenly over [-1, 1).
fn scattered(rows: usize, cols: usize, seed: u32) -> Matrix<f32> {
    let mut state = seed;
    let data = (0..rows * cols)
        .map(|_| {
            state = state.wrapping_mul(1664525).wrapping_add(1013904223);
            (state >> 8) as f32 / 8388608.0 - 1.0
        })
        .collect();
    Matrix::from_shape_vec(rows, cols, data).unwrap()
}

fn nnls_test<F: Fn(&Matrix<f32>, &Matrix<f32>) -> Matrix<f32>>(
    f: F,
    target: &Matrix<f32>,
    chunks: &Matrix<f32>,
) -> Vec<f32> {
    let mut chunks = chunks.clone();
    let mut target = target.clone();

    normalize_to_minus_plus(&mut chunks, 0.0, 1.0);
    normalize_to_minus_plus(&mut target, 0.0, 1.0);

    let mut approx = f(&chunks, &target);

    normalize_to_global(&mut approx, 0.0);

    approx.data
}

fn shape_test(sample_size: usize, chunks: usize, targets: usize) -> bool {
    let chunks = scattered(sample_size, chunks, 7);
    let target = scattered(sample_size, targets, 11);

    let cpu = nnls_test(|target, chunks| cpu_pgd_nnls(target, chunks, 400, 1e-6, 0.0), &target, &chunks);
    let gpu = nnls_test(
        |target, chunks| pgd_nnls(target, chunks, 400, 1e-6, 0.0, &upload, &launch, &download).ok().unwrap(),
        &target,
        &chunks,
    );

    let err = cpu.iter().zip(&gpu).map(|(v1, v2)| v2 - v1).fold(f32::NEG_INFINITY, f32::max);
    return err < 0.0000001;
}

#[test]
fn test_nnls() {
    assert!(shape_test(32, 64, 16), "NNLS failed at 32x64x16");
    assert!(shape_test(15, 92, 3), "NNLS failed at non-mutiple");
    assert!(shape_test(2400, 5, 9), "NNLS failed at real sample size");
}
