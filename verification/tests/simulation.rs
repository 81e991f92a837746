//! End-to-end Monte Carlo runs: the verified core (compiler, Filtration,
//! incrementors, uniform sources) driven by the floating-point kernels a
//! consumer supplies around it.

use evalexpr::{build_operator_tree, ContextWithMutableVariables, DefaultNumericTypes, Value};
use sde_sim::compile::{parse_equations, BindingKind};
use sde_sim::filtration::Filtration;
use sde_sim::increment::Incrementor;
use sde_sim::process::build_processes;
use sde_sim::rng::{PseudoRng, SobolRng, XORScrambler};

// ----- the floating-point kernels around the verified core -----

enum Backend {
    Pseudo(PseudoRng),
    Sobol(SobolRng),
}

impl Backend {
    fn sample(&mut self, t: usize, s: usize, i: usize) -> u64 {
        match self {
            Backend::Pseudo(r) => r.sample(t, s, i),
            Backend::Sobol(r) => r.sample(t, s, i),
        }
    }
}

fn uniform(u: u64) -> f64 {
    (u >> 11) as f64 * (1.0 / 9007199254740992.0)
}

/// The classical rational approximation of the inverse normal CDF.
fn inverse_normal_cdf(p: f64) -> f64 {
    let t = if p < 0.5 {
        (-2.0 * p.ln()).sqrt()
    } else {
        (-2.0 * (1.0 - p).ln()).sqrt()
    };
    let c0 = 2.515517;
    let c1 = 0.802853;
    let c2 = 0.010328;
    let d1 = 1.432788;
    let d2 = 0.189269;
    let d3 = 0.001308;
    let x = t - ((c2 * t + c1) * t + c0) / (((d3 * t + d2) * t + d1) * t + 1.0);
    if p < 0.5 { -x } else { x }
}

/// Smallest k with Poisson(k; lambda) CDF >= u, capped at 200.
fn inverse_poisson_cdf(u: f64, lambda: f64) -> u64 {
    if lambda <= 0.0 {
        return 0;
    }
    let mut p = (-lambda).exp();
    let mut f = p;
    let mut k: u64 = 0;
    while u > f && k < 200 {
        k += 1;
        p *= lambda / (k as f64);
        f += p;
    }
    k
}

fn sample_increment(inc: &mut Incrementor, t: usize, s: usize, rng: &mut Backend) -> f64 {
    match inc {
        Incrementor::Time(ti) => f64::from_bits(ti.sample(t)),
        Incrementor::Wiener(w) => {
            if let Some(bits) = w.cached(t, s) {
                return f64::from_bits(bits);
            }
            let u = uniform(rng.sample(t, s, w.source_index()));
            let val = f64::from_bits(w.sqrt_dt(t)) * inverse_normal_cdf(u);
            w.record(t, s, val.to_bits());
            val
        }
        Incrementor::Jump(j) => {
            if let Some(bits) = j.cached(t, s) {
                return f64::from_bits(bits);
            }
            let u = uniform(rng.sample(t, s, j.source_index()));
            let lambda: f64 = j.lambda_text().parse().unwrap();
            let eff = lambda * f64::from_bits(j.dt(t));
            let val = inverse_poisson_cdf(u, eff) as f64;
            j.record(t, s, val.to_bits());
            val
        }
    }
}

struct Coef {
    node: evalexpr::Node<DefaultNumericTypes>,
    bindings: Vec<(String, BindingKind)>,
}

impl Coef {
    fn eval(&self, row: &[u64], t_real: f64) -> f64 {
        let mut ctx = evalexpr::HashMapContext::<DefaultNumericTypes>::new();
        for (name, kind) in &self.bindings {
            let v = match kind {
                BindingKind::Time => t_real,
                BindingKind::Process(p) => f64::from_bits(row[*p]),
            };
            ctx.set_value(name.clone(), Value::from_float(v)).ok();
        }
        self.node.eval_number_with_context(&ctx).unwrap_or(0.0)
    }
}

struct RunProc {
    coefs: Vec<Coef>,
    incs: Vec<Incrementor>,
}

struct Engine {
    filtration: Filtration,
    scratch: Filtration,
    procs: Vec<RunProc>,
    times: Vec<f64>,
    backend: Backend,
    signs: XORScrambler,
    num_scenarios: usize,
}

fn make_engine(
    equations: &[&str],
    times: Vec<f64>,
    num_scenarios: i32,
    initial: &[(&str, f64)],
    backend_kind: &str,
    seed: u64,
) -> Engine {
    let texts: Vec<String> = equations.iter().map(|s| s.to_string()).collect();
    let sys = parse_equations(&texts).unwrap();
    let time_bits: Vec<u64> = times.iter().map(|t| t.to_bits()).collect();
    let dts: Vec<u64> = times.windows(2).map(|w| (w[1] - w[0]).to_bits()).collect();
    let sqrt_dts: Vec<u64> = times.windows(2).map(|w| (w[1] - w[0]).sqrt().to_bits()).collect();
    let lib_procs = build_processes(&sys, &dts, &sqrt_dts);
    let procs: Vec<RunProc> = lib_procs
        .into_iter()
        .map(|p| RunProc {
            coefs: p
                .coefficients
                .iter()
                .map(|c| Coef {
                    node: build_operator_tree::<DefaultNumericTypes>(&c.expr).unwrap(),
                    bindings: c.bindings.iter().map(|b| (b.name.clone(), b.kind)).collect(),
                })
                .collect(),
            incs: p.incrementors,
        })
        .collect();
    let names = sys.process_names.clone();
    let init: Vec<(String, u64)> =
        initial.iter().map(|(n, v)| (n.to_string(), v.to_bits())).collect();
    let filtration = Filtration::new(
        time_bits,
        (1..=num_scenarios).collect(),
        names.clone(),
        Some(init),
    );
    let scratch = Filtration::new(vec![times[0].to_bits()], vec![0], names, None);
    let k = sys.num_sources();
    let backend = match backend_kind {
        "pseudo" => Backend::Pseudo(PseudoRng::from_seed(k, seed)),
        "sobol" => Backend::Sobol(SobolRng::from_seed(k, times.len(), seed)),
        other => panic!("unknown rng selector: {}", other),
    };
    Engine {
        filtration,
        scratch,
        procs,
        times,
        backend,
        signs: XORScrambler::from_seed(seed.wrapping_add(1)),
        num_scenarios: num_scenarios as usize,
    }
}

fn euler_step(e: &mut Engine, s: usize, t: usize) {
    let row = e.filtration.row_slice(s, t);
    let t_real = e.times[t];
    let mut new_row: Vec<u64> = Vec::with_capacity(e.procs.len());
    for proc in e.procs.iter_mut() {
        let p_idx = new_row.len();
        let mut val = f64::from_bits(row[p_idx]);
        for (coef, inc) in proc.coefs.iter().zip(proc.incs.iter_mut()) {
            let c = coef.eval(&row, t_real);
            let d = sample_increment(inc, t, s, &mut e.backend);
            val += c * d;
        }
        new_row.push(val.to_bits());
    }
    e.filtration.set_row(s, t + 1, &new_row);
}

fn runge_kutta_step(e: &mut Engine, s: usize, t: usize) {
    let row = e.filtration.row_slice(s, t);
    let t_real = e.times[t];
    let dt = e.times[t + 1] - e.times[t];
    let sqrt_dt = dt.sqrt();
    let sk = if e.signs.draw_sign() { 1.0 } else { -1.0 };
    let p_count = e.procs.len();
    let mut k1 = vec![0.0f64; p_count];
    let mut scratch_row: Vec<u64> = Vec::with_capacity(p_count);
    for (p_idx, proc) in e.procs.iter_mut().enumerate() {
        let mut step_k1 = 0.0f64;
        for (j, (coef, inc)) in proc.coefs.iter().zip(proc.incs.iter_mut()).enumerate() {
            let c = coef.eval(&row, t_real);
            let d = sample_increment(inc, t, s, &mut e.backend);
            step_k1 += if j == 0 { c * d } else { c * (d - sk * sqrt_dt) };
        }
        k1[p_idx] = step_k1;
        scratch_row.push((f64::from_bits(row[p_idx]) + step_k1).to_bits());
    }
    e.scratch.set_row(0, 0, &scratch_row);
    let srow = e.scratch.row_slice(0, 0);
    let mut k2 = vec![0.0f64; p_count];
    for (p_idx, proc) in e.procs.iter_mut().enumerate() {
        let mut step_k2 = 0.0f64;
        for (j, (coef, inc)) in proc.coefs.iter().zip(proc.incs.iter_mut()).enumerate() {
            let c = coef.eval(&srow, t_real);
            let d = sample_increment(inc, t, s, &mut e.backend);
            step_k2 += if j == 0 { c * d } else { c * (d + sk * sqrt_dt) };
        }
        k2[p_idx] = step_k2;
    }
    let mut new_row: Vec<u64> = Vec::with_capacity(p_count);
    for p_idx in 0..p_count {
        new_row.push((f64::from_bits(row[p_idx]) + 0.5 * (k1[p_idx] + k2[p_idx])).to_bits());
    }
    e.filtration.set_row(s, t + 1, &new_row);
}

fn simulate(e: &mut Engine, scheme: &str) {
    let steps = e.times.len() - 1;
    for s in 0..e.num_scenarios {
        for t in 0..steps {
            match scheme {
                "euler" => euler_step(e, s, t),
                "runge-kutta" => runge_kutta_step(e, s, t),
                other => panic!("unknown scheme: {}", other),
            }
        }
    }
}

fn run(
    equations: &[&str],
    times: Vec<f64>,
    num_scenarios: i32,
    initial: &[(&str, f64)],
    backend_kind: &str,
    scheme: &str,
    seed: u64,
) -> Filtration {
    let mut e = make_engine(equations, times, num_scenarios, initial, backend_kind, seed);
    simulate(&mut e, scheme);
    e.filtration
}

fn grid(t_start: f64, dt: f64, n: usize) -> Vec<f64> {
    (0..n).map(|i| t_start + i as f64 * dt).collect()
}

fn value(f: &Filtration, s: usize, t: usize, p: usize) -> f64 {
    f64::from_bits(f.get(s, t, p))
}

// ----- the scenarios -----

#[test]
fn s1_constant_drift_is_exact() {
    let f = run(&["dX = (2) * dt"], grid(0.0, 1.0, 6), 1, &[("X", 0.0)], "pseudo", "euler", 1);
    for t in 0..6 {
        assert_eq!(value(&f, 0, t, 0), 2.0 * t as f64);
    }
}

#[test]
fn degenerate_zero_equation_stays_at_its_initial_value() {
    let f = run(
        &["dX = (0) * dt + (0) * dW1"],
        grid(0.0, 0.25, 9),
        50,
        &[("X", 1.0)],
        "pseudo",
        "euler",
        2,
    );
    for s in 0..50 {
        for t in 0..9 {
            assert_eq!(value(&f, s, t, 0), 1.0);
        }
    }
}

#[test]
fn s2_gbm_terminal_mean_matches_exp_drift() {
    let f = run(
        &["dX = (0.1*X) * dt + (0.2*X) * dW1"],
        grid(0.0, 0.01, 101),
        20000,
        &[("X", 1.0)],
        "pseudo",
        "euler",
        3,
    );
    let mut sum = 0.0;
    for s in 0..20000 {
        sum += value(&f, s, 100, 0);
    }
    let mean = sum / 20000.0;
    assert!((mean - 0.1f64.exp()).abs() < 0.005, "mean X(1) = {}", mean);
}

#[test]
fn s3_pure_jump_mean_and_variance() {
    let f = run(
        &["dN = (1) * dJ1(0.3)"],
        grid(0.0, 1.0, 11),
        20000,
        &[("N", 0.0)],
        "pseudo",
        "euler",
        4,
    );
    let count = 20000usize;
    let mut sum = 0.0;
    let mut sumsq = 0.0;
    for s in 0..count {
        let x = value(&f, s, 10, 0);
        sum += x;
        sumsq += x * x;
    }
    let mean = sum / count as f64;
    let var = sumsq / count as f64 - mean * mean;
    assert!((mean - 3.0).abs() < 0.05, "mean N(10) = {}", mean);
    assert!((var - 3.0).abs() < 0.1, "var N(10) = {}", var);
}

#[test]
fn s4_shared_brownian_keeps_processes_identical() {
    let f = run(
        &["dX1 = (0) * dt + (1) * dW1", "dX2 = (0) * dt + (1) * dW1"],
        grid(0.0, 0.1, 11),
        200,
        &[("X1", 0.0), ("X2", 0.0)],
        "pseudo",
        "euler",
        5,
    );
    for s in 0..200 {
        for t in 0..11 {
            assert_eq!(f.get(s, t, 0), f.get(s, t, 1));
        }
    }
}

#[test]
fn independent_brownians_decorrelate() {
    let f = run(
        &["dX1 = (0) * dt + (1) * dW1", "dX2 = (0) * dt + (1) * dW2"],
        grid(0.0, 0.1, 11),
        20000,
        &[("X1", 0.0), ("X2", 0.0)],
        "pseudo",
        "euler",
        6,
    );
    let count = 20000usize;
    let (mut sx, mut sy, mut sxx, mut syy, mut sxy) = (0.0, 0.0, 0.0, 0.0, 0.0);
    for s in 0..count {
        let x = value(&f, s, 10, 0);
        let y = value(&f, s, 10, 1);
        sx += x;
        sy += y;
        sxx += x * x;
        syy += y * y;
        sxy += x * y;
    }
    let n = count as f64;
    let cov = sxy / n - (sx / n) * (sy / n);
    let vx = sxx / n - (sx / n) * (sx / n);
    let vy = syy / n - (sy / n) * (sy / n);
    let corr = cov / (vx * vy).sqrt();
    assert!(corr.abs() < 0.05, "corr = {}", corr);
}

#[test]
fn s5_runge_kutta_error_decays_at_least_as_fast_as_euler() {
    let truth = 0.1f64.exp();
    let mut last_ratio_ok = true;
    for (k, dt) in [0.1f64, 0.05, 0.025].iter().enumerate() {
        let n = (1.0 / *dt).round() as usize + 1;
        let eqs = ["dX = (0.1*X) * dt + (0.2*X) * dW1"];
        let fe = run(&eqs, grid(0.0, *dt, n), 50000, &[("X", 1.0)], "pseudo", "euler", 7 + k as u64);
        let fr = run(
            &eqs,
            grid(0.0, *dt, n),
            50000,
            &[("X", 1.0)],
            "pseudo",
            "runge-kutta",
            7 + k as u64,
        );
        let mut se = 0.0;
        let mut sr = 0.0;
        for s in 0..50000 {
            se += value(&fe, s, n - 1, 0);
            sr += value(&fr, s, n - 1, 0);
        }
        let err_e = (se / 50000.0 - truth).abs();
        let err_r = (sr / 50000.0 - truth).abs();
        // with both schemes on the same draws, the Runge-Kutta terminal
        // mean must not trail Euler's beyond the Monte-Carlo band
        if err_r > err_e + 0.002 {
            last_ratio_ok = false;
        }
    }
    assert!(last_ratio_ok);
}

#[test]
fn euler_and_runge_kutta_agree_bit_for_bit_on_pure_drift() {
    let eqs = ["dX = (2) * dt"];
    let fe = run(&eqs, grid(0.0, 0.5, 7), 3, &[("X", 1.0)], "pseudo", "euler", 8);
    let fr = run(&eqs, grid(0.0, 0.5, 7), 3, &[("X", 1.0)], "pseudo", "runge-kutta", 8);
    for s in 0..3 {
        for t in 0..7 {
            assert_eq!(fe.get(s, t, 0), fr.get(s, t, 0));
        }
    }
}

#[test]
fn pseudo_and_sobol_agree_bit_for_bit_without_noise() {
    let eqs = ["dX = (0.5*X) * dt + (0) * dW1"];
    let fp = run(&eqs, grid(0.0, 0.25, 5), 4, &[("X", 1.0)], "pseudo", "euler", 9);
    let fs = run(&eqs, grid(0.0, 0.25, 5), 4, &[("X", 1.0)], "sobol", "euler", 10);
    for s in 0..4 {
        for t in 0..5 {
            assert_eq!(fp.get(s, t, 0), fs.get(s, t, 0));
        }
    }
}

#[test]
fn s6_sobol_runs_with_pinned_seeds_are_bit_identical() {
    let eqs = ["dX = (0.1*X) * dt + (0.2*X) * dW1"];
    let fa = run(&eqs, grid(0.0, 0.1, 11), 50, &[("X", 1.0)], "sobol", "euler", 11);
    let fb = run(&eqs, grid(0.0, 0.1, 11), 50, &[("X", 1.0)], "sobol", "euler", 11);
    let ra = fa.materialise();
    let rb = fb.materialise();
    assert_eq!(ra.len(), rb.len());
    for (a, b) in ra.iter().zip(rb.iter()) {
        assert_eq!(a.value, b.value);
        assert_eq!(a.time, b.time);
        assert_eq!(a.scenario, b.scenario);
    }
}

#[test]
fn materialised_output_has_s_times_n_times_p_records() {
    let f = run(
        &["dX1 = (1) * dt", "dX2 = (t) * dt"],
        grid(0.0, 1.0, 4),
        3,
        &[("X1", 0.0), ("X2", 0.0)],
        "pseudo",
        "euler",
        12,
    );
    let recs = f.materialise();
    assert_eq!(recs.len(), 3 * 4 * 2);
}

#[test]
fn time_variable_binds_to_the_running_time() {
    // dX = (t) * dt accumulates sum of t over the grid left endpoints
    let f = run(&["dX = (t) * dt"], grid(0.0, 1.0, 4), 1, &[("X", 0.0)], "pseudo", "euler", 13);
    assert_eq!(value(&f, 0, 1, 0), 0.0);
    assert_eq!(value(&f, 0, 2, 0), 1.0);
    assert_eq!(value(&f, 0, 3, 0), 3.0);
}

#[test]
fn runge_kutta_scratchpad_keeps_its_shape() {
    let mut e = make_engine(
        &["dX1 = (0.1*X1) * dt + (0.2*X1) * dW1", "dX2 = (1) * dt"],
        grid(0.0, 0.5, 5),
        10,
        &[("X1", 1.0), ("X2", 0.0)],
        "pseudo",
        14,
    );
    simulate(&mut e, "runge-kutta");
    // the one-row scratchpad still holds exactly one row of P processes
    assert_eq!(e.scratch.row_slice(0, 0).len(), 2);
    assert_eq!(e.scratch.materialise().len(), 2);
}
