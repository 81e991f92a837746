use sde_sim::compile::parse_equations;
use sde_sim::increment::{Incrementor, JumpIncrementor, TimeIncrementor, WienerIncrementor};
use sde_sim::process::build_processes;

fn eqs(list: &[&str]) -> Vec<String> {
    list.iter().map(|s| s.to_string()).collect()
}

#[test]
fn built_processes_pair_terms_with_incrementors() {
    let sys = parse_equations(&eqs(&[
        "dX1 = (0.1*X1) * dt + (0.2*X1) * dW1",
        "dX2 = (1) * dJ1(0.5) + (2) * dt",
    ]))
    .unwrap();
    let dts = vec![0.5f64.to_bits(); 3];
    let sqrt_dts = vec![0.5f64.sqrt().to_bits(); 3];
    let procs = build_processes(&sys, &dts, &sqrt_dts);
    assert_eq!(procs.len(), 2);
    assert_eq!(procs[0].name, "X1");
    assert_eq!(procs[1].name, "X2");
    for p in &procs {
        assert_eq!(p.coefficients.len(), p.incrementors.len());
    }
    // the drift slot holds the time incrementor even when dt came second
    assert!(matches!(procs[1].incrementors[0], Incrementor::Time(_)));
    assert_eq!(procs[1].coefficients[0].expr, "2");
    match &procs[0].incrementors[1] {
        Incrementor::Wiener(w) => {
            assert_eq!(w.source_index(), 0);
            assert_eq!(w.sqrt_dt(1), 0.5f64.sqrt().to_bits());
        }
        other => panic!("expected a Wiener incrementor, got position kind {:?}", kind_name(other)),
    }
    match &procs[1].incrementors[1] {
        Incrementor::Jump(j) => {
            assert_eq!(j.source_index(), 1);
            assert_eq!(j.lambda_text(), "0.5");
            assert_eq!(j.dt(0), 0.5f64.to_bits());
        }
        other => panic!("expected a jump incrementor, got {:?}", kind_name(other)),
    }
}

fn kind_name(i: &Incrementor) -> &'static str {
    match i {
        Incrementor::Time(_) => "time",
        Incrementor::Wiener(_) => "wiener",
        Incrementor::Jump(_) => "jump",
    }
}

#[test]
fn time_incrementor_returns_the_step_width() {
    let ti = TimeIncrementor::new(vec![1.0f64.to_bits(), 2.0f64.to_bits()]);
    assert_eq!(f64::from_bits(ti.sample(0)), 1.0);
    assert_eq!(f64::from_bits(ti.sample(1)), 2.0);
}

#[test]
fn wiener_register_caches_exactly_one_step() {
    let mut w = WienerIncrementor::new(3, vec![1.0f64.to_bits()]);
    assert!(w.cached(0, 0).is_none());
    w.record(0, 4, 7.5f64.to_bits());
    assert_eq!(w.cached(0, 4), Some(7.5f64.to_bits()));
    assert!(w.cached(0, 5).is_none());
    assert!(w.cached(1, 4).is_none());
    // a new step evicts the old one
    w.record(1, 4, 8.0f64.to_bits());
    assert!(w.cached(0, 4).is_none());
    assert_eq!(w.cached(1, 4), Some(8.0f64.to_bits()));
    assert_eq!(w.source_index(), 3);
}

#[test]
fn jump_register_caches_exactly_one_step() {
    let mut j = JumpIncrementor::new(1, "0.3".to_string(), vec![1.0f64.to_bits()]);
    assert!(j.cached(0, 0).is_none());
    j.record(0, 0, 2.0f64.to_bits());
    assert_eq!(j.cached(0, 0), Some(2.0f64.to_bits()));
    assert!(j.cached(0, 1).is_none());
    assert_eq!(j.lambda_text(), "0.3");
    assert_eq!(j.source_index(), 1);
}
