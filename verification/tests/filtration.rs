use sde_sim::filtration::Filtration;

fn bits(v: f64) -> u64 {
    v.to_bits()
}

fn to_f64(b: u64) -> f64 {
    f64::from_bits(b)
}

fn names(list: &[&str]) -> Vec<String> {
    list.iter().map(|s| s.to_string()).collect()
}

#[test]
fn construction_seeds_the_first_row_by_name() {
    let times = vec![bits(0.0), bits(1.0), bits(2.0)];
    let scenarios = vec![1, 2];
    let f = Filtration::new(
        times,
        scenarios,
        names(&["X", "Y"]),
        Some(vec![("X".to_string(), bits(1.5))]),
    );
    for s in 0..2 {
        assert_eq!(to_f64(f.get(s, 0, 0)), 1.5);
        assert_eq!(to_f64(f.get(s, 0, 1)), 0.0);
        for t in 1..3 {
            assert_eq!(to_f64(f.get(s, t, 0)), 0.0);
            assert_eq!(to_f64(f.get(s, t, 1)), 0.0);
        }
    }
}

#[test]
fn absent_initial_map_leaves_zeros() {
    let f = Filtration::new(vec![bits(0.0), bits(1.0)], vec![7], names(&["X"]), None);
    assert_eq!(to_f64(f.get(0, 0, 0)), 0.0);
    assert_eq!(to_f64(f.get(0, 1, 0)), 0.0);
}

#[test]
fn first_matching_initial_pair_wins() {
    let f = Filtration::new(
        vec![bits(0.0)],
        vec![1],
        names(&["X"]),
        Some(vec![("X".to_string(), bits(2.0)), ("X".to_string(), bits(9.0))]),
    );
    assert_eq!(to_f64(f.get(0, 0, 0)), 2.0);
}

#[test]
fn set_and_get_round_trip() {
    let mut f = Filtration::new(vec![bits(0.0), bits(1.0)], vec![1, 2, 3], names(&["A", "B"]), None);
    f.set(2, 1, 0, bits(4.25));
    assert_eq!(to_f64(f.get(2, 1, 0)), 4.25);
    assert_eq!(to_f64(f.get(2, 1, 1)), 0.0);
    assert_eq!(to_f64(f.get(1, 1, 0)), 0.0);
}

#[test]
fn name_keyed_value_and_set_value() {
    let mut f = Filtration::new(
        vec![bits(0.0), bits(0.5)],
        vec![10, 20],
        names(&["X", "Y"]),
        None,
    );
    f.set_value(bits(0.5), 20, "Y", bits(3.0));
    assert_eq!(to_f64(f.value(bits(0.5), 20, "Y").unwrap()), 3.0);
    assert_eq!(to_f64(f.value(bits(0.0), 10, "X").unwrap()), 0.0);
    assert!(f.value(bits(9.0), 10, "X").is_err());
    assert!(f.value(bits(0.0), 99, "X").is_err());
    assert!(f.value(bits(0.0), 10, "Z").is_err());
    // a write with an unknown key changes nothing
    f.set_value(bits(0.0), 99, "X", bits(8.0));
    assert_eq!(to_f64(f.value(bits(0.0), 10, "X").unwrap()), 0.0);
}

#[test]
fn row_slice_snapshots_one_row() {
    let mut f = Filtration::new(vec![bits(0.0), bits(1.0)], vec![1], names(&["A", "B", "C"]), None);
    f.set(0, 1, 0, bits(1.0));
    f.set(0, 1, 1, bits(2.0));
    f.set(0, 1, 2, bits(3.0));
    let row = f.row_slice(0, 1);
    assert_eq!(row.iter().map(|b| to_f64(*b)).collect::<Vec<f64>>(), vec![1.0, 2.0, 3.0]);
    assert_eq!(f.row_slice(0, 0).len(), 3);
}

#[test]
fn set_row_writes_exactly_one_row() {
    let mut f = Filtration::new(vec![bits(0.0), bits(1.0)], vec![1, 2], names(&["A", "B"]), None);
    f.set_row(1, 1, &vec![bits(5.0), bits(6.0)]);
    assert_eq!(to_f64(f.get(1, 1, 0)), 5.0);
    assert_eq!(to_f64(f.get(1, 1, 1)), 6.0);
    assert_eq!(to_f64(f.get(0, 1, 0)), 0.0);
    assert_eq!(to_f64(f.get(1, 0, 0)), 0.0);
}

#[test]
fn materialise_emits_every_triple_once_in_order() {
    let times = vec![bits(0.0), bits(1.0)];
    let scenarios = vec![5, 6];
    let mut f = Filtration::new(times, scenarios, names(&["X", "Y"]), None);
    f.set(1, 1, 1, bits(7.0));
    let recs = f.materialise();
    assert_eq!(recs.len(), 2 * 2 * 2);
    // scenario outer, time middle, process inner
    let expect = [
        (0.0, 5, "X"),
        (0.0, 5, "Y"),
        (1.0, 5, "X"),
        (1.0, 5, "Y"),
        (0.0, 6, "X"),
        (0.0, 6, "Y"),
        (1.0, 6, "X"),
        (1.0, 6, "Y"),
    ];
    for (k, (t, s, p)) in expect.iter().enumerate() {
        assert_eq!(to_f64(recs[k].time), *t);
        assert_eq!(recs[k].scenario, *s);
        assert_eq!(recs[k].process_name, *p);
    }
    assert_eq!(to_f64(recs[7].value), 7.0);
    assert_eq!(to_f64(recs[0].value), 0.0);
    // every triple appears exactly once
    let mut seen = std::collections::HashSet::new();
    for r in &recs {
        assert!(seen.insert((r.time, r.scenario, r.process_name.clone())));
    }
}
