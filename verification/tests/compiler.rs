use sde_sim::compile::{parse_equations, BindingKind, FaultKind, IncSpec};

fn eqs(list: &[&str]) -> Vec<String> {
    list.iter().map(|s| s.to_string()).collect()
}

#[test]
fn constant_drift_equation_compiles() {
    let sys = parse_equations(&eqs(&["dX = (2) * dt"])).unwrap();
    assert_eq!(sys.process_names.len(), 1);
    assert_eq!(sys.process_names[0], "X");
    assert_eq!(sys.equations.len(), 1);
    assert_eq!(sys.equations[0].name, "X");
    assert_eq!(sys.equations[0].terms.len(), 1);
    assert_eq!(sys.equations[0].terms[0].expr, "2");
    assert!(matches!(sys.equations[0].terms[0].inc, IncSpec::Dt));
    assert!(sys.equations[0].terms[0].bindings.is_empty());
    assert_eq!(sys.num_sources(), 0);
}

#[test]
fn gbm_equation_compiles_with_bindings() {
    let sys = parse_equations(&eqs(&["dX = (0.1*X) * dt + (0.2*X) * dW1"])).unwrap();
    let eq = &sys.equations[0];
    assert_eq!(eq.terms.len(), 2);
    assert!(matches!(eq.terms[0].inc, IncSpec::Dt));
    match &eq.terms[1].inc {
        IncSpec::Wiener { token, source } => {
            assert_eq!(token, "W1");
            assert_eq!(*source, 0);
        }
        other => panic!("expected a Wiener incrementor, got {:?}", other),
    }
    assert_eq!(eq.terms[0].bindings.len(), 1);
    assert_eq!(eq.terms[0].bindings[0].name, "X");
    assert!(matches!(eq.terms[0].bindings[0].kind, BindingKind::Process(0)));
    assert_eq!(sys.num_sources(), 1);
}

#[test]
fn time_and_process_bindings_deduplicate_in_first_seen_order() {
    let sys = parse_equations(&eqs(&["dX = (X + t*X + t) * dt"])).unwrap();
    let bindings = &sys.equations[0].terms[0].bindings;
    assert_eq!(bindings.len(), 2);
    assert_eq!(bindings[0].name, "X");
    assert!(matches!(bindings[0].kind, BindingKind::Process(0)));
    assert_eq!(bindings[1].name, "t");
    assert!(matches!(bindings[1].kind, BindingKind::Time));
}

#[test]
fn shared_token_shares_one_source_index() {
    let sys = parse_equations(&eqs(&[
        "dX1 = (0) * dt + (1) * dW1",
        "dX2 = (0) * dt + (1) * dW1 + (1) * dW2",
    ]))
    .unwrap();
    let s1 = match &sys.equations[0].terms[1].inc {
        IncSpec::Wiener { source, .. } => *source,
        _ => panic!("expected Wiener"),
    };
    let s2 = match &sys.equations[1].terms[1].inc {
        IncSpec::Wiener { source, .. } => *source,
        _ => panic!("expected Wiener"),
    };
    let s3 = match &sys.equations[1].terms[2].inc {
        IncSpec::Wiener { source, .. } => *source,
        _ => panic!("expected Wiener"),
    };
    assert_eq!(s1, 0);
    assert_eq!(s2, 0);
    assert_eq!(s3, 1);
    assert_eq!(sys.num_sources(), 2);
    assert_eq!(sys.source_tokens, vec!["W1".to_string(), "W2".to_string()]);
}

#[test]
fn jump_term_keeps_its_intensity_literal() {
    let sys = parse_equations(&eqs(&["dN = (1) * dJ1(0.3)"])).unwrap();
    let eq = &sys.equations[0];
    assert_eq!(eq.terms.len(), 1);
    match &eq.terms[0].inc {
        IncSpec::Jump { token, lambda, source } => {
            assert_eq!(token, "J1");
            assert_eq!(lambda, "0.3");
            assert_eq!(*source, 0);
        }
        other => panic!("expected a jump incrementor, got {:?}", other),
    }
}

#[test]
fn dt_term_moves_to_the_drift_slot() {
    let sys = parse_equations(&eqs(&["dX = (1) * dW1 + (2) * dt"])).unwrap();
    let eq = &sys.equations[0];
    assert_eq!(eq.terms.len(), 2);
    assert!(matches!(eq.terms[0].inc, IncSpec::Dt));
    assert_eq!(eq.terms[0].expr, "2");
    assert!(matches!(eq.terms[1].inc, IncSpec::Wiener { .. }));
    assert_eq!(eq.terms[1].expr, "1");
}

#[test]
fn whitespace_is_free() {
    let sys = parse_equations(&eqs(&["  dX1   =  ( 0.5 * X1 )  *   dW1   +  (1)*dt "])).unwrap();
    assert_eq!(sys.equations[0].name, "X1");
    assert_eq!(sys.equations[0].terms.len(), 2);
    assert!(matches!(sys.equations[0].terms[0].inc, IncSpec::Dt));
}

#[test]
fn nested_parentheses_stay_inside_the_coefficient() {
    let sys = parse_equations(&eqs(&["dX = ((1 + (2 * 3))) * dt"])).unwrap();
    assert_eq!(sys.equations[0].terms[0].expr, "(1 + (2 * 3))");
}

#[test]
fn empty_input_is_refused() {
    let e = parse_equations(&Vec::new()).unwrap_err();
    assert_eq!(e.kind, FaultKind::EmptyInput);
    assert_eq!(e.equation, 0);
}

#[test]
fn missing_equals_is_refused() {
    let e = parse_equations(&eqs(&["dX (1) * dt"])).unwrap_err();
    assert_eq!(e.kind, FaultKind::MissingEquals);
}

#[test]
fn missing_name_is_refused() {
    let e = parse_equations(&eqs(&["X = (1) * dt"])).unwrap_err();
    assert_eq!(e.kind, FaultKind::MissingName);
}

#[test]
fn unknown_incrementor_is_refused() {
    let e = parse_equations(&eqs(&["dX = (1) * dQ1"])).unwrap_err();
    assert_eq!(e.kind, FaultKind::UnknownIncrementor);
}

#[test]
fn jump_without_intensity_is_refused() {
    let e = parse_equations(&eqs(&["dX = (1) * dJ1"])).unwrap_err();
    assert_eq!(e.kind, FaultKind::MissingLambda);
}

#[test]
fn jump_with_malformed_intensity_is_refused() {
    let e = parse_equations(&eqs(&["dX = (1) * dJ1(x)"])).unwrap_err();
    assert_eq!(e.kind, FaultKind::BadLambda);
    let e2 = parse_equations(&eqs(&["dX = (1) * dJ1(1.2.3)"])).unwrap_err();
    assert_eq!(e2.kind, FaultKind::BadLambda);
}

#[test]
fn unbalanced_parentheses_are_refused() {
    let e = parse_equations(&eqs(&["dX = ((1) * dt"])).unwrap_err();
    assert_eq!(e.kind, FaultKind::UnbalancedParens);
}

#[test]
fn trailing_text_is_refused() {
    let e = parse_equations(&eqs(&["dX = (1) * dt garbage"])).unwrap_err();
    assert_eq!(e.kind, FaultKind::TrailingInput);
}

#[test]
fn missing_star_is_refused() {
    let e = parse_equations(&eqs(&["dX = (1) dt"])).unwrap_err();
    assert_eq!(e.kind, FaultKind::MissingStar);
}

#[test]
fn term_without_coefficient_is_refused() {
    let e = parse_equations(&eqs(&["dX = 1 * dt"])).unwrap_err();
    assert_eq!(e.kind, FaultKind::MissingCoefficient);
}

#[test]
fn duplicate_process_names_are_refused() {
    let e = parse_equations(&eqs(&["dX = (1) * dt", "dX = (2) * dt"])).unwrap_err();
    assert_eq!(e.kind, FaultKind::DuplicateName);
    assert_eq!(e.equation, 1);
}

#[test]
fn unknown_identifier_is_refused() {
    let e = parse_equations(&eqs(&["dX = (Y + 1) * dt"])).unwrap_err();
    assert_eq!(e.kind, FaultKind::UnknownIdentifier);
}

#[test]
fn dt_with_a_suffix_is_not_the_time_incrementor() {
    let e = parse_equations(&eqs(&["dX = (1) * dtfoo"])).unwrap_err();
    assert_eq!(e.kind, FaultKind::UnknownIncrementor);
}

#[test]
fn bare_wiener_token_is_accepted() {
    let sys = parse_equations(&eqs(&["dX = (1) * dW"])).unwrap();
    match &sys.equations[0].terms[0].inc {
        IncSpec::Wiener { token, source } => {
            assert_eq!(token, "W");
            assert_eq!(*source, 0);
        }
        other => panic!("expected a Wiener incrementor, got {:?}", other),
    }
}

#[test]
fn negative_intensity_is_refused() {
    let e = parse_equations(&eqs(&["dX = (1) * dJ1(-0.3)"])).unwrap_err();
    assert_eq!(e.kind, FaultKind::BadLambda);
}

#[test]
fn zero_intensity_is_refused() {
    // the intensity must be a positive literal
    let e = parse_equations(&eqs(&["dX = (1) * dJ1(0)"])).unwrap_err();
    assert_eq!(e.kind, FaultKind::BadLambda);
    let e2 = parse_equations(&eqs(&["dX = (1) * dJ1(0.00)"])).unwrap_err();
    assert_eq!(e2.kind, FaultKind::BadLambda);
    assert!(parse_equations(&eqs(&["dX = (1) * dJ1(0.05)"])).is_ok());
}

#[test]
fn cross_process_references_resolve() {
    let sys = parse_equations(&eqs(&[
        "dX1 = (0.1 * X2) * dt",
        "dX2 = (0.2 * X1) * dt",
    ]))
    .unwrap();
    assert!(matches!(
        sys.equations[0].terms[0].bindings[0].kind,
        BindingKind::Process(1)
    ));
    assert!(matches!(
        sys.equations[1].terms[0].bindings[0].kind,
        BindingKind::Process(0)
    ));
}

#[test]
fn expression_the_engine_rejects_is_refused() {
    // an unmatched double quote is a tokenizer error in the engine
    let e = parse_equations(&eqs(&["dX = (1 + \") * dt"])).unwrap_err();
    assert_eq!(e.kind, FaultKind::ExprRejected);
}

#[test]
fn fault_messages_describe_the_fault() {
    let e = parse_equations(&eqs(&["dX (1) * dt"])).unwrap_err();
    assert!(e.message().contains("'='"));
}

#[test]
fn first_structural_fault_wins_over_later_semantic_fault() {
    // Equation 0 has an unknown identifier (a resolve-time fault); equation
    // 1 is structurally broken.  The name pass and the structural pass run
    // first, so the structural fault at equation 1 is the one reported.
    let e = parse_equations(&eqs(&["dX = (Y) * dt", "dZ = (1) dt"])).unwrap_err();
    assert_eq!(e.equation, 1);
    assert_eq!(e.kind, FaultKind::MissingStar);
}
