use zk_toolkit::assembly::{eq_to_assembly, evaluate_expression, AssembleEquation, AssemblyError};
use zk_toolkit::field::Fr;
use zk_toolkit::program::Program;

fn fr(x: i64) -> Fr {
    Fr::from_i64(x)
}

fn key(s: &str) -> Option<String> {
    Some(s.to_string())
}

fn coeff(a: &AssembleEquation, k: &str) -> Option<Fr> {
    a.coeffs.iter().find(|(kk, _)| kk.as_deref() == Some(k)).map(|(_, v)| *v)
}

fn assemble_all(eqs: &[&str]) -> Vec<AssembleEquation> {
    eqs.iter().map(|e| eq_to_assembly(e).unwrap()).collect()
}

#[test]
fn test_make_s_polynomials() {
    let program = Program::new(assemble_all(&["c <== a * b", "b <== a * e"]), 8);
    let (s1, s2, _s3) = program.make_s_polynomials();
    let w = Fr::get_root_of_unity(8).unwrap();
    // Cell (row 0, left) holds `a`, whose previous use in its cycle is (row 1, left).
    assert_eq!(s1.values[0], w);
    // Cell (row 0, right) holds `b`, whose previous use is (row 1, output).
    assert_eq!(s2.values[0], fr(3).mul(&w));
}

#[test]
fn test_make_gate_polynomials() {
    let program = Program::new(assemble_all(&["e public", "c <== a * b", "e <== c * d"]), 8);
    let (l, r, m, o, c) = program.make_gate_polynomials();
    assert_eq!(l.values.len(), 8);
    assert_eq!(r.values.len(), 8);
    assert_eq!(c.values.len(), 8);
    // The public declaration: L = 1, O = 0.
    assert_eq!(l.values[0], fr(1));
    assert_eq!(o.values[0], fr(0));
    // `c <== a * b`: M = -1, O = 1.
    assert_eq!(m.values[1], fr(-1));
    assert_eq!(o.values[1], fr(1));
    // Rows past the constraints are zero.
    assert_eq!(m.values[5], fr(0));
    assert_eq!(o.values[7], fr(0));
}

#[test]
fn assembly_of_a_constant_equation() {
    let a = eq_to_assembly("a === 9").unwrap();
    assert_eq!(a.wires.L, None);
    assert_eq!(a.wires.R, None);
    assert_eq!(a.wires.O, key("a"));
    assert_eq!(a.coeffs.len(), 1);
    assert_eq!(coeff(&a, ""), Some(fr(9)));
}

#[test]
fn assembly_of_a_product() {
    let a = eq_to_assembly("b <== a * c").unwrap();
    assert_eq!(a.wires.L, key("a"));
    assert_eq!(a.wires.R, key("c"));
    assert_eq!(a.wires.O, key("b"));
    assert_eq!(a.coeffs.len(), 1);
    assert_eq!(coeff(&a, "a*c"), Some(fr(1)));
}

#[test]
fn assembly_of_a_mixed_equation() {
    let a = eq_to_assembly("d <== a * c - 45 * a + 987").unwrap();
    assert_eq!(a.wires.L, key("a"));
    assert_eq!(a.wires.R, key("c"));
    assert_eq!(a.wires.O, key("d"));
    assert_eq!(coeff(&a, "a*c"), Some(fr(1)));
    assert_eq!(coeff(&a, "a"), Some(fr(-45)));
    assert_eq!(coeff(&a, ""), Some(fr(987)));
    assert_eq!(a.coeffs.len(), 3);
    let g = a.gate();
    assert_eq!(g.L, fr(45));
    assert_eq!(g.R, fr(0));
    assert_eq!(g.M, fr(-1));
    assert_eq!(g.O, fr(1));
    assert_eq!(g.C, fr(-987));
}

#[test]
fn assembly_refusals() {
    assert_eq!(eq_to_assembly("7 === 7").err(), Some(AssemblyError::InvalidOutput));
    assert_eq!(eq_to_assembly("a <== b * * c").err(), Some(AssemblyError::InvalidExpression));
    assert_eq!(eq_to_assembly("e <== a + b * c * d").err(), Some(AssemblyError::TooManyVariables));
    assert_eq!(eq_to_assembly("e <== a * b * a").err(), Some(AssemblyError::DisallowedMultiplication));
    assert_eq!(eq_to_assembly("a").err(), Some(AssemblyError::MissingOperator));
    assert_eq!(eq_to_assembly("a := b").err(), Some(AssemblyError::UnsupportedOp));
}

#[test]
fn assembly_of_a_negated_output_and_public_input() {
    let a = eq_to_assembly("  -c === a * b ").unwrap();
    assert_eq!(a.wires.O, key("c"));
    assert_eq!(coeff(&a, "$output_coeff"), Some(fr(-1)));
    assert_eq!(a.gate().O, fr(-1));
    let p = eq_to_assembly("x public").unwrap();
    assert_eq!(p.wires.L, key("x"));
    assert_eq!(p.wires.R, None);
    assert_eq!(coeff(&p, "x"), Some(fr(-1)));
    assert_eq!(coeff(&p, "$output_coeff"), Some(fr(0)));
    assert_eq!(coeff(&p, "$public"), Some(fr(1)));
}

#[test]
fn expression_to_coefficients() {
    let m = evaluate_expression(&["a", "+", "b", "*", "c", "*", "5"], false).unwrap();
    assert_eq!(m, vec![(key("a"), fr(1)), (key("b*c"), fr(5))]);
    let n = evaluate_expression(&["-a", "-", "2", "*", "b"], false).unwrap();
    assert_eq!(n, vec![(key("a"), fr(-1)), (key("b"), fr(-2))]);
    let sq = evaluate_expression(&["x", "*", "x", "+", "x", "*", "x"], false).unwrap();
    assert_eq!(sq, vec![(key("x*x"), fr(2))]);
    assert_eq!(evaluate_expression(&["a", "b"], false), Err(AssemblyError::InvalidExpression));
    assert_eq!(evaluate_expression(&["3a"], false), Err(AssemblyError::InvalidExpression));
    let empty: [&str; 0] = [];
    assert_eq!(evaluate_expression(&empty, false), Err(AssemblyError::InvalidExpression));
}

#[test]
fn filling_in_assignments() {
    let program = Program::from_str("c <== a * b\nd <== c + 2\r\n", 8).unwrap();
    assert_eq!(program.constraints.len(), 2);
    let out = program
        .fill_variable_assignments(vec![(key("a"), fr(3)), (key("b"), fr(5))])
        .unwrap();
    let get = |k: &str| out.iter().find(|(kk, _)| kk.as_deref() == Some(k)).map(|(_, v)| *v);
    assert_eq!(get("c"), Some(fr(15)));
    assert_eq!(get("d"), Some(fr(17)));
    assert_eq!(
        program.fill_variable_assignments(vec![(key("a"), fr(3))]).err(),
        Some(AssemblyError::UnassignedVariable)
    );
    assert_eq!(
        program
            .fill_variable_assignments(vec![(key("a"), fr(3)), (key("b"), fr(5)), (key("c"), fr(1))])
            .err(),
        Some(AssemblyError::InconsistentAssignment)
    );
}

#[test]
fn public_assignment_order() {
    let program = Program::new_with_string(
        vec!["e public".to_string(), "c <== a * b".to_string()],
        8,
    )
    .unwrap();
    assert_eq!(program.get_public_assignment(), Ok(vec![key("e")]));
    let late = Program::new(assemble_all(&["c <== a * b", "e public"]), 8);
    assert_eq!(late.get_public_assignment(), Err(AssemblyError::PublicAfterConstraint));
    assert_eq!(
        Program::new_with_string(vec!["c <== a * b".to_string(), "7 === 7".to_string()], 8).err(),
        Some(AssemblyError::InvalidOutput)
    );
}

#[test]
fn preprocessed_input_of_a_program() {
    let program = Program::new(assemble_all(&["c <== a * b", "b <== a * e"]), 8);
    let pir = program.common_preproccessed_input();
    assert_eq!(pir.group_order, 8);
    assert_eq!(pir.QM.values[0], fr(-1));
    assert_eq!(pir.QO.values[1], fr(1));
    let w = Fr::get_root_of_unity(8).unwrap();
    assert_eq!(pir.S1.values[0], w);
    // Cell (row 2, left) is the first empty cell; the empty cells form one
    // cycle, so it takes the label of the last one, (row 7, output).
    assert_eq!(pir.S1.values[2], fr(3).mul(&w.pow(7)));
}

#[test]
fn public_declaration_of_a_reserved_name_keeps_one_entry_per_key() {
    let p = eq_to_assembly("$public public").unwrap();
    assert_eq!(p.coeffs.len(), 2);
    assert_eq!(coeff(&p, "$public"), Some(fr(1)));
    assert_eq!(coeff(&p, "$output_coeff"), Some(fr(0)));
}
