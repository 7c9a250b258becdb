use rpn_logic::sat;

fn is_sat(formula: &str) -> bool {
    match sat(formula) {
        Ok(b) => b,
        Err(_) => panic!("Invalid formula"),
    }
}

#[test]
fn sat_subject_tests() {
    assert!(is_sat("AB|"));
    assert!(is_sat("AB&"));
    assert!(!is_sat("AA!&"));
    assert!(!is_sat("AA^"));
}

#[test]
fn satisfiable_tests() {
    assert!(is_sat("A!"));
    assert!(is_sat("A!A^"));
    assert!(is_sat("AB="));
    assert!(is_sat("AB=!"));
    assert!(is_sat("AB>"));
    assert!(is_sat("AB>!"));
    assert!(is_sat("AB=A="));
}

#[test]
fn not_satisfiable_tests() {
    assert!(!is_sat("PQ|P!Q!&&"));
    assert!(!is_sat("BB!="));
    assert!(!is_sat("CC!&CC!|="));
    assert!(!is_sat("DD|D!D!&&"));
    assert!(!is_sat("EE!="));
}

#[test]
fn sat_invalid_formula_empty_string_test() {
    assert!(rpn_logic::sat("").is_err());
}

#[test]
fn sat_invalid_formula_just_spaces_test() {
    assert!(rpn_logic::sat("      ").is_err());
}

#[test]
fn sat_invalid_formula_no_enough_operators_test1() {
    assert!(rpn_logic::sat("AAA!").is_err());
}

#[test]
fn sat_invalid_formula_no_enough_operators_test2() {
    assert!(rpn_logic::sat("A").is_err());
}

#[test]
fn sat_invalid_formula_no_enough_operators_test3() {
    assert!(rpn_logic::sat("AB").is_err());
}

#[test]
fn sat_invalid_formula_no_enough_operators_test4() {
    assert!(rpn_logic::sat("AAC|").is_err());
}

#[test]
fn sat_invalid_formula_no_enough_operators_test5() {
    assert!(rpn_logic::sat("ABCD&=>AB=|CE=F!G=>^^").is_err());
}

#[test]
fn sat_invalid_formula_no_enough_values_test1() {
    assert!(rpn_logic::sat("!").is_err());
}

#[test]
fn sat_invalid_formula_no_enough_values_test2() {
    assert!(rpn_logic::sat("!!!!!").is_err());
}

#[test]
fn sat_invalid_formula_unknown_symbol_test1() {
    assert!(rpn_logic::sat("aY=!)>K^").is_err());
}

#[test]
fn sat_invalid_formula_unknown_symbol_test2() {
    assert!(rpn_logic::sat("&&!!Abcd").is_err());
}

#[test]
fn sat_invalid_formula_unknown_symbol_test3() {
    assert!(rpn_logic::sat("1111&=>11=|11=1!0=>^").is_err());
}

#[test]
fn sat_invalid_formula_unknown_symbol_test4() {
    assert!(rpn_logic::sat("111|").is_err());
}
