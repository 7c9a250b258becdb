use rpn_logic::eval_formula;

fn ev(formula: &str) -> bool {
    match eval_formula(formula) {
        Ok(b) => b,
        Err(_) => panic!("Invalid formula"),
    }
}

#[test]
fn subject_tests() {
    assert!(!ev("10&"));
    assert!(ev("10|"));
    assert!(ev("11>"));
    assert!(!ev("10="));
    assert!(ev("1011||="));
}

#[test]
fn logical_and_tests() {
    assert!(ev("11&"));
    assert!(ev("11&11&&"));
    assert!(!ev("10&11&&"));
    assert!(!ev("01&"));
    assert!(!ev("10&"));
    assert!(!ev("00&"));
    assert!(!ev("11&1&0&1&"));
    assert!(ev("111&&"));
    assert!(!ev("111&&0&"));
    assert!(ev("1111&&&11&&11&1&1&&"));
    assert!(!ev("1111&&&10&&11&1&1&&"));
}

#[test]
fn logical_or_tests() {
    assert!(ev("11|"));
    assert!(ev("01|"));
    assert!(ev("10|"));
    assert!(!ev("00|"));
    assert!(!ev("00|00||"));
    assert!(!ev("01|00|&"));
    assert!(ev("11|1|0|1|"));
    assert!(ev("111||"));
    assert!(ev("111||0|"));
    assert!(ev("1111|||11||11|1|1||"));
    assert!(!ev("0000|||00||00|0|0||"));
    assert!(ev("1111|||10||11|1|1||"));
}

#[test]
fn logical_xor_tests() {
    assert!(ev("10^"));
    assert!(ev("01^"));
    assert!(!ev("11^"));
    assert!(!ev("00^"));
    assert!(!ev("11^11^^"));
    assert!(ev("10^11^^"));
    assert!(!ev("11^1^0^1^"));
    assert!(ev("111^^"));
    assert!(ev("111^^0^"));
    assert!(!ev("1111^^^11^^11^1^1^^"));
    assert!(!ev("0000^^^00^^00^0^0^^"));
    assert!(ev("1111^^^10^^11^1^1^^"));
}

#[test]
fn material_condition_tests() {
    assert!(!ev("10>"));
    assert!(ev("11>"));
    assert!(ev("01>"));
    assert!(ev("00>"));
    assert!(ev("110>>01>0>>"));
    assert!(!ev("110>>1>0>"));
    assert!(ev("1111>>>11>>11>1>1>>"));
    assert!(!ev("1111>>>11>>11>1>0>>"));
    assert!(ev("0000>>>00>>00>0>0>>"));
    assert!(ev("1111>>>10>>11>1>1>>"));
    assert!(!ev("111>0>>"));
}

#[test]
fn logical_equivalence_tests() {
    assert!(ev("11="));
    assert!(!ev("01="));
    assert!(!ev("10="));
    assert!(ev("00="));
    assert!(!ev("110==01=0=="));
    assert!(ev("110==1=0="));
    assert!(ev("1111===11==11=1=1=="));
    assert!(!ev("1111===11==11=1=0=="));
    assert!(ev("0000===00==00=0=0=="));
    assert!(!ev("1111===10==11=1=1=="));
}

#[test]
fn logical_not_tests() {
    assert!(!ev("1!"));
    assert!(!ev("1!!!!!!!!!!!!!"));
    assert!(ev("0!"));
    assert!(ev("0!!!!!!!!!!!!!!!"));
    assert!(!ev("0!!"));
    assert!(!ev("1!0|"));
    assert!(ev("1!0!!!|1="));
    assert!(ev("10&!1|"));
    assert!(ev("0!0!&"));
    assert!(!ev("1!1!&"));
}

#[test]
fn all_operators_tests() {
    assert!(!ev("1111&=>11=|11=1!0=>^"));
    assert!(!ev("1111&=>11=|11=10!=>^"));
    assert!(!ev("1111&=>11=|11=10=!>^"));
    assert!(!ev("11^!11&=0>11=|11=10=!>^"));
    assert!(!ev("1!1^11&=1>11=|11=10=!>^"));
    assert!(ev("11!1^1&=!11=|11=10=!>^!"));
    assert!(ev("10>10>01>&="));
    assert!(!ev("10&11|&"));
}

#[test]
#[should_panic(expected = "Invalid formula")]
fn invalid_formula_empty_string_test() {
    ev("");
}

#[test]
#[should_panic(expected = "Invalid formula")]
fn invalid_formula_just_spaces_test() {
    ev("      ");
}

#[test]
#[should_panic(expected = "Invalid formula")]
fn invalid_formula_no_enough_operators_test2() {
    ev("1");
}

#[test]
#[should_panic(expected = "Invalid formula")]
fn invalid_formula_no_enough_operators_test3() {
    ev("10");
}

#[test]
#[should_panic(expected = "Invalid formula")]
fn invalid_formula_no_enough_operators_test4() {
    ev("111|");
}

#[test]
#[should_panic(expected = "Invalid formula")]
fn invalid_formula_no_enough_operators_test5() {
    ev("110&!");
}

#[test]
#[should_panic(expected = "Invalid formula")]
fn invalid_formula_no_enough_operators_test6() {
    ev("1111&=>11=|11=1!0=>^&");
}

#[test]
#[should_panic(expected = "Invalid formula")]
fn invalid_formula_no_enough_values_test1() {
    ev("!");
}

#[test]
#[should_panic(expected = "Invalid formula")]
fn invalid_formula_no_enough_values_test2() {
    ev("!!!!!");
}

#[test]
#[should_panic(expected = "Invalid formula")]
fn invalid_formula_unknown_symbol_test1() {
    ev("aY=!)>K^");
}

#[test]
#[should_panic(expected = "Invalid formula")]
fn invalid_formula_unknown_symbol_test2() {
    ev("&&!!Abcd");
}

#[test]
#[should_panic(expected = "Invalid formula")]
fn invalid_formula_unknown_symbol_test3() {
    ev("ABCX&=>11=|11=1!0=>^");
}

#[test]
fn invalid_formula_variables_unbound_test() {
    assert!(rpn_logic::eval_formula("AB&").is_err());
}
