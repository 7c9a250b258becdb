use rpn_logic::negation_normal_form;

fn nnf(formula: &str) -> String {
    match negation_normal_form(formula) {
        Ok(s) => s,
        Err(_) => panic!("Invalid formula"),
    }
}

#[test]
fn lib_subject_tests() {
    assert_eq!("A!B!|", nnf("AB&!"));
    assert_eq!("A!B!&", nnf("AB|!"));
    assert_eq!("A!B|", nnf("AB>"));
    assert_eq!("A!B|B!A|&", nnf("AB="));
    assert_eq!("A!B!&C!|", nnf("AB|C&!"));
}

#[test]
fn more_tests() {
    assert_eq!("A", nnf("A!!"));
    assert_eq!("A!B&", nnf("A!B&"));
    assert_eq!("AB&C!D!|&", nnf("AB&!CD&|!"));
    assert_eq!("EF!&FE!&|M!N|N!M|&|MN!&NM!&|E!F|F!E|&|&", nnf("EF=MN=="));
    assert_eq!("A!B!C!||", nnf("ABC&!>"));
    assert_eq!("AB|", nnf("A!B>"));
    assert_eq!("A!B!&", nnf("A!B>!"));
    assert_eq!("A!CK&&", nnf("ACK&!|!"));
    assert_eq!("AB!&BA!&|", nnf("AB^"));
    assert_eq!("A!B|B!A|&", nnf("AB^!"));
    assert_eq!("A!B|B!A|&C|", nnf("AB^C>"));
}

#[test]
fn nnf_no_rewritten_operators_left() {
    // every output is free of '>', '=', '^', and '!' only follows a variable
    for f in ["EF=MN==", "AB^C>", "ABC&!>", "AB=B>D^", "XY=!X>K^"] {
        let out = nnf(f);
        assert!(!out.contains('>'));
        assert!(!out.contains('='));
        assert!(!out.contains('^'));
        let chars: Vec<char> = out.chars().collect();
        for (i, c) in chars.iter().enumerate() {
            if *c == '!' {
                assert!(i > 0);
                assert!(chars[i - 1].is_ascii_uppercase());
            }
        }
    }
}

#[test]
fn nnf_invalid_formula_empty_string_test() {
    assert!(rpn_logic::negation_normal_form("").is_err());
}

#[test]
fn nnf_invalid_formula_just_spaces_test() {
    assert!(rpn_logic::negation_normal_form("      ").is_err());
}

#[test]
fn nnf_invalid_formula_no_enough_operators_test1() {
    assert!(rpn_logic::negation_normal_form("AAA!").is_err());
}

#[test]
fn nnf_invalid_formula_no_enough_operators_test2() {
    assert!(rpn_logic::negation_normal_form("A").is_err());
}

#[test]
fn nnf_invalid_formula_no_enough_operators_test3() {
    assert!(rpn_logic::negation_normal_form("AB").is_err());
}

#[test]
fn nnf_invalid_formula_no_enough_operators_test4() {
    assert!(rpn_logic::negation_normal_form("AAC|").is_err());
}

#[test]
fn nnf_invalid_formula_no_enough_operators_test5() {
    assert!(rpn_logic::negation_normal_form("ABCD&=>AB=|CE=F!G=>^^").is_err());
}

#[test]
fn nnf_invalid_formula_no_enough_values_test1() {
    assert!(rpn_logic::negation_normal_form("!").is_err());
}

#[test]
fn nnf_invalid_formula_no_enough_values_test2() {
    assert!(rpn_logic::negation_normal_form("!!!!!").is_err());
}

#[test]
fn nnf_invalid_formula_unknown_symbol_test1() {
    assert!(rpn_logic::negation_normal_form("aY=!)>K^").is_err());
}

#[test]
fn nnf_invalid_formula_unknown_symbol_test2() {
    assert!(rpn_logic::negation_normal_form("&&!!Abcd").is_err());
}

#[test]
fn nnf_invalid_formula_unknown_symbol_test3() {
    assert!(rpn_logic::negation_normal_form("1111&=>11=|11=1!0=>^").is_err());
}

#[test]
fn nnf_invalid_formula_unknown_symbol_test4() {
    assert!(rpn_logic::negation_normal_form("111|").is_err());
}
