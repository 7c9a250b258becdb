use rpn_logic::conjunctive_normal_form;
use rpn_logic::eval_formula;

fn cnf(formula: &str) -> String {
    match conjunctive_normal_form(formula) {
        Ok(s) => s,
        Err(_) => panic!("Invalid formula"),
    }
}

#[test]
fn cnf_subject_tests() {
    assert_eq!("A!B!|", cnf("AB&!"));
    assert_eq!("A!B!&", cnf("AB|!"));
    assert_eq!("AB|C&", cnf("AB|C&"));
    assert_eq!("AB|C|D|", cnf("AB|C|D|"));
    assert_eq!("ABCD&&&", cnf("AB&C&D&"));
    assert_eq!("A!B!|C!|", cnf("AB&!C!|"));
    assert_eq!("A!B!C!&&", cnf("AB|!C!&"));
}

#[test]
fn lib_more_tests() {
    assert_eq!(
        "CK|L|M|CK|L|M!|CK|L!|M|CK!|L|M|CK!|L|M!|&&&&",
        cnf("ML&KL&|C|")
    );
    assert_eq!("CK|L!|M|CK!|L|M!|&", cnf("ML^KL=>C|"));
    assert_eq!("A!A&", cnf("A!A&"));
    assert_eq!("A!", cnf("A!"));
    assert_eq!("AB|C|AB|C!|A!B|C|A!B!|C|&&&", cnf("AB|!AC!&^!"));
    assert_eq!("AB|D|AB!|D!|A!B|D!|A!B!|D!|&&&", cnf("AB=B>D^"));
    assert_eq!("AB|", cnf("AB=B="));
    assert_eq!("AB|D|", cnf("AB=B=D|"));
    assert_eq!("AB|D|AB!|D|A!B!|D|&&", cnf("AB>D>"));
}

#[test]
fn cnf_output_shape() {
    // a '|' never applies to a subtree that holds a '&': in RPN text, once
    // a '&' has appeared, no later operator may be a '|'
    for f in ["ML&KL&|C|", "ML^KL=>C|", "AB|!AC!&^!", "AB=B>D^", "AB>D>", "AB&C&D&"] {
        let out = cnf(f);
        let mut seen_and = false;
        for c in out.chars() {
            if c == '&' {
                seen_and = true;
            }
            if seen_and {
                assert!(c == '&');
            }
        }
    }
}

#[test]
fn cnf_agrees_with_evaluation() {
    // substituting every assignment into the formula and into its
    // conjunctive normal form gives the same value
    for f in ["AB>D>", "ML^KL=>C|", "AB&!C!|", "AB|!C!&"] {
        let out = cnf(f);
        let mut vars: Vec<char> = f.chars().filter(|c| c.is_ascii_uppercase()).collect();
        vars.sort();
        vars.dedup();
        let n = vars.len();
        for row in 0..(1u32 << n) {
            let assign = |s: &str| -> String {
                s.chars()
                    .map(|c| match vars.iter().position(|v| *v == c) {
                        Some(k) => {
                            if row & (1 << (n - 1 - k)) != 0 {
                                '1'
                            } else {
                                '0'
                            }
                        }
                        None => c,
                    })
                    .collect()
            };
            let a = eval_formula(&assign(f)).unwrap_or_else(|_| panic!("Invalid formula"));
            let b = eval_formula(&assign(&out)).unwrap_or_else(|_| panic!("Invalid formula"));
            assert_eq!(a, b);
        }
    }
}

#[test]
fn cnf_invalid_formula_empty_string_test() {
    assert!(rpn_logic::conjunctive_normal_form("").is_err());
}

#[test]
fn cnf_invalid_formula_just_spaces_test() {
    assert!(rpn_logic::conjunctive_normal_form("      ").is_err());
}

#[test]
fn cnf_invalid_formula_no_enough_operators_test1() {
    assert!(rpn_logic::conjunctive_normal_form("AAA!").is_err());
}

#[test]
fn cnf_invalid_formula_no_enough_operators_test2() {
    assert!(rpn_logic::conjunctive_normal_form("A").is_err());
}

#[test]
fn cnf_invalid_formula_no_enough_operators_test3() {
    assert!(rpn_logic::conjunctive_normal_form("AB").is_err());
}

#[test]
fn cnf_invalid_formula_no_enough_operators_test4() {
    assert!(rpn_logic::conjunctive_normal_form("AAC|").is_err());
}

#[test]
fn cnf_invalid_formula_no_enough_operators_test5() {
    assert!(rpn_logic::conjunctive_normal_form("ABCD&=>AB=|CE=F!G=>^^").is_err());
}

#[test]
fn cnf_invalid_formula_no_enough_values_test1() {
    assert!(rpn_logic::conjunctive_normal_form("!").is_err());
}

#[test]
fn cnf_invalid_formula_no_enough_values_test2() {
    assert!(rpn_logic::conjunctive_normal_form("!!!!!").is_err());
}

#[test]
fn cnf_invalid_formula_unknown_symbol_test1() {
    assert!(rpn_logic::conjunctive_normal_form("aY=!)>K^").is_err());
}

#[test]
fn cnf_invalid_formula_unknown_symbol_test2() {
    assert!(rpn_logic::conjunctive_normal_form("&&!!Abcd").is_err());
}

#[test]
fn cnf_invalid_formula_unknown_symbol_test3() {
    assert!(rpn_logic::conjunctive_normal_form("1111&=>11=|11=1!0=>^").is_err());
}

#[test]
fn cnf_invalid_formula_unknown_symbol_test4() {
    assert!(rpn_logic::conjunctive_normal_form("111|").is_err());
}

#[test]
fn move_conjunctions_gathers_all_ands() {
    assert_eq!("ABCD&&&", rpn_logic::move_conjunctions_to_end("AB&C&D&"));
    assert_eq!("A!B!C!&&", rpn_logic::move_conjunctions_to_end("A!B!&C!&"));
    assert_eq!("AB|", rpn_logic::move_conjunctions_to_end("AB|"));
    assert_eq!("", rpn_logic::move_conjunctions_to_end(""));
}
