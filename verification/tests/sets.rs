use rpn_logic::eval_set;
use rpn_logic::sets::SetEvalError;

fn evaluate(formula: &str, sets: Vec<Vec<i32>>) -> Vec<i32> {
    match eval_set(formula, sets) {
        Ok(v) => v,
        Err(SetEvalError::InvalidFormula) => panic!("Invalid formula"),
        Err(SetEvalError::SetCountMismatch) => {
            panic!("The number of sets should be equal to the number of vars in the formula")
        }
        Err(SetEvalError::DuplicateElements(k)) => {
            panic!("Set with index {} has duplicate elements", k)
        }
    }
}

#[test]
fn set_eval_subject_tests() {
    let mut res: Vec<i32> = evaluate("AB&", vec![vec![0, 1, 2], vec![0, 3, 4]]);
    res.sort();
    assert_eq!(vec![0], res);

    res = evaluate("AB|", vec![vec![0, 1, 2], vec![3, 4, 5]]);
    res.sort();
    assert_eq!(vec![0, 1, 2, 3, 4, 5], res);

    res = evaluate("A!", vec![vec![0, 1, 2]]);
    assert_eq!(vec![] as Vec<i32>, res);
}

#[test]
fn sets_intersection_tests() {
    let mut res: Vec<i32> = evaluate(
        "EF&G&",
        vec![
            vec![-10, 3, 20, 2, 0, 5],
            vec![2, 0, -11, 13, 60, 5],
            vec![-11, 3, 100, 200, 300, 60],
        ],
    );
    res.sort();
    assert_eq!(vec![] as Vec<i32>, res);

    res = evaluate(
        "EF&G&",
        vec![
            vec![-10, 3, 20, 2, 0, 5],
            vec![2, 0, -10, 13, 60, 5],
            vec![-10, 3, 100, 5, 200, 300, 60],
        ],
    );
    res.sort();
    assert_eq!(vec![-10, 5], res);

    res = evaluate(
        "FG!&E&",
        vec![
            vec![-10, 3, 20, 2, 0, 5],
            vec![2, 0, -10, 13, 60, 5],
            vec![-10, 3, 100, 5, 200, 300, 60],
        ],
    );
    res.sort();
    assert_eq!(vec![0, 2], res);

    res = evaluate(
        "FG!&E&!",
        vec![
            vec![-10, 3, 20, 2, 0, 5],
            vec![2, 0, -10, 13, 60, 5],
            vec![-10, 3, 100, 5, 200, 300, 60],
        ],
    );
    res.sort();
    assert_eq!(vec![-10, 3, 5, 13, 20, 60, 100, 200, 300], res);

    res = evaluate("FG&", vec![vec![], vec![-10, 3, 100, 5, 200, 300, 60]]);
    res.sort();
    assert_eq!(vec![] as Vec<i32>, res);

    res = evaluate("F!G&", vec![vec![], vec![-10, 3, 100, 5, 200, 300, 60]]);
    res.sort();
    assert_eq!(vec![-10, 3, 5, 60, 100, 200, 300], res);

    res = evaluate("FF!&", vec![vec![-10, 3, 100, 5, 200, 300, 60]]);
    res.sort();
    assert_eq!(vec![] as Vec<i32>, res);

    res = evaluate("F!F!&", vec![vec![-10, 3, 100, 5, 200, 300, 60]]);
    res.sort();
    assert_eq!(vec![] as Vec<i32>, res);

    res = evaluate(
        "KM&LX&&P&",
        vec![
            vec![-10, 3, 20, 2, 0, 5],
            vec![2, 0, -10, 13, 60, 5],
            vec![-10, 3, 100, 5, 200, 300, 60],
            vec![-10, 3, 100, 5, 200, 300, 60],
            vec![2, 100, 60, 5, -10, 13],
        ],
    );
    res.sort();
    assert_eq!(vec![-10, 5], res);

    res = evaluate(
        "KM&LX&&P&!",
        vec![
            vec![-10, 3, 20, 2, 0, 5],
            vec![2, 0, -10, 13, 60, 5],
            vec![-10, 3, 100, 5, 200, 300, 60],
            vec![-10, 3, 100, 5, 200, 300, 60],
            vec![2, 100, 60, 5, -10, 13],
        ],
    );
    res.sort();
    assert_eq!(vec![0, 2, 3, 13, 20, 60, 100, 200, 300], res);
}

#[test]
fn sets_union_tests() {
    let mut res: Vec<i32> = evaluate(
        "EF|G|",
        vec![
            vec![-10, 3, 20, 2, 0, 5],
            vec![2, 0, -11, 13, 60, 5],
            vec![-11, 3, 100, 200, 300, 60],
        ],
    );
    res.sort();
    assert_eq!(vec![-11, -10, 0, 2, 3, 5, 13, 20, 60, 100, 200, 300], res);

    res = evaluate(
        "FG!|E|",
        vec![
            vec![-10, 3, 20, 2, 0, 5],
            vec![2, 0, -10, 13, 60, 5],
            vec![-10, 3, 100, 5, 200, 300, 60],
        ],
    );
    res.sort();
    assert_eq!(vec![-10, 0, 2, 3, 5, 13, 20, 60], res);

    res = evaluate(
        "FG!|E|!",
        vec![
            vec![-10, 3, 20, 2, 0, 5],
            vec![2, 0, -10, 13, 60, 5],
            vec![-10, 3, 100, 5, 200, 300, 60],
        ],
    );
    res.sort();
    assert_eq!(vec![100, 200, 300], res);

    res = evaluate("FG|", vec![vec![], vec![-10, 3, 100, 5, 200, 300, 60]]);
    res.sort();
    assert_eq!(vec![-10, 3, 5, 60, 100, 200, 300], res);

    res = evaluate("F!G|", vec![vec![], vec![-10, 3, 100, 5, 200, 300, 60]]);
    res.sort();
    assert_eq!(vec![-10, 3, 5, 60, 100, 200, 300], res);

    res = evaluate("FF!|", vec![vec![-10, 3, 100, 5, 200, 300, 60]]);
    res.sort();
    assert_eq!(vec![-10, 3, 5, 60, 100, 200, 300], res);

    res = evaluate("F!F!|", vec![vec![-10, 3, 100, 5, 200, 300, 60]]);
    res.sort();
    assert_eq!(vec![] as Vec<i32>, res);

    res = evaluate(
        "KM|LX||P|",
        vec![
            vec![-10, 3, 20, 2, 0, 5],
            vec![2, 0, -10, 13, 60, 5],
            vec![-10, 3, 100, 5, 200, 300, 60],
            vec![-10, 3, 100, 5, 200, 300, 60],
            vec![2, 100, 60, 5, -10, 13],
        ],
    );
    res.sort();
    assert_eq!(vec![-10, 0, 2, 3, 5, 13, 20, 60, 100, 200, 300], res);

    res = evaluate(
        "KM|LX||P|!",
        vec![
            vec![-10, 3, 20, 2, 0, 5],
            vec![2, 0, -10, 13, 60, 5],
            vec![-10, 3, 100, 5, 200, 300, 60],
            vec![-10, 3, 100, 5, 200, 300, 60],
            vec![2, 100, 60, 5, -10, 13],
        ],
    );
    res.sort();
    assert_eq!(vec![] as Vec<i32>, res);
}

#[test]
fn sets_equivalence_tests() {
    let mut res: Vec<i32> = evaluate(
        "AB=",
        vec![vec![-10, 3, 20, 2, 0, 5], vec![2, 0, -10, 13, 60, 5]],
    );
    res.sort();
    assert_eq!(vec![-10, 0, 2, 5], res);

    res = evaluate(
        "AB=!",
        vec![vec![-10, 3, 20, 2, 0, 5], vec![2, 0, -10, 13, 60, 5]],
    );
    res.sort();
    assert_eq!(vec![3, 13, 20, 60], res);

    res = evaluate("AA!=", vec![vec![-10, 3, 20, 2, 0, 5]]);
    res.sort();
    assert_eq!(vec![] as Vec<i32>, res);
}

#[test]
fn sets_implication_tests() {
    let mut res: Vec<i32> = evaluate(
        "AB>",
        vec![vec![-10, 3, 20, 2, 0, 5], vec![2, 0, -10, 13, 60, 5]],
    );
    res.sort();
    assert_eq!(vec![-10, 0, 2, 5, 13, 60], res);

    res = evaluate(
        "AB>!",
        vec![vec![-10, 3, 20, 2, 0, 5], vec![2, 0, -10, 13, 60, 5]],
    );
    res.sort();
    assert_eq!(vec![3, 20], res);

    res = evaluate("AA!>", vec![vec![-10, 3, 20, 2, 0, 5]]);
    res.sort();
    assert_eq!(vec![] as Vec<i32>, res);
}

#[test]
fn sets_xor_tests() {
    let mut res: Vec<i32> = evaluate(
        "AB^",
        vec![vec![-10, 3, 20, 2, 0, 5], vec![2, 0, -10, 13, 60, 5]],
    );
    res.sort();
    assert_eq!(vec![3, 13, 20, 60], res);

    res = evaluate(
        "AB^!",
        vec![vec![-10, 3, 20, 2, 0, 5], vec![2, 0, -10, 13, 60, 5]],
    );
    res.sort();
    assert_eq!(vec![-10, 0, 2, 5], res);

    res = evaluate("AA!^", vec![vec![-10, 3, 20, 2, 0, 5]]);
    res.sort();
    assert_eq!(vec![-10, 0, 2, 3, 5, 20], res);
}

#[test]
fn sets_mixed_tests() {
    let mut res: Vec<i32> = evaluate(
        "AB&C|D^",
        vec![
            vec![-10, 3, 20, 2, 0, 5],
            vec![2, 0, -10, 13, 60, 5],
            vec![1, 3],
            vec![],
        ],
    );
    res.sort();
    assert_eq!(vec![-10, 0, 1, 2, 3, 5], res);

    res = evaluate("K!L|F&", vec![vec![1, -1], vec![0, 2], vec![100, -100]]);
    res.sort();
    assert_eq!(vec![-1, 1], res);

    res = evaluate(
        "XY=U>RT&|",
        vec![
            vec![42, 1337],
            vec![80],
            vec![-55, 0, 1],
            vec![1, 2, -1],
            vec![],
        ],
    );
    res.sort();
    assert_eq!(vec![-55, -1, 0, 1, 2], res);
}

#[test]
#[should_panic(expected = "The number of sets should be equal to the number of vars in the formula")]
fn number_of_vars_greater_than_number_of_sets() {
    evaluate("AB&C|", vec![vec![1, 2, 3], vec![1, 2, 3]]);
}

#[test]
#[should_panic(expected = "The number of sets should be equal to the number of vars in the formula")]
fn number_of_vars_lesser_than_number_of_sets() {
    evaluate(
        "AB&",
        vec![
            vec![1, 2, 3],
            vec![1, 2, 3],
            vec![1, 2, 3],
            vec![1, 2, 3],
            vec![1, 2, 3],
        ],
    );
}

#[test]
#[should_panic(expected = "Set with index 1 has duplicate elements")]
fn set_with_duplicate_element() {
    evaluate("AB&", vec![vec![1, 2, 3], vec![1, 2, 3, 3]]);
}

#[test]
fn sets_invalid_formula_empty_string_test() {
    assert!(matches!(
        eval_set("", vec![]),
        Err(SetEvalError::InvalidFormula)
    ));
}

#[test]
fn sets_invalid_formula_just_spaces_test() {
    assert!(matches!(
        eval_set("      ", vec![]),
        Err(SetEvalError::InvalidFormula)
    ));
}

#[test]
fn sets_invalid_formula_no_enough_operators_test1() {
    assert!(matches!(
        eval_set("AAA!", vec![]),
        Err(SetEvalError::InvalidFormula)
    ));
}

#[test]
fn sets_invalid_formula_no_enough_operators_test2() {
    assert!(matches!(
        eval_set("A", vec![]),
        Err(SetEvalError::InvalidFormula)
    ));
}

#[test]
fn sets_invalid_formula_no_enough_operators_test3() {
    assert!(matches!(
        eval_set("AB", vec![]),
        Err(SetEvalError::InvalidFormula)
    ));
}

#[test]
fn sets_invalid_formula_no_enough_operators_test4() {
    assert!(matches!(
        eval_set("AAC|", vec![]),
        Err(SetEvalError::InvalidFormula)
    ));
}

#[test]
fn sets_invalid_formula_no_enough_operators_test5() {
    assert!(matches!(
        eval_set("ABCD&=>AB=|CE=F!G=>^^", vec![]),
        Err(SetEvalError::InvalidFormula)
    ));
}

#[test]
fn sets_invalid_formula_no_enough_values_test1() {
    assert!(matches!(
        eval_set("!", vec![]),
        Err(SetEvalError::InvalidFormula)
    ));
}

#[test]
fn sets_invalid_formula_no_enough_values_test2() {
    assert!(matches!(
        eval_set("!!!!!", vec![]),
        Err(SetEvalError::InvalidFormula)
    ));
}

#[test]
fn sets_invalid_formula_unknown_symbol_test1() {
    assert!(matches!(
        eval_set("aY=!)>K^", vec![]),
        Err(SetEvalError::InvalidFormula)
    ));
}

#[test]
fn sets_invalid_formula_unknown_symbol_test2() {
    assert!(matches!(
        eval_set("&&!!Abcd", vec![]),
        Err(SetEvalError::InvalidFormula)
    ));
}

#[test]
fn sets_invalid_formula_unknown_symbol_test3() {
    assert!(matches!(
        eval_set("1111&=>11=|11=1!0=>^", vec![]),
        Err(SetEvalError::InvalidFormula)
    ));
}

#[test]
fn sets_invalid_formula_unknown_symbol_test4() {
    assert!(matches!(
        eval_set("111|", vec![]),
        Err(SetEvalError::InvalidFormula)
    ));
}
