use rpn_logic::render_truth_table;

fn build_table(formula: &str) -> Vec<Vec<char>> {
    match render_truth_table(formula) {
        Ok(g) => g,
        Err(_) => panic!("Invalid formula"),
    }
}

fn format_table(table: Vec<Vec<char>>) -> Vec<String> {
    table.iter().map(|v| v.iter().collect()).collect()
}

#[test]
fn basic_tests() {
    let mut formula: &str = "AB&";
    let mut expected: Vec<String> = vec![
        format!("| {} | {} | = |", 'A', 'B'),
        format!("|---|---|---|"),
        format!("| {} | {} | {} |", '0', '0', '0'),
        format!("| {} | {} | {} |", '0', '1', '0'),
        format!("| {} | {} | {} |", '1', '0', '0'),
        format!("| {} | {} | {} |", '1', '1', '1'),
    ];
    let mut res: Vec<String> = format_table(build_table(formula));
    assert_eq!(expected, res);

    formula = "FE|";
    expected = vec![
        format!("| {} | {} | = |", 'E', 'F'),
        format!("|---|---|---|"),
        format!("| {} | {} | {} |", '0', '0', '0'),
        format!("| {} | {} | {} |", '0', '1', '1'),
        format!("| {} | {} | {} |", '1', '0', '1'),
        format!("| {} | {} | {} |", '1', '1', '1'),
    ];
    res = format_table(build_table(formula));
    assert_eq!(expected, res);

    formula = "NM^";
    expected = vec![
        format!("| {} | {} | = |", 'M', 'N'),
        format!("|---|---|---|"),
        format!("| {} | {} | {} |", '0', '0', '0'),
        format!("| {} | {} | {} |", '0', '1', '1'),
        format!("| {} | {} | {} |", '1', '0', '1'),
        format!("| {} | {} | {} |", '1', '1', '0'),
    ];
    res = format_table(build_table(formula));
    assert_eq!(expected, res);

    formula = "KL=";
    expected = vec![
        format!("| {} | {} | = |", 'K', 'L'),
        format!("|---|---|---|"),
        format!("| {} | {} | {} |", '0', '0', '1'),
        format!("| {} | {} | {} |", '0', '1', '0'),
        format!("| {} | {} | {} |", '1', '0', '0'),
        format!("| {} | {} | {} |", '1', '1', '1'),
    ];
    res = format_table(build_table(formula));
    assert_eq!(expected, res);

    formula = "XY>";
    expected = vec![
        format!("| {} | {} | = |", 'X', 'Y'),
        format!("|---|---|---|"),
        format!("| {} | {} | {} |", '0', '0', '1'),
        format!("| {} | {} | {} |", '0', '1', '1'),
        format!("| {} | {} | {} |", '1', '0', '0'),
        format!("| {} | {} | {} |", '1', '1', '1'),
    ];
    res = format_table(build_table(formula));
    assert_eq!(expected, res);

    formula = "A!";
    expected = vec![
        format!("| {} | = |", 'A'),
        format!("|---|---|"),
        format!("| {} | {} |", '0', '1'),
        format!("| {} | {} |", '1', '0'),
    ];
    res = format_table(build_table(formula));
    assert_eq!(expected, res);
}

#[test]
fn advanced_tests() {
    let mut formula: &str = "AB&C|";
    let mut expected: Vec<String> = vec![
        format!("| {} | {} | {} | = |", 'A', 'B', 'C'),
        format!("|---|---|---|---|"),
        format!("| {} | {} | {} | {} |", '0', '0', '0', '0'),
        format!("| {} | {} | {} | {} |", '0', '0', '1', '1'),
        format!("| {} | {} | {} | {} |", '0', '1', '0', '0'),
        format!("| {} | {} | {} | {} |", '0', '1', '1', '1'),
        format!("| {} | {} | {} | {} |", '1', '0', '0', '0'),
        format!("| {} | {} | {} | {} |", '1', '0', '1', '1'),
        format!("| {} | {} | {} | {} |", '1', '1', '0', '1'),
        format!("| {} | {} | {} | {} |", '1', '1', '1', '1'),
    ];
    let mut res: Vec<String> = format_table(build_table(formula));
    assert_eq!(expected, res);

    formula = "AB|C&";
    expected = vec![
        format!("| {} | {} | {} | = |", 'A', 'B', 'C'),
        format!("|---|---|---|---|"),
        format!("| {} | {} | {} | {} |", '0', '0', '0', '0'),
        format!("| {} | {} | {} | {} |", '0', '0', '1', '0'),
        format!("| {} | {} | {} | {} |", '0', '1', '0', '0'),
        format!("| {} | {} | {} | {} |", '0', '1', '1', '1'),
        format!("| {} | {} | {} | {} |", '1', '0', '0', '0'),
        format!("| {} | {} | {} | {} |", '1', '0', '1', '1'),
        format!("| {} | {} | {} | {} |", '1', '1', '0', '0'),
        format!("| {} | {} | {} | {} |", '1', '1', '1', '1'),
    ];
    res = format_table(build_table(formula));
    assert_eq!(expected, res);

    formula = "AB=C>D^";
    expected = vec![
        format!("| {} | {} | {} | {} | = |", 'A', 'B', 'C', 'D'),
        format!("|---|---|---|---|---|"),
        format!("| {} | {} | {} | {} | {} |", '0', '0', '0', '0', '0'),
        format!("| {} | {} | {} | {} | {} |", '0', '0', '0', '1', '1'),
        format!("| {} | {} | {} | {} | {} |", '0', '0', '1', '0', '1'),
        format!("| {} | {} | {} | {} | {} |", '0', '0', '1', '1', '0'),
        format!("| {} | {} | {} | {} | {} |", '0', '1', '0', '0', '1'),
        format!("| {} | {} | {} | {} | {} |", '0', '1', '0', '1', '0'),
        format!("| {} | {} | {} | {} | {} |", '0', '1', '1', '0', '1'),
        format!("| {} | {} | {} | {} | {} |", '0', '1', '1', '1', '0'),
        format!("| {} | {} | {} | {} | {} |", '1', '0', '0', '0', '1'),
        format!("| {} | {} | {} | {} | {} |", '1', '0', '0', '1', '0'),
        format!("| {} | {} | {} | {} | {} |", '1', '0', '1', '0', '1'),
        format!("| {} | {} | {} | {} | {} |", '1', '0', '1', '1', '0'),
        format!("| {} | {} | {} | {} | {} |", '1', '1', '0', '0', '0'),
        format!("| {} | {} | {} | {} | {} |", '1', '1', '0', '1', '1'),
        format!("| {} | {} | {} | {} | {} |", '1', '1', '1', '0', '1'),
        format!("| {} | {} | {} | {} | {} |", '1', '1', '1', '1', '0'),
    ];
    res = format_table(build_table(formula));
    assert_eq!(expected, res);

    formula = "AB=C>D^!";
    expected = vec![
        format!("| {} | {} | {} | {} | = |", 'A', 'B', 'C', 'D'),
        format!("|---|---|---|---|---|"),
        format!("| {} | {} | {} | {} | {} |", '0', '0', '0', '0', '1'),
        format!("| {} | {} | {} | {} | {} |", '0', '0', '0', '1', '0'),
        format!("| {} | {} | {} | {} | {} |", '0', '0', '1', '0', '0'),
        format!("| {} | {} | {} | {} | {} |", '0', '0', '1', '1', '1'),
        format!("| {} | {} | {} | {} | {} |", '0', '1', '0', '0', '0'),
        format!("| {} | {} | {} | {} | {} |", '0', '1', '0', '1', '1'),
        format!("| {} | {} | {} | {} | {} |", '0', '1', '1', '0', '0'),
        format!("| {} | {} | {} | {} | {} |", '0', '1', '1', '1', '1'),
        format!("| {} | {} | {} | {} | {} |", '1', '0', '0', '0', '0'),
        format!("| {} | {} | {} | {} | {} |", '1', '0', '0', '1', '1'),
        format!("| {} | {} | {} | {} | {} |", '1', '0', '1', '0', '0'),
        format!("| {} | {} | {} | {} | {} |", '1', '0', '1', '1', '1'),
        format!("| {} | {} | {} | {} | {} |", '1', '1', '0', '0', '1'),
        format!("| {} | {} | {} | {} | {} |", '1', '1', '0', '1', '0'),
        format!("| {} | {} | {} | {} | {} |", '1', '1', '1', '0', '0'),
        format!("| {} | {} | {} | {} | {} |", '1', '1', '1', '1', '1'),
    ];
    res = format_table(build_table(formula));
    assert_eq!(expected, res);

    formula = "XX=X>X^!";
    expected = vec![
        format!("| {} | = |", 'X'),
        format!("|---|---|"),
        format!("| {} | {} |", '0', '1'),
        format!("| {} | {} |", '1', '1'),
    ];
    res = format_table(build_table(formula));
    assert_eq!(expected, res);

    formula = "XY=!X>K^";
    expected = vec![
        format!("| {} | {} | {} | = |", 'K', 'X', 'Y'),
        format!("|---|---|---|---|"),
        format!("| {} | {} | {} | {} |", '0', '0', '0', '1'),
        format!("| {} | {} | {} | {} |", '0', '0', '1', '0'),
        format!("| {} | {} | {} | {} |", '0', '1', '0', '1'),
        format!("| {} | {} | {} | {} |", '0', '1', '1', '1'),
        format!("| {} | {} | {} | {} |", '1', '0', '0', '0'),
        format!("| {} | {} | {} | {} |", '1', '0', '1', '1'),
        format!("| {} | {} | {} | {} |", '1', '1', '0', '0'),
        format!("| {} | {} | {} | {} |", '1', '1', '1', '0'),
    ];
    res = format_table(build_table(formula));
    assert_eq!(expected, res);
}

#[test]
fn tt_invalid_formula_empty_string_test() {
    assert!(rpn_logic::render_truth_table("").is_err());
}

#[test]
fn tt_invalid_formula_just_spaces_test() {
    assert!(rpn_logic::render_truth_table("      ").is_err());
}

#[test]
fn tt_invalid_formula_no_enough_operators_test1() {
    assert!(rpn_logic::render_truth_table("AAA!").is_err());
}

#[test]
fn tt_invalid_formula_no_enough_operators_test2() {
    assert!(rpn_logic::render_truth_table("A").is_err());
}

#[test]
fn tt_invalid_formula_no_enough_operators_test3() {
    assert!(rpn_logic::render_truth_table("AB").is_err());
}

#[test]
fn tt_invalid_formula_no_enough_operators_test4() {
    assert!(rpn_logic::render_truth_table("AAC|").is_err());
}

#[test]
fn tt_invalid_formula_no_enough_operators_test5() {
    assert!(rpn_logic::render_truth_table("ABCD&=>AB=|CE=F!G=>^^").is_err());
}

#[test]
fn tt_invalid_formula_no_enough_values_test1() {
    assert!(rpn_logic::render_truth_table("!").is_err());
}

#[test]
fn tt_invalid_formula_no_enough_values_test2() {
    assert!(rpn_logic::render_truth_table("!!!!!").is_err());
}

#[test]
fn tt_invalid_formula_unknown_symbol_test1() {
    assert!(rpn_logic::render_truth_table("aY=!)>K^").is_err());
}

#[test]
fn tt_invalid_formula_unknown_symbol_test2() {
    assert!(rpn_logic::render_truth_table("&&!!Abcd").is_err());
}

#[test]
fn tt_invalid_formula_unknown_symbol_test3() {
    assert!(rpn_logic::render_truth_table("1111&=>11=|11=1!0=>^").is_err());
}

#[test]
fn tt_invalid_formula_unknown_symbol_test4() {
    assert!(rpn_logic::render_truth_table("111|").is_err());
}
