use rpn_logic::eval_formula;
use rpn_logic::negation_normal_form;
use rpn_logic::nnf::get_rpn_formula;
use rpn_logic::render_truth_table;
use rpn_logic::AST;

// Substituting each table row's values into the formula and evaluating the
// literal result reproduces the row's result column.
#[test]
fn truth_table_rows_round_trip_through_eval() {
    for f in ["AB&C|", "AB=C>D^", "XY=!X>K^", "AB^C>"] {
        let grid = render_truth_table(f).unwrap_or_else(|_| panic!("Invalid formula"));
        let header = &grid[0];
        // variable characters sit at columns 2, 6, ... of the header
        let vars: Vec<(usize, char)> = header
            .iter()
            .enumerate()
            .filter(|(_, c)| c.is_ascii_uppercase())
            .map(|(j, c)| (j, *c))
            .collect();
        let result_col = header.len() - 3;
        for row in grid.iter().skip(2) {
            let substituted: String = f
                .chars()
                .map(|c| match vars.iter().find(|(_, v)| *v == c) {
                    Some((j, _)) => row[*j],
                    None => c,
                })
                .collect();
            let value = eval_formula(&substituted).unwrap_or_else(|_| panic!("Invalid formula"));
            assert_eq!(row[result_col], if value { '1' } else { '0' });
        }
    }
}

// The negation normal form keeps the truth table of the formula.
#[test]
fn nnf_preserves_every_row() {
    for f in ["AB=C>D^", "AB^C>", "ABC&!>", "EF=MN=="] {
        let out = negation_normal_form(f).unwrap_or_else(|_| panic!("Invalid formula"));
        let mut vars: Vec<char> = f.chars().filter(|c| c.is_ascii_uppercase()).collect();
        vars.sort();
        vars.dedup();
        let n = vars.len();
        for row in 0..(1u32 << n) {
            let assign = |s: &str| -> String {
                s.chars()
                    .map(|c| match vars.iter().position(|v| *v == c) {
                        Some(k) => {
                            if row & (1 << (n - 1 - k)) != 0 {
                                '1'
                            } else {
                                '0'
                            }
                        }
                        None => c,
                    })
                    .collect()
            };
            let a = eval_formula(&assign(f)).unwrap_or_else(|_| panic!("Invalid formula"));
            let b = eval_formula(&assign(&out)).unwrap_or_else(|_| panic!("Invalid formula"));
            assert_eq!(a, b);
        }
    }
}

// The staged interface agrees with the one-call entry points.
#[test]
fn staged_tree_interface() {
    let mut tree = AST::new();
    assert!(tree.build("10&!1|").is_ok());
    assert_eq!(Ok(true), tree.eval());

    let mut tree2 = AST::new();
    assert!(tree2.build("AB|C&!").is_ok());
    tree2.simplify_material_properties();
    let rewritten = match &tree2.root {
        Some(n) => get_rpn_formula(n),
        None => panic!("Invalid formula"),
    };
    assert_eq!("A!B!&C!|", rewritten);

    let mut tree3 = AST::new();
    assert!(tree3.build("AAC|").is_err());
    assert!(tree3.eval().is_err());
}
