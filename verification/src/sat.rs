//! Satisfiability by exhaustive truth-table search.

use crate::ast::sem;
use crate::ast::FormulaError;
use crate::parser::has_variable;
use crate::parser::spec_parse;
use crate::parser::valid_formula;
use crate::truth_table::bit_char;
use crate::truth_table::pow2n;
use crate::truth_table::row_env;
use crate::truth_table::var_list;
use crate::truth_table::TruthTable;
use vstd::prelude::*;

verus! {

/// Decide satisfiability of a formula over variables: build its truth
/// table and look for a row that evaluates to true.  The answer is exactly
/// "some assignment row of the table satisfies the formula".
pub fn sat(formula: &str) -> (r: Result<bool, FormulaError>)
    ensures
        match r {
            Ok(b) => {
                &&& valid_formula(formula@)
                &&& has_variable(formula@)
                &&& b == exists|i: int|
                    0 <= i < pow2n(var_list(formula@).len() as nat) && sem(
                        spec_parse(formula@)->Some_0,
                        row_env(var_list(formula@), i),
                    )
            },
            Err(_) => !valid_formula(formula@) || !has_variable(formula@),
        },
{
    let mut table = match TruthTable::new(formula) {
        Err(e) => {
            return Err(e);
        },
        Ok(t) => t,
    };
    table.fill();
    table.eval();
    let res = table.is_sat();
    proof {
        let vars = var_list(formula@);
        let tree = spec_parse(formula@)->Some_0;
        let n = vars.len() as nat;
        assert(table.unique_chars@ == vars);
        assert(table.tree == tree);
        if res {
            let i = choose|i: int|
                2 <= i < table.height && (#[trigger] table.truth_table@[i]@[table.width - 3])
                    == '1';
            assert(table.truth_table@[i]@[table.width - 3] == bit_char(
                sem(tree, row_env(vars, i - 2)),
            ));
            assert(sem(tree, row_env(vars, i - 2)));
            assert(0 <= i - 2 < pow2n(n));
        } else {
            assert forall|i: int| 0 <= i < pow2n(n) implies !sem(tree, row_env(vars, i)) by {
                assert(table.truth_table@[i + 2]@[table.width - 3] == bit_char(
                    sem(tree, row_env(vars, i)),
                ));
                if sem(tree, row_env(vars, i)) {
                    assert(table.truth_table@[i + 2]@[table.width - 3] == '1');
                }
            }
        }
    }
    Ok(res)
}


/// Some row of the table is true exactly when some assignment at all
/// makes the formula true: the binary counter misses no assignment.
pub proof fn lemma_sat_rows_cover_assignments(s: Seq<char>, vars: Seq<char>)
    requires
        valid_formula(s),
        has_variable(s),
        crate::truth_table::sorted_distinct(vars),
        crate::truth_table::lists_variables_of(vars, s),
    ensures
        (exists|i: int|
            0 <= i < pow2n(vars.len() as nat) && sem(
                spec_parse(s)->Some_0,
                #[trigger] row_env(vars, i),
            )) == (exists|env: Map<char, bool>| #[trigger] sem(spec_parse(s)->Some_0, env)),
{
    let t = spec_parse(s)->Some_0;
    assert(vars.len() >= 1) by {
        let j = choose|j: int| 0 <= j < s.len() && crate::ast::is_variable_char(s[j]);
        assert(s.contains(s[j]));
        assert(vars.contains(s[j]));
    }
    if exists|i: int|
        0 <= i < pow2n(vars.len() as nat) && sem(t, #[trigger] row_env(vars, i)) {
        let i = choose|i: int|
            0 <= i < pow2n(vars.len() as nat) && sem(t, #[trigger] row_env(vars, i));
        assert(sem(t, row_env(vars, i)));
    }
    if exists|env: Map<char, bool>| #[trigger] sem(t, env) {
        let env = choose|env: Map<char, bool>| #[trigger] sem(t, env);
        crate::truth_table::lemma_every_assignment_has_row(vars, env);
        let i = crate::truth_table::env_index(vars, env, 0);
        crate::parser::lemma_parse_leaves(s);
        crate::ast::lemma_leaves_mono(
            t,
            crate::parser::value_chars(s),
            Set::new(
                |c: char| crate::ast::is_literal_char(c) || row_env(vars, i)[c] == env[c],
            ),
        );
        crate::ast::lemma_sem_agree(t, row_env(vars, i), env);
        assert(sem(t, row_env(vars, i)));
    }
}

} // verus!
