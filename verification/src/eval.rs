//! Evaluation of literal formulas: `"1011||="` and friends.

use crate::ast::all_literal;
use crate::ast::is_literal_char;
use crate::ast::sem;
use crate::ast::FormulaError;
use crate::ast::Node;
use crate::parser::build_tree;
use crate::parser::has_variable;
use crate::parser::lemma_literal_tree;
use crate::parser::spec_parse;
use crate::parser::valid_formula;
use crate::strutil::str_chars;
use vstd::prelude::*;

verus! {

/// Reduce a tree with only literal leaves to its truth value; a variable
/// leaf is an unbound name and rejects the evaluation.
pub fn eval_tree(n: &Node) -> (r: Result<bool, FormulaError>)
    ensures
        match r {
            Ok(b) => all_literal(*n) && b == sem(*n, Map::empty()),
            Err(_) => !all_literal(*n),
        },
    decreases *n,
{
    match n {
        Node::Leaf(c) => {
            if *c == '1' {
                Ok(true)
            } else if *c == '0' {
                Ok(false)
            } else {
                assert(!is_literal_char(*c));
                Err(FormulaError::InvalidFormula)
            }
        },
        Node::Not(x) => {
            match eval_tree(x) {
                Ok(b) => Ok(!b),
                Err(e) => Err(e),
            }
        },
        Node::Binary(op, a, b) => {
            let va = match eval_tree(a) {
                Ok(v) => v,
                Err(e) => {
                    return Err(e);
                },
            };
            let vb = match eval_tree(b) {
                Ok(v) => v,
                Err(e) => {
                    return Err(e);
                },
            };
            match op {
                crate::ast::BinOp::And => Ok(va && vb),
                crate::ast::BinOp::Or => Ok(va || vb),
                crate::ast::BinOp::Xor => Ok(va != vb),
                crate::ast::BinOp::Implies => Ok(!(va && !vb)),
                crate::ast::BinOp::Equiv => Ok(va == vb),
            }
        },
    }
}

/// Evaluate a literal RPN formula.  Succeeds exactly on the strings the
/// builder accepts that use literals (not variables), and then returns the
/// truth value of the parsed tree.
pub fn eval_formula(formula: &str) -> (r: Result<bool, FormulaError>)
    ensures
        match r {
            Ok(b) => {
                &&& valid_formula(formula@)
                &&& !has_variable(formula@)
                &&& b == sem(spec_parse(formula@)->Some_0, Map::empty())
            },
            Err(_) => !valid_formula(formula@) || has_variable(formula@),
        },
{
    let chars = str_chars(formula);
    match build_tree(&chars) {
        Err(e) => Err(e),
        Ok(t) => {
            proof {
                lemma_literal_tree(formula@);
            }
            eval_tree(&t)
        },
    }
}


/// The assignment that a list of variables and a parallel list of values
/// denote.
pub open spec fn env_of(vars: Seq<char>, vals: Seq<bool>) -> Map<char, bool> {
    Map::new(|c: char| vars.contains(c), |c: char| vals[vars.index_of(c)])
}

/// Reduce a tree to its truth value under an assignment, given as a list
/// of variables and a parallel list of values.  Every variable leaf of the
/// tree must be listed.
#[verifier::loop_isolation(false)]
pub fn eval_tree_env(n: &Node, vars: &Vec<char>, vals: &Vec<bool>) -> (r: bool)
    requires
        vals@.len() == vars@.len(),
        forall|i: int, j: int| 0 <= i < j < vars@.len() ==> (#[trigger] vars@[i]) != (#[trigger] vars@[j]),
        crate::ast::leaves_in(
            *n,
            Set::new(|c: char| is_literal_char(c) || vars@.contains(c)),
        ),
    ensures
        r == sem(*n, env_of(vars@, vals@)),
    decreases *n,
{
    match n {
        Node::Leaf(c) => {
            if *c == '1' {
                true
            } else if *c == '0' {
                false
            } else {
                let mut k: usize = 0;
                assert(vars@.contains(*c));
                let ghost first = vars@.index_of(*c);
                proof {
                    assert(0 <= first < vars@.len() && vars@[first] == *c);
                }
                while k < vars.len()
                    invariant
                        k <= vars@.len(),
                        vals@.len() == vars@.len(),
                        vars@.contains(*c),
                        forall|i: int, j: int|
                            0 <= i < j < vars@.len() ==> (#[trigger] vars@[i]) != (
                            #[trigger] vars@[j]),
                        first == vars@.index_of(*c),
                        0 <= first < vars@.len(),
                        vars@[first] == *c,
                        forall|j: int| 0 <= j < k ==> vars@[j] != *c,
                    decreases vars@.len() - k,
                {
                    if vars[k] == *c {
                        assert(k == first);
                        assert(env_of(vars@, vals@)[*c] == vals@[first]);
                        assert(*n == Node::Leaf(*c));
                        assert(sem(Node::Leaf(*c), env_of(vars@, vals@)) == env_of(
                            vars@,
                            vals@,
                        )[*c]);
                        return vals[k];
                    }
                    k = k + 1;
                }
                proof {
                    assert(vars@[first] != *c);
                    assert(false);
                }
                vstd::pervasive::unreached()
            }
        },
        Node::Not(x) => !eval_tree_env(x, vars, vals),
        Node::Binary(op, a, b) => {
            let va = eval_tree_env(a, vars, vals);
            let vb = eval_tree_env(b, vars, vals);
            match op {
                crate::ast::BinOp::And => va && vb,
                crate::ast::BinOp::Or => va || vb,
                crate::ast::BinOp::Xor => va != vb,
                crate::ast::BinOp::Implies => !(va && !vb),
                crate::ast::BinOp::Equiv => va == vb,
            }
        },
    }
}

} // verus!
