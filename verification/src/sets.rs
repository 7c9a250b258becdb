//! Evaluating a formula over sets of integers.
//!
//! Each variable (in sorted order) is bound to one of the supplied sets.
//! An integer belongs to the result exactly when the formula is true under
//! the assignment "is this integer in that variable's set?" — which makes
//! `&` intersection, `|` union, `^` symmetric difference, and `!` the
//! complement against the universe of all supplied elements.

use crate::ast::is_literal_char;
use crate::ast::sem;
use crate::ast::Node;
use crate::eval::env_of;
use crate::eval::eval_tree_env;
use crate::parser::build_tree;
use crate::parser::contains_variable;
use crate::parser::has_variable;
use crate::parser::spec_parse;
use crate::parser::valid_formula;
use crate::strutil::str_chars;
use crate::truth_table::collect_variables;
use crate::truth_table::var_list;
use vstd::prelude::*;

verus! {

/// What can go wrong: a bad formula, a set count that does not match the
/// variable count, or a supplied set with a repeated element.
#[derive(Clone, Copy, Debug, PartialEq, Eq, Structural)]
pub enum SetEvalError {
    InvalidFormula,
    SetCountMismatch,
    DuplicateElements(usize),
}

/// The views of the supplied sets.
pub open spec fn set_views(sets: Seq<Vec<i32>>) -> Seq<Seq<i32>> {
    sets.map_values(|v: Vec<i32>| v@)
}

/// Some value occurs at two positions of the set.
pub open spec fn set_has_duplicate(s: Seq<i32>) -> bool {
    exists|i: int, j: int| 0 <= i < j < s.len() && s[i] == s[j]
}

/// The assignment an integer induces: each variable is true when the
/// integer belongs to that variable's set.
pub open spec fn elem_env(vars: Seq<char>, setsv: Seq<Seq<i32>>, x: i32) -> Map<char, bool> {
    Map::new(|c: char| vars.contains(c), |c: char| setsv[vars.index_of(c)].contains(x))
}

/// Append the elements of `s` (from index `i` on) that the universe does
/// not hold yet, in order.
pub open spec fn dedup_into(u: Seq<i32>, s: Seq<i32>, i: int) -> Seq<i32>
    decreases s.len() - i,
{
    if i < 0 || i >= s.len() {
        u
    } else {
        dedup_into(
            if u.contains(s[i]) {
                u
            } else {
                u.push(s[i])
            },
            s,
            i + 1,
        )
    }
}

/// The universe: every element of every supplied set, first occurrence
/// first.
pub open spec fn universe_rec(u: Seq<i32>, setsv: Seq<Seq<i32>>, k: int) -> Seq<i32>
    decreases setsv.len() - k,
{
    if k < 0 || k >= setsv.len() {
        u
    } else {
        universe_rec(dedup_into(u, setsv[k], 0), setsv, k + 1)
    }
}

/// The universe of the supplied sets.
pub open spec fn universe(setsv: Seq<Seq<i32>>) -> Seq<i32> {
    universe_rec(Seq::empty(), setsv, 0)
}

/// The elements of the universe (up to index `i`) on which the formula
/// holds, in universe order.
pub open spec fn selected(
    uni: Seq<i32>,
    tree: Node,
    vars: Seq<char>,
    setsv: Seq<Seq<i32>>,
    i: int,
) -> Seq<i32>
    decreases i,
{
    if i <= 0 {
        Seq::empty()
    } else {
        selected(uni, tree, vars, setsv, i - 1) + (if sem(tree, elem_env(vars, setsv, uni[i - 1])) {
            seq![uni[i - 1]]
        } else {
            Seq::empty()
        })
    }
}

/// Does the vector hold this value?
fn vec_contains(v: &Vec<i32>, x: i32) -> (r: bool)
    ensures
        r == v@.contains(x),
{
    let mut i: usize = 0;
    while i < v.len()
        invariant
            i <= v@.len(),
            forall|j: int| 0 <= j < i ==> (#[trigger] v@[j]) != x,
        decreases v@.len() - i,
    {
        if v[i] == x {
            return true;
        }
        i = i + 1;
    }
    false
}

/// Append the unseen elements of one set to the universe.
#[verifier::loop_isolation(false)]
fn extend_universe(u: &mut Vec<i32>, s: &Vec<i32>)
    ensures
        final(u)@ == dedup_into(old(u)@, s@, 0),
{
    let mut i: usize = 0;
    while i < s.len()
        invariant
            i <= s@.len(),
            dedup_into(u@, s@, i as int) == dedup_into(old(u)@, s@, 0),
        decreases s@.len() - i,
    {
        if !vec_contains(u, s[i]) {
            u.push(s[i]);
        }
        i = i + 1;
    }
}

/// Check one supplied set for a repeated element.
fn find_duplicate(s: &Vec<i32>) -> (r: bool)
    ensures
        r == set_has_duplicate(s@),
{
    let n = s.len();
    let mut i: usize = 0;
    while i < n
        invariant
            i <= n,
            n == s@.len(),
            forall|a: int, b: int| 0 <= a < b < i ==> (#[trigger] s@[a]) != (#[trigger] s@[b]),
        decreases n - i,
    {
        let mut j: usize = 0;
        while j < i
            invariant
                j <= i < n,
                n == s@.len(),
                forall|b: int| 0 <= b < j ==> (#[trigger] s@[b]) != s@[i as int],
            decreases i - j,
        {
            if s[j] == s[i] {
                return true;
            }
            j = j + 1;
        }
        i = i + 1;
    }
    false
}

/// Evaluate a formula over sets of integers.  The supplied sets are bound,
/// in order, to the formula's distinct variables in sorted order; the
/// result holds every element of the universe on which the formula is
/// true, in first-occurrence order and without repeats.
#[verifier::loop_isolation(false)]
pub fn eval_set(formula: &str, sets: Vec<Vec<i32>>) -> (r: Result<Vec<i32>, SetEvalError>)
    ensures
        match r {
            Ok(v) => {
                &&& valid_formula(formula@)
                &&& has_variable(formula@)
                &&& var_list(formula@).len() == sets@.len()
                &&& forall|k: int| 0 <= k < sets@.len() ==> !set_has_duplicate(#[trigger] sets@[k]@)
                &&& ({
                    let vars = var_list(formula@);
                    let setsv = set_views(sets@);
                    let uni = universe(setsv);
                    v@ == selected(
                        uni,
                        spec_parse(formula@)->Some_0,
                        vars,
                        setsv,
                        uni.len() as int,
                    )
                })
            },
            Err(SetEvalError::InvalidFormula) => !valid_formula(formula@) || !has_variable(
                formula@,
            ),
            Err(SetEvalError::SetCountMismatch) => {
                &&& valid_formula(formula@)
                &&& has_variable(formula@)
                &&& var_list(formula@).len() != sets@.len()
            },
            Err(SetEvalError::DuplicateElements(k)) => {
                &&& valid_formula(formula@)
                &&& has_variable(formula@)
                &&& var_list(formula@).len() == sets@.len()
                &&& 0 <= k < sets@.len()
                &&& set_has_duplicate(sets@[k as int]@)
                &&& forall|j: int| 0 <= j < k ==> !set_has_duplicate(#[trigger] sets@[j]@)
            },
        },
{
    let chars = str_chars(formula);
    let tree = match build_tree(&chars) {
        Err(_) => {
            return Err(SetEvalError::InvalidFormula);
        },
        Ok(t) => t,
    };
    if !contains_variable(&chars) {
        return Err(SetEvalError::InvalidFormula);
    }
    let vars = collect_variables(&chars);
    if vars.len() != sets.len() {
        return Err(SetEvalError::SetCountMismatch);
    }
    let mut k: usize = 0;
    while k < sets.len()
        invariant
            k <= sets@.len(),
            forall|j: int| 0 <= j < k ==> !set_has_duplicate(#[trigger] sets@[j]@),
        decreases sets@.len() - k,
    {
        if find_duplicate(&sets[k]) {
            return Err(SetEvalError::DuplicateElements(k));
        }
        k = k + 1;
    }
    // the universe, in first-occurrence order
    let mut uni: Vec<i32> = Vec::new();
    let mut j: usize = 0;
    while j < sets.len()
        invariant
            j <= sets@.len(),
            universe_rec(uni@, set_views(sets@), j as int) == universe(set_views(sets@)),
        decreases sets@.len() - j,
    {
        proof {
            assert(set_views(sets@)[j as int] == sets@[j as int]@);
        }
        extend_universe(&mut uni, &sets[j]);
        j = j + 1;
    }
    // keep the elements on which the formula holds
    proof {
        crate::parser::lemma_parse_leaves(formula@);
        crate::ast::lemma_leaves_mono(
            tree,
            crate::parser::value_chars(formula@),
            Set::new(|c: char| is_literal_char(c) || vars@.contains(c)),
        );
    }
    let mut out: Vec<i32> = Vec::new();
    let mut i: usize = 0;
    let ghost setsv = set_views(sets@);
    while i < uni.len()
        invariant
            i <= uni@.len(),
            out@ == selected(uni@, tree, vars@, setsv, i as int),
        decreases uni@.len() - i,
    {
        let x = uni[i];
        let mut vals: Vec<bool> = Vec::new();
        let mut k2: usize = 0;
        while k2 < sets.len()
            invariant
                k2 <= sets@.len(),
                vals@.len() == k2,
                forall|kk: int|
                    0 <= kk < k2 ==> (#[trigger] vals@[kk]) == setsv[kk].contains(x),
            decreases sets@.len() - k2,
        {
            let b = vec_contains(&sets[k2], x);
            proof {
                assert(setsv[k2 as int] == sets@[k2 as int]@);
            }
            vals.push(b);
            k2 = k2 + 1;
        }
        let keep = eval_tree_env(&tree, &vars, &vals);
        proof {
            assert(env_of(vars@, vals@) =~= elem_env(vars@, setsv, x));
        }
        if keep {
            out.push(x);
        }
        proof {
            if keep {
                assert(out@ =~= selected(uni@, tree, vars@, setsv, i as int) + seq![x]);
            } else {
                assert(out@ =~= selected(uni@, tree, vars@, setsv, i as int)
                    + Seq::<i32>::empty());
            }
        }
        i = i + 1;
    }
    Ok(out)
}

} // verus!
