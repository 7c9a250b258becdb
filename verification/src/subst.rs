//! Substituting literal values for variables, and why it commutes with
//! parsing: evaluating a substituted formula gives the same value as
//! evaluating the original tree under the corresponding assignment.  The
//! truth-table engine rests on this.

use crate::ast::is_binop_char;
use crate::ast::is_formula_char;
use crate::ast::is_literal_char;
use crate::ast::is_value_char;
use crate::ast::is_variable_char;
use crate::ast::leaves_in;
use crate::ast::sem;
use crate::ast::Node;
use crate::parser::chars_ok;
use crate::parser::deferred_count;
use crate::parser::has_literal;
use crate::parser::has_variable;
use crate::parser::init_state;
use crate::parser::run_parser;
use crate::parser::spec_parse;
use crate::parser::spec_pop_value;
use crate::parser::step;
use crate::parser::step_binop;
use crate::parser::step_not;
use crate::parser::step_value;
use crate::parser::valid_formula;
use crate::parser::value_chars;
use crate::parser::ParseState;
use vstd::prelude::*;

verus! {

/// The map sends variable characters to literal characters and nothing
/// else: an assignment of truth values, written as characters.
pub open spec fn var_to_lit_map(m: Map<char, char>) -> bool {
    forall|c: char|
        #[trigger] m.contains_key(c) ==> is_variable_char(c) && is_literal_char(m[c])
}

/// Every variable of the string has a value in the map.
pub open spec fn covers(m: Map<char, char>, s: Seq<char>) -> bool {
    forall|i: int| 0 <= i < s.len() && is_variable_char(#[trigger] s[i]) ==> m.contains_key(s[i])
}

/// Apply the substitution to one character; characters outside the map stay.
pub open spec fn subst_char(m: Map<char, char>, c: char) -> char {
    if m.contains_key(c) {
        m[c]
    } else {
        c
    }
}

/// Apply the substitution to a whole string.
pub open spec fn subst_str(m: Map<char, char>, s: Seq<char>) -> Seq<char> {
    s.map_values(|c: char| subst_char(m, c))
}

/// Apply the substitution to every leaf of a tree.
pub open spec fn subst_node(m: Map<char, char>, n: Node) -> Node
    decreases n,
{
    match n {
        Node::Leaf(c) => Node::Leaf(subst_char(m, c)),
        Node::Not(x) => Node::Not(Box::new(subst_node(m, *x))),
        Node::Binary(op, a, b) => Node::Binary(
            op,
            Box::new(subst_node(m, *a)),
            Box::new(subst_node(m, *b)),
        ),
    }
}

/// Apply the substitution to a whole parser state.
pub open spec fn subst_state(m: Map<char, char>, st: ParseState) -> ParseState {
    ParseState {
        pending: subst_str(m, st.pending),
        trees: st.trees.map_values(|t: Node| subst_node(m, t)),
        attach_left: st.attach_left,
        after_binop: st.after_binop,
    }
}

/// The assignment of truth values that the character map denotes.
pub open spec fn lit_env(m: Map<char, char>) -> Map<char, bool> {
    Map::new(|c: char| m.contains_key(c), |c: char| m[c] == '1')
}

/// Substitution moves characters within their classes: values stay values,
/// operators and `!` stay themselves.
proof fn lemma_subst_char_class(m: Map<char, char>, c: char)
    requires
        var_to_lit_map(m),
    ensures
        is_value_char(subst_char(m, c)) == is_value_char(c),
        (subst_char(m, c) == '!') == (c == '!'),
        is_binop_char(c) ==> subst_char(m, c) == c,
        is_formula_char(subst_char(m, c)) == is_formula_char(c),
{
}

/// Substitution keeps the deferred-marker count.
proof fn lemma_subst_deferred(m: Map<char, char>, p: Seq<char>)
    requires
        var_to_lit_map(m),
    ensures
        deferred_count(subst_str(m, p)) == deferred_count(p),
    decreases p.len(),
{
    if p.len() > 0 {
        lemma_subst_deferred(m, p.drop_last());
        assert(subst_str(m, p).drop_last() =~= subst_str(m, p.drop_last()));
        lemma_subst_char_class(m, p.last());
        assert(subst_str(m, p).last() == subst_char(m, p.last()));
    }
}

/// Substitution commutes with popping one operand.
proof fn lemma_subst_pop(m: Map<char, char>, p: Seq<char>)
    requires
        var_to_lit_map(m),
    ensures
        spec_pop_value(subst_str(m, p)) is Some == spec_pop_value(p) is Some,
        spec_pop_value(p) is Some ==> spec_pop_value(subst_str(m, p)) == Some(
            (
                subst_node(m, spec_pop_value(p)->Some_0.0),
                subst_str(m, spec_pop_value(p)->Some_0.1),
            ),
        ),
{
    let q = subst_str(m, p);
    assert(q.len() == p.len());
    if p.len() > 0 {
        assert(q.last() == subst_char(m, p.last()));
        lemma_subst_char_class(m, p.last());
        if p.last() != '!' {
            assert(q.drop_last() =~= subst_str(m, p.drop_last()));
        } else if p.len() >= 2 {
            assert(q[p.len() - 2] == subst_char(m, p[p.len() - 2]));
            assert(q.take(p.len() - 2) =~= subst_str(m, p.take(p.len() - 2)));
            let c0 = p[p.len() - 2];
            let b1 = Box::new(Node::Leaf(c0));
            assert(*b1 == Node::Leaf(c0));
            assert(subst_node(m, Node::Not(b1)) == Node::Not(
                Box::new(subst_node(m, Node::Leaf(c0))),
            ));
        }
    }
}

/// Substitution commutes with one parser step.
proof fn lemma_subst_step(m: Map<char, char>, st: ParseState, c: char, is_last: bool)
    requires
        var_to_lit_map(m),
    ensures
        step(subst_state(m, st), subst_char(m, c), is_last) is Some == step(st, c, is_last) is Some,
        step(st, c, is_last) is Some ==> step(subst_state(m, st), subst_char(m, c), is_last)
            == Some(subst_state(m, step(st, c, is_last)->Some_0)),
{
    let mst = subst_state(m, st);
    let mc = subst_char(m, c);
    lemma_subst_char_class(m, c);
    assert(mst.pending.len() == st.pending.len());
    assert(mst.trees.len() == st.trees.len());
    if is_value_char(c) {
        let st2 = step_value(st, c);
        assert(step_value(mst, mc).pending =~= subst_state(m, st2).pending);
        assert(step_value(mst, mc).trees =~= subst_state(m, st2).trees);
        assert(step_value(mst, mc) == subst_state(m, st2));
    } else if c == '!' {
        if st.after_binop || is_last {
            if st.trees.len() == 0 && is_last {
                lemma_subst_pop(m, st.pending);
                if spec_pop_value(st.pending) is Some {
                    let (n, p) = spec_pop_value(st.pending)->Some_0;
                    let st2 = step_not(st, is_last)->Some_0;
                    let bn = Box::new(n);
                    assert(*bn == n);
                    assert(subst_node(m, Node::Not(bn)) == Node::Not(Box::new(subst_node(m, n))));
                    assert(step_not(mst, is_last)->Some_0.trees =~= subst_state(m, st2).trees);
                    assert(step_not(mst, is_last)->Some_0 == subst_state(m, st2));
                }
            } else if st.trees.len() == 0 {
            } else {
                let st2 = step_not(st, is_last)->Some_0;
                let t = st.trees.last();
                assert(mst.trees.last() == subst_node(m, t));
                let bt = Box::new(t);
                assert(*bt == t);
                assert(subst_node(m, Node::Not(bt)) == Node::Not(Box::new(subst_node(m, t))));
                assert(mst.trees.drop_last() =~= st.trees.drop_last().map_values(
                    |t: Node| subst_node(m, t),
                ));
                assert(step_not(mst, is_last)->Some_0.trees =~= subst_state(m, st2).trees);
                assert(step_not(mst, is_last)->Some_0 == subst_state(m, st2));
            }
        } else {
            if st.pending.len() == 0 {
            } else {
                assert(mst.pending.last() == subst_char(m, st.pending.last()));
                lemma_subst_char_class(m, st.pending.last());
                if st.pending.last() == '!' {
                    let st2 = step_not(st, is_last)->Some_0;
                    assert(mst.pending.drop_last() =~= subst_str(m, st.pending.drop_last()));
                    assert(step_not(mst, is_last)->Some_0 == subst_state(m, st2));
                } else {
                    let st2 = step_not(st, is_last)->Some_0;
                    assert(mst.pending.push('!') =~= subst_str(m, st.pending.push('!')));
                    assert(step_not(mst, is_last)->Some_0 == subst_state(m, st2));
                }
            }
        }
    } else if is_binop_char(c) {
        let op = crate::parser::binop_of(c);
        assert(crate::parser::binop_of(mc) == op);
        lemma_subst_deferred(m, st.pending);
        let avail = st.pending.len() - deferred_count(st.pending);
        lemma_subst_pop(m, st.pending);
        if avail > 1 {
            if spec_pop_value(st.pending) is Some {
                let (r, p1) = spec_pop_value(st.pending)->Some_0;
                lemma_subst_pop(m, p1);
                if spec_pop_value(p1) is Some {
                    let (l, p2) = spec_pop_value(p1)->Some_0;
                    let st2 = step_binop(st, op)->Some_0;
                    let bl = Box::new(l);
                    let br = Box::new(r);
                    assert(*bl == l && *br == r);
                    assert(subst_node(m, Node::Binary(op, bl, br)) == Node::Binary(
                        op,
                        Box::new(subst_node(m, l)),
                        Box::new(subst_node(m, r)),
                    ));
                    assert(subst_str(m, p2).len() == p2.len());
                    assert(step_binop(mst, op)->Some_0.trees =~= subst_state(m, st2).trees);
                    assert(step_binop(mst, op)->Some_0 == subst_state(m, st2));
                }
            }
        } else if avail == 1 {
            if st.trees.len() == 0 {
            } else {
                if spec_pop_value(st.pending) is Some {
                    let (x, p1) = spec_pop_value(st.pending)->Some_0;
                    let t = st.trees.last();
                    assert(mst.trees.last() == subst_node(m, t));
                    let st2 = step_binop(st, op)->Some_0;
                    let bx = Box::new(x);
                    let bt = Box::new(t);
                    assert(*bx == x && *bt == t);
                    if st.attach_left {
                        assert(subst_node(m, Node::Binary(op, bx, bt)) == Node::Binary(
                            op,
                            Box::new(subst_node(m, x)),
                            Box::new(subst_node(m, t)),
                        ));
                    } else {
                        assert(subst_node(m, Node::Binary(op, bt, bx)) == Node::Binary(
                            op,
                            Box::new(subst_node(m, t)),
                            Box::new(subst_node(m, x)),
                        ));
                    }
                    assert(mst.trees.drop_last() =~= st.trees.drop_last().map_values(
                        |t: Node| subst_node(m, t),
                    ));
                    assert(step_binop(mst, op)->Some_0.trees =~= subst_state(m, st2).trees);
                    assert(step_binop(mst, op)->Some_0 == subst_state(m, st2));
                }
            }
        } else {
            if st.trees.len() >= 2 {
                let r = st.trees.last();
                let l = st.trees[st.trees.len() - 2];
                assert(mst.trees.last() == subst_node(m, r));
                assert(mst.trees[st.trees.len() - 2] == subst_node(m, l));
                let st2 = step_binop(st, op)->Some_0;
                let bl = Box::new(l);
                let br = Box::new(r);
                assert(*bl == l && *br == r);
                assert(subst_node(m, Node::Binary(op, bl, br)) == Node::Binary(
                    op,
                    Box::new(subst_node(m, l)),
                    Box::new(subst_node(m, r)),
                ));
                assert(mst.trees.take(st.trees.len() - 2) =~= st.trees.take(
                    st.trees.len() - 2,
                ).map_values(|t: Node| subst_node(m, t)));
                assert(step_binop(mst, op)->Some_0.trees =~= subst_state(m, st2).trees);
                assert(step_binop(mst, op)->Some_0 == subst_state(m, st2));
            }
        }
    }
}

/// Substitution commutes with a whole parser run.
proof fn lemma_subst_run(m: Map<char, char>, s: Seq<char>, i: int, st: ParseState)
    requires
        var_to_lit_map(m),
        0 <= i <= s.len(),
    ensures
        run_parser(subst_str(m, s), i, subst_state(m, st)) is Some == run_parser(s, i, st) is Some,
        run_parser(s, i, st) is Some ==> run_parser(subst_str(m, s), i, subst_state(m, st))
            == Some(subst_state(m, run_parser(s, i, st)->Some_0)),
    decreases s.len() - i,
{
    let ms = subst_str(m, s);
    assert(ms.len() == s.len());
    if i < s.len() {
        assert(ms[i] == subst_char(m, s[i]));
        lemma_subst_step(m, st, s[i], i == s.len() - 1);
        if step(st, s[i], i == s.len() - 1) is Some {
            lemma_subst_run(m, s, i + 1, step(st, s[i], i == s.len() - 1)->Some_0);
        }
    }
}

/// Substituting literals for all variables keeps the string well classed.
proof fn lemma_subst_chars_ok(m: Map<char, char>, s: Seq<char>)
    requires
        var_to_lit_map(m),
        covers(m, s),
        chars_ok(s),
    ensures
        chars_ok(subst_str(m, s)),
        !has_variable(subst_str(m, s)),
{
    let q = subst_str(m, s);
    assert forall|i: int| 0 <= i < q.len() implies is_formula_char(#[trigger] q[i]) by {
        assert(q[i] == subst_char(m, s[i]));
        lemma_subst_char_class(m, s[i]);
    }
    assert forall|i: int| 0 <= i < q.len() implies !is_variable_char(#[trigger] q[i]) by {
        assert(q[i] == subst_char(m, s[i]));
        if is_variable_char(s[i]) {
            assert(m.contains_key(s[i]));
        }
    }
    if has_variable(q) {
        let i = choose|i: int| 0 <= i < q.len() && is_variable_char(q[i]);
    }
}

/// Substitution commutes with the whole parse: the substituted string
/// parses exactly when the original does, to the substituted tree.
pub proof fn lemma_subst_parse(m: Map<char, char>, s: Seq<char>)
    requires
        var_to_lit_map(m),
        covers(m, s),
        valid_formula(s),
    ensures
        spec_parse(subst_str(m, s)) == Some(subst_node(m, spec_parse(s)->Some_0)),
        !has_variable(subst_str(m, s)),
{
    let q = subst_str(m, s);
    lemma_subst_chars_ok(m, s);
    assert(subst_state(m, init_state()).pending =~= init_state().pending);
    assert(subst_state(m, init_state()).trees =~= init_state().trees);
    assert(subst_state(m, init_state()) == init_state());
    lemma_subst_run(m, s, 0, init_state());
    let st = run_parser(s, 0, init_state())->Some_0;
    let mstf = run_parser(q, 0, init_state())->Some_0;
    assert(mstf == subst_state(m, st));
    assert(mstf.pending.len() == st.pending.len());
    assert(mstf.trees.len() == st.trees.len());
    assert(mstf.trees[0] == subst_node(m, st.trees[0]));
}

/// Evaluating a substituted tree under any assignment gives the value of
/// the original tree under the assignment the substitution denotes.
pub proof fn lemma_subst_sem(m: Map<char, char>, n: Node, env: Map<char, bool>)
    requires
        var_to_lit_map(m),
        leaves_in(n, Set::new(|c: char| is_literal_char(c) || m.contains_key(c))),
    ensures
        sem(subst_node(m, n), env) == sem(n, lit_env(m)),
    decreases n,
{
    match n {
        Node::Leaf(c) => {},
        Node::Not(x) => {
            lemma_subst_sem(m, *x, env);
            let bx = Box::new(subst_node(m, *x));
            assert(*bx == subst_node(m, *x));
            assert(sem(Node::Not(bx), env) == !sem(*bx, env));
        },
        Node::Binary(op, a, b) => {
            lemma_subst_sem(m, *a, env);
            lemma_subst_sem(m, *b, env);
            let ba = Box::new(subst_node(m, *a));
            let bb = Box::new(subst_node(m, *b));
            assert(*ba == subst_node(m, *a));
            assert(*bb == subst_node(m, *b));
            assert(sem(Node::Binary(op, ba, bb), env) == sem(Node::Binary(op, ba, bb), env));
        },
    }
}

/// The round trip of evaluation through substitution: substituting an
/// assignment's values into a formula and evaluating the literal result
/// gives the original tree's value under that assignment.
pub proof fn lemma_substitution_round_trip(m: Map<char, char>, s: Seq<char>, env: Map<char, bool>)
    requires
        var_to_lit_map(m),
        covers(m, s),
        valid_formula(s),
    ensures
        valid_formula(subst_str(m, s)),
        !has_variable(subst_str(m, s)),
        sem(spec_parse(subst_str(m, s))->Some_0, env) == sem(spec_parse(s)->Some_0, lit_env(m)),
{
    let t = spec_parse(s)->Some_0;
    lemma_subst_parse(m, s);
    crate::parser::lemma_parse_leaves(s);
    let dom = Set::new(|c: char| is_literal_char(c) || m.contains_key(c));
    crate::ast::lemma_leaves_mono(t, value_chars(s), dom);
    lemma_subst_sem(m, t, env);
}


/// The substitution a truth-table row denotes: each variable goes to the
/// character of its row bit.
pub open spec fn row_subst_map(vars: Seq<char>, i: int) -> Map<char, char> {
    Map::new(
        |c: char| vars.contains(c) && is_variable_char(c),
        |c: char| crate::truth_table::bit_char(
            crate::truth_table::row_cell(i, vars.len() as int, vars.index_of(c)),
        ),
    )
}

/// Substituting a truth-table row's values into the formula gives a valid
/// literal formula whose value is exactly that row's result.  (Evaluating
/// the substituted formula is how the table fills its result column.)
pub proof fn lemma_row_substitution(s: Seq<char>, vars: Seq<char>, i: int, env: Map<char, bool>)
    requires
        valid_formula(s),
        crate::truth_table::sorted_distinct(vars),
        crate::truth_table::lists_variables_of(vars, s),
    ensures
        ({
            let sub = subst_str(row_subst_map(vars, i), s);
            &&& valid_formula(sub)
            &&& !has_variable(sub)
            &&& sem(spec_parse(sub)->Some_0, env) == sem(
                spec_parse(s)->Some_0,
                crate::truth_table::row_env(vars, i),
            )
        }),
{
    let m = row_subst_map(vars, i);
    assert(var_to_lit_map(m)) by {
        assert(forall|c: char|
            #[trigger] m.contains_key(c) ==> is_variable_char(c) && is_literal_char(m[c]));
    }
    assert(covers(m, s)) by {
        assert(forall|j: int|
            0 <= j < s.len() && is_variable_char(#[trigger] s[j]) ==> s.contains(s[j]));
        assert(forall|j: int|
            0 <= j < s.len() && is_variable_char(#[trigger] s[j]) ==> vars.contains(s[j]));
    }
    lemma_substitution_round_trip(m, s, env);
    assert(lit_env(m) =~= crate::truth_table::row_env(vars, i)) by {
        assert(forall|c: char|
            #[trigger] vars.contains(c) ==> is_variable_char(c));
        assert(forall|c: char|
            m.contains_key(c) ==> (#[trigger] m[c] == '1') == crate::truth_table::row_cell(
                i,
                vars.len() as int,
                vars.index_of(c),
            ));
    }
}

} // verus!
