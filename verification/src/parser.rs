//! The stack-based builder that turns an RPN formula string into one
//! expression tree.
//!
//! The grammar is eccentric: `!` directly after a value character (with more
//! input following) is a *deferred* negation that stays on the character
//! stack next to its operand, two such deferred `!` cancel, and a binary
//! operator that finds exactly one pending character attaches it to the most
//! recently completed subtree on the side recorded by `attach_left`.  The
//! specification below reifies this as an explicit state machine
//! ([`ParseState`] and the `step_*` functions); [`spec_parse`] is the
//! mathematical parser that [`build_tree`] is proved to implement exactly.

use crate::ast::all_literal;
use crate::ast::is_binop_char;
use crate::ast::is_formula_char;
use crate::ast::is_literal_char;
use crate::ast::is_value_char;
use crate::ast::is_variable_char;
use crate::ast::leaves_in;
use crate::ast::lemma_leaf_in;
use crate::ast::lemma_leaves_mono;
use crate::ast::lemma_some_leaf;
use crate::ast::some_leaf;
use crate::ast::BinOp;
use crate::ast::FormulaError;
use crate::ast::Node;
use vstd::prelude::*;

verus! {

/// The parser state: pending single characters (values, possibly followed by
/// a deferred `'!'` each), completed subtrees, the side on which the next
/// lone pending character attaches, and whether the previous character was a
/// binary operator.
pub struct ParseState {
    pub pending: Seq<char>,
    pub trees: Seq<Node>,
    pub attach_left: bool,
    pub after_binop: bool,
}

/// The state before any character is consumed.
pub open spec fn init_state() -> ParseState {
    ParseState { pending: Seq::empty(), trees: Seq::empty(), attach_left: false, after_binop: false }
}

/// The connective denoted by a binary-operator character.
pub open spec fn binop_of(c: char) -> BinOp {
    if c == '&' {
        BinOp::And
    } else if c == '|' {
        BinOp::Or
    } else if c == '^' {
        BinOp::Xor
    } else if c == '>' {
        BinOp::Implies
    } else {
        BinOp::Equiv
    }
}

/// How many deferred `'!'` markers the pending stack holds.
pub open spec fn deferred_count(p: Seq<char>) -> nat
    decreases p.len(),
{
    if p.len() == 0 {
        0
    } else {
        deferred_count(p.drop_last()) + (if p.last() == '!' {
            1nat
        } else {
            0nat
        })
    }
}

/// Pop one operand off the pending stack: a bare value character becomes a
/// leaf, a deferred `'!'` together with the character below it becomes a
/// negated leaf.  `None` when the stack runs dry.
pub open spec fn spec_pop_value(p: Seq<char>) -> Option<(Node, Seq<char>)> {
    if p.len() == 0 {
        None
    } else if p.last() != '!' {
        Some((Node::Leaf(p.last()), p.drop_last()))
    } else if p.len() < 2 {
        None
    } else {
        Some((Node::Not(Box::new(Node::Leaf(p[p.len() - 2]))), p.take(p.len() - 2)))
    }
}

/// Consume a value character: it joins the pending stack.
pub open spec fn step_value(st: ParseState, c: char) -> ParseState {
    ParseState { pending: st.pending.push(c), after_binop: false, ..st }
}

/// Consume a `'!'`.  After a binary operator, or at the end of the input, it
/// negates a completed subtree (or, with none built yet at the very end, the
/// top pending operand).  Anywhere else it is deferred: pushed onto the
/// pending stack, where a second deferred `'!'` cancels the first.
pub open spec fn step_not(st: ParseState, is_last: bool) -> Option<ParseState> {
    if st.after_binop || is_last {
        if st.trees.len() == 0 && is_last {
            match spec_pop_value(st.pending) {
                None => None,
                Some((n, p)) => Some(
                    ParseState {
                        pending: p,
                        trees: st.trees.push(Node::Not(Box::new(n))),
                        after_binop: false,
                        ..st
                    },
                ),
            }
        } else if st.trees.len() == 0 {
            None
        } else {
            Some(
                ParseState {
                    trees: st.trees.drop_last().push(Node::Not(Box::new(st.trees.last()))),
                    after_binop: false,
                    ..st
                },
            )
        }
    } else {
        if st.pending.len() == 0 {
            None
        } else if st.pending.last() == '!' {
            Some(ParseState { pending: st.pending.drop_last(), after_binop: false, ..st })
        } else {
            Some(ParseState { pending: st.pending.push('!'), after_binop: false, ..st })
        }
    }
}

/// Consume a binary operator.  With two or more pending operands it builds a
/// node from the top two; with exactly one it merges that operand with the
/// newest completed subtree, on the side `attach_left` records; with none it
/// merges the two newest subtrees.
pub open spec fn step_binop(st: ParseState, op: BinOp) -> Option<ParseState> {
    let avail = st.pending.len() - deferred_count(st.pending);
    if avail > 1 {
        match spec_pop_value(st.pending) {
            None => None,
            Some((r, p1)) => match spec_pop_value(p1) {
                None => None,
                Some((l, p2)) => Some(
                    ParseState {
                        pending: p2,
                        trees: st.trees.push(Node::Binary(op, Box::new(l), Box::new(r))),
                        attach_left: p2.len() > 0,
                        after_binop: true,
                    },
                ),
            },
        }
    } else if avail == 1 {
        if st.trees.len() == 0 {
            None
        } else {
            match spec_pop_value(st.pending) {
                None => None,
                Some((x, p1)) => {
                    let t = st.trees.last();
                    let n = if st.attach_left {
                        Node::Binary(op, Box::new(x), Box::new(t))
                    } else {
                        Node::Binary(op, Box::new(t), Box::new(x))
                    };
                    Some(
                        ParseState {
                            pending: p1,
                            trees: st.trees.drop_last().push(n),
                            attach_left: false,
                            after_binop: true,
                        },
                    )
                },
            }
        }
    } else {
        if st.trees.len() >= 2 {
            let r = st.trees.last();
            let l = st.trees[st.trees.len() - 2];
            Some(
                ParseState {
                    pending: st.pending,
                    trees: st.trees.take(st.trees.len() - 2).push(
                        Node::Binary(op, Box::new(l), Box::new(r)),
                    ),
                    attach_left: st.attach_left,
                    after_binop: true,
                },
            )
        } else {
            None
        }
    }
}

/// One transition of the parser on character `c`; `None` rejects the input.
pub open spec fn step(st: ParseState, c: char, is_last: bool) -> Option<ParseState> {
    if is_value_char(c) {
        Some(step_value(st, c))
    } else if c == '!' {
        step_not(st, is_last)
    } else if is_binop_char(c) {
        step_binop(st, binop_of(c))
    } else {
        None
    }
}

/// Run the parser over `s` from position `i` in state `st`.
pub open spec fn run_parser(s: Seq<char>, i: int, st: ParseState) -> Option<ParseState>
    decreases s.len() - i,
{
    if i < 0 || i >= s.len() {
        Some(st)
    } else {
        match step(st, s[i], i == s.len() - 1) {
            None => None,
            Some(st2) => run_parser(s, i + 1, st2),
        }
    }
}

/// The string holds a literal character somewhere.
pub open spec fn has_literal(s: Seq<char>) -> bool {
    exists|i: int| 0 <= i < s.len() && is_literal_char(s[i])
}

/// The string holds a variable character somewhere.
pub open spec fn has_variable(s: Seq<char>) -> bool {
    exists|i: int| 0 <= i < s.len() && is_variable_char(s[i])
}

/// Every character belongs to the grammar, and literals and variables are
/// never mixed in one formula.
pub open spec fn chars_ok(s: Seq<char>) -> bool {
    &&& forall|i: int| 0 <= i < s.len() ==> is_formula_char(#[trigger] s[i])
    &&& !(has_literal(s) && has_variable(s))
}

/// The parse of a whole string: `None` for every string the builder
/// rejects, otherwise the single tree that remains.  A parse succeeds only
/// when the pending stack is empty and exactly one subtree is left.
pub open spec fn spec_parse(s: Seq<char>) -> Option<Node> {
    if !chars_ok(s) {
        None
    } else {
        match run_parser(s, 0, init_state()) {
            None => None,
            Some(st) => if st.pending.len() == 0 && st.trees.len() == 1 {
                Some(st.trees[0])
            } else {
                None
            },
        }
    }
}

/// The string is a formula the builder accepts.
pub open spec fn valid_formula(s: Seq<char>) -> bool {
    spec_parse(s) is Some
}

/// There are never more deferred markers than stack entries.
pub proof fn lemma_deferred_le_len(p: Seq<char>)
    ensures
        deferred_count(p) <= p.len(),
    decreases p.len(),
{
    if p.len() > 0 {
        lemma_deferred_le_len(p.drop_last());
    }
}

/// How many characters the parser can still consume as operands.
fn count_deferred(pending: &Vec<char>) -> (n: usize)
    ensures
        n == deferred_count(pending@),
{
    let mut n: usize = 0;
    let mut i: usize = 0;
    while i < pending.len()
        invariant
            i <= pending.len(),
            n == deferred_count(pending@.take(i as int)),
            n <= i,
        decreases pending.len() - i,
    {
        proof {
            assert(pending@.take(i + 1).drop_last() =~= pending@.take(i as int));
            assert(pending@.take(i + 1).last() == pending@[i as int]);
        }
        if pending[i] == '!' {
            n = n + 1;
        }
        i = i + 1;
    }
    proof {
        assert(pending@.take(pending@.len() as int) =~= pending@);
    }
    n
}

/// Pop one operand off the pending stack, as [`spec_pop_value`] describes.
fn pop_value(pending: &mut Vec<char>) -> (r: Result<Node, FormulaError>)
    ensures
        match r {
            Ok(n) => spec_pop_value(old(pending)@) == Some((n, final(pending)@)),
            Err(_) => spec_pop_value(old(pending)@) is None,
        },
{
    match pending.pop() {
        None => Err(FormulaError::InvalidFormula),
        Some(top) => {
            if top != '!' {
                Ok(Node::Leaf(top))
            } else {
                match pending.pop() {
                    None => Err(FormulaError::InvalidFormula),
                    Some(below) => {
                        proof {
                            assert(final(pending)@ =~= old(pending)@.take(old(pending)@.len() - 2));
                        }
                        Ok(Node::Not(Box::new(Node::Leaf(below))))
                    },
                }
            }
        },
    }
}

/// A failing step pins the whole parse down as a rejection.
proof fn lemma_step_fails(s: Seq<char>, i: int, st: ParseState)
    requires
        chars_ok(s),
        0 <= i < s.len(),
        run_parser(s, i, st) == run_parser(s, 0, init_state()),
        step(st, s[i], i == s.len() - 1) is None,
    ensures
        spec_parse(s) is None,
{
    assert(run_parser(s, i, st) is None);
}

/// Build the expression tree of a formula, or reject it.  The result is
/// exactly what [`spec_parse`] says: `Ok` if and only if the string is a
/// formula of the grammar, and then the tree is the specified one.
pub fn build_tree(chars: &Vec<char>) -> (r: Result<Node, FormulaError>)
    ensures
        match r {
            Ok(n) => spec_parse(chars@) == Some(n),
            Err(_) => spec_parse(chars@) is None,
        },
{
    let n = chars.len();

    // The class scan: every character known, literals and variables unmixed.
    let mut saw_lit = false;
    let mut saw_var = false;
    let mut i: usize = 0;
    while i < n
        invariant
            i <= n,
            n == chars@.len(),
            saw_lit == has_literal(chars@.take(i as int)),
            saw_var == has_variable(chars@.take(i as int)),
            !(saw_lit && saw_var),
            forall|j: int| 0 <= j < i ==> is_formula_char(#[trigger] chars@[j]),
        decreases n - i,
    {
        let c = chars[i];
        let ok = c == '0' || c == '1' || ('A' <= c && c <= 'Z') || c == '!' || c == '&' || c == '|'
            || c == '^' || c == '>' || c == '=';
        if !ok {
            proof {
                assert(!is_formula_char(chars@[i as int]));
                assert(!chars_ok(chars@));
                assert(spec_parse(chars@) is None);
                assert(spec_parse(chars@) is None);
            }
            return Err(FormulaError::InvalidFormula);
        }
        proof {
            assert(chars@.take(i + 1).drop_last() =~= chars@.take(i as int));
            assert(forall|j: int|
                0 <= j < chars@.take(i as int).len() ==> chars@.take(i as int)[j] == chars@.take(i + 1)[j]);
            assert(has_literal(chars@.take(i as int)) ==> has_literal(chars@.take(i + 1)));
            assert(has_variable(chars@.take(i as int)) ==> has_variable(chars@.take(i + 1)));
            assert(chars@.take(i + 1)[i as int] == chars@[i as int]);
            if !has_literal(chars@.take(i as int)) && !is_literal_char(chars@[i as int]) {
                assert(!has_literal(chars@.take(i + 1))) by {
                    assert(forall|j: int|
                        0 <= j < i + 1 ==> !is_literal_char(#[trigger] chars@.take(i + 1)[j]));
                }
            }
            if !has_variable(chars@.take(i as int)) && !is_variable_char(chars@[i as int]) {
                assert(!has_variable(chars@.take(i + 1))) by {
                    assert(forall|j: int|
                        0 <= j < i + 1 ==> !is_variable_char(#[trigger] chars@.take(i + 1)[j]));
                }
            }
        }
        if c == '0' || c == '1' {
            saw_lit = true;
        }
        if 'A' <= c && c <= 'Z' {
            saw_var = true;
        }
        if saw_lit && saw_var {
            proof {
                lemma_prefix_has(chars@, i as int);
                if is_literal_char(chars@[i as int]) {
                    assert(has_literal(chars@));
                }
                if is_variable_char(chars@[i as int]) {
                    assert(has_variable(chars@));
                }
                assert(!chars_ok(chars@));
                assert(spec_parse(chars@) is None);
            }
            return Err(FormulaError::InvalidFormula);
        }
        i = i + 1;
    }
    proof {
        assert(chars@.take(n as int) =~= chars@);
    }
    // From here on the character classes are settled.
    assert(chars_ok(chars@));

    // The two-stack run of the state machine.
    let mut pending: Vec<char> = Vec::new();
    let mut trees: Vec<Node> = Vec::new();
    let mut attach_left = false;
    let mut after_binop = false;
    let ghost mut st = init_state();

    assert(st.pending =~= pending@);
    assert(st.trees =~= trees@);

    i = 0;
    while i < n
        invariant
            i <= n,
            n == chars@.len(),
            chars_ok(chars@),
            st.pending == pending@,
            st.trees == trees@,
            st.attach_left == attach_left,
            st.after_binop == after_binop,
            run_parser(chars@, i as int, st) == run_parser(chars@, 0, init_state()),
        decreases n - i,
    {
        let c = chars[i];
        let is_last = i == n - 1;
        if c == '!' {
            if after_binop || is_last {
                if trees.len() == 0 && is_last {
                    match pop_value(&mut pending) {
                        Err(e) => {
                            proof {
                                lemma_step_fails(chars@, i as int, st);
                                assert(spec_parse(chars@) is None);
                            }
                            return Err(e);
                        },
                        Ok(nd) => {
                            trees.push(Node::Not(Box::new(nd)));
                        },
                    }
                } else if trees.len() == 0 {
                    proof {
                        lemma_step_fails(chars@, i as int, st);
                        assert(spec_parse(chars@) is None);
                    }
                    return Err(FormulaError::InvalidFormula);
                } else {
                    let top = trees.pop().unwrap();
                    trees.push(Node::Not(Box::new(top)));
                    proof {
                        assert(trees@ =~= st.trees.drop_last().push(
                            Node::Not(Box::new(st.trees.last())),
                        ));
                    }
                }
            } else {
                if pending.len() == 0 {
                    proof {
                        lemma_step_fails(chars@, i as int, st);
                        assert(spec_parse(chars@) is None);
                    }
                    return Err(FormulaError::InvalidFormula);
                }
                let top = pending.pop().unwrap();
                if top != '!' {
                    pending.push(top);
                    pending.push('!');
                    proof {
                        assert(pending@ =~= st.pending.push('!'));
                    }
                }
            }
            after_binop = false;
        } else if c == '&' || c == '|' || c == '^' || c == '>' || c == '=' {
            let op = if c == '&' {
                BinOp::And
            } else if c == '|' {
                BinOp::Or
            } else if c == '^' {
                BinOp::Xor
            } else if c == '>' {
                BinOp::Implies
            } else {
                BinOp::Equiv
            };
            assert(op == binop_of(c));
            let deferred = count_deferred(&pending);
            proof {
                lemma_deferred_le_len(pending@);
            }
            let avail = pending.len() - deferred;
            if avail > 1 {
                let right = match pop_value(&mut pending) {
                    Err(e) => {
                        proof {
                            lemma_step_fails(chars@, i as int, st);
                            assert(spec_parse(chars@) is None);
                        }
                        return Err(e);
                    },
                    Ok(nd) => nd,
                };
                let left = match pop_value(&mut pending) {
                    Err(e) => {
                        proof {
                            lemma_step_fails(chars@, i as int, st);
                            assert(spec_parse(chars@) is None);
                        }
                        return Err(e);
                    },
                    Ok(nd) => nd,
                };
                trees.push(Node::Binary(op, Box::new(left), Box::new(right)));
                attach_left = pending.len() > 0;
            } else if avail == 1 {
                if trees.len() == 0 {
                    proof {
                        lemma_step_fails(chars@, i as int, st);
                        assert(spec_parse(chars@) is None);
                    }
                    return Err(FormulaError::InvalidFormula);
                }
                let top = trees.pop().unwrap();
                let x = match pop_value(&mut pending) {
                    Err(e) => {
                        proof {
                            assert(spec_pop_value(st.pending) is None);
                            lemma_step_fails(chars@, i as int, st);
                            assert(spec_parse(chars@) is None);
                        }
                        return Err(e);
                    },
                    Ok(nd) => nd,
                };
                let node = if attach_left {
                    Node::Binary(op, Box::new(x), Box::new(top))
                } else {
                    Node::Binary(op, Box::new(top), Box::new(x))
                };
                trees.push(node);
                proof {
                    assert(trees@ =~= st.trees.drop_last().push(
                        step_binop(st, op)->Some_0.trees.last(),
                    ));
                }
                attach_left = false;
            } else {
                if trees.len() < 2 {
                    proof {
                        lemma_step_fails(chars@, i as int, st);
                        assert(spec_parse(chars@) is None);
                    }
                    return Err(FormulaError::InvalidFormula);
                }
                let right = trees.pop().unwrap();
                let left = trees.pop().unwrap();
                trees.push(Node::Binary(op, Box::new(left), Box::new(right)));
                proof {
                    assert(trees@ =~= st.trees.take(st.trees.len() - 2).push(
                        Node::Binary(op, Box::new(st.trees[st.trees.len() - 2]), Box::new(st.trees.last())),
                    ));
                }
            }
            after_binop = true;
        } else {
            // a value character, by the class scan above
            assert(is_value_char(chars@[i as int]));
            pending.push(c);
            after_binop = false;
        }
        proof {
            st = step(st, chars@[i as int], i == n - 1)->Some_0;
        }
        i = i + 1;
    }

    if pending.len() != 0 {
        return Err(FormulaError::InvalidFormula);
    }
    if trees.len() != 1 {
        return Err(FormulaError::InvalidFormula);
    }
    let root = trees.pop().unwrap();
    Ok(root)
}

/// A witness inside a prefix is a witness in the whole string.
proof fn lemma_prefix_has(s: Seq<char>, k: int)
    requires
        0 <= k <= s.len(),
    ensures
        has_literal(s.take(k)) ==> has_literal(s),
        has_variable(s.take(k)) ==> has_variable(s),
{
    if has_literal(s.take(k)) {
        let i = choose|i: int| 0 <= i < s.take(k).len() && is_literal_char(s.take(k)[i]);
        assert(is_literal_char(s[i]));
    }
    if has_variable(s.take(k)) {
        let i = choose|i: int| 0 <= i < s.take(k).len() && is_variable_char(s.take(k)[i]);
        assert(is_variable_char(s[i]));
    }
}


/// The value characters that occur in the string.
pub open spec fn value_chars(s: Seq<char>) -> Set<char> {
    Set::new(|c: char| is_value_char(c) && s.contains(c))
}

/// The pending stack is well shaped: a deferred `'!'` always sits directly
/// on top of a value character, never at the bottom, never doubled.
pub open spec fn wf_pending(p: Seq<char>) -> bool {
    forall|i: int| 0 <= i < p.len() && #[trigger] p[i] == '!' ==> i > 0 && p[i - 1] != '!'
}

/// Every character of the pending stack and every leaf of every completed
/// subtree is drawn from `allowed` (the pending stack may also hold deferred
/// `'!'` markers), and the pending stack is well shaped.
pub open spec fn state_leaves_in(st: ParseState, allowed: Set<char>) -> bool {
    &&& wf_pending(st.pending)
    &&& forall|i: int|
        0 <= i < st.pending.len() ==> st.pending[i] == '!' || allowed.contains(
            #[trigger] st.pending[i],
        )
    &&& forall|i: int| 0 <= i < st.trees.len() ==> leaves_in(#[trigger] st.trees[i], allowed)
}

/// One step keeps all leaves inside `allowed`.
proof fn lemma_step_leaves(st: ParseState, c: char, is_last: bool, allowed: Set<char>)
    requires
        state_leaves_in(st, allowed),
        is_value_char(c) ==> allowed.contains(c),
        step(st, c, is_last) is Some,
    ensures
        state_leaves_in(step(st, c, is_last)->Some_0, allowed),
{
    let st2 = step(st, c, is_last)->Some_0;
    if is_value_char(c) {
        assert(wf_pending(st2.pending)) by {
            assert(forall|i: int|
                0 <= i < st.pending.len() ==> st2.pending[i] == #[trigger] st.pending[i]);
        }
    } else if c == '!' {
        if st.after_binop || is_last {
            if st.trees.len() == 0 && is_last {
                lemma_pop_value_leaves(st.pending, allowed);
            } else {
                assert(leaves_in(st.trees.last(), allowed));
            }
        } else {
            if st.pending.last() == '!' {
                assert(wf_pending(st2.pending)) by {
                    assert(forall|i: int|
                        0 <= i < st2.pending.len() ==> st2.pending[i] == #[trigger] st.pending[i]);
                }
            } else {
                assert(wf_pending(st2.pending)) by {
                    assert(forall|i: int|
                        0 <= i < st.pending.len() ==> st2.pending[i] == #[trigger] st.pending[i]);
                }
            }
        }
    } else {
        let op = binop_of(c);
        let avail = st.pending.len() - deferred_count(st.pending);
        if avail > 1 {
            let (r, p1) = spec_pop_value(st.pending)->Some_0;
            lemma_pop_value_leaves(st.pending, allowed);
            lemma_pop_value_leaves(p1, allowed);
        } else if avail == 1 {
            lemma_pop_value_leaves(st.pending, allowed);
            assert(leaves_in(st.trees.last(), allowed));
        } else {
            assert(leaves_in(st.trees.last(), allowed));
            assert(leaves_in(st.trees[st.trees.len() - 2], allowed));
        }
    }
}

/// Popping an operand yields a node whose leaves are in `allowed`, and a
/// well-shaped remainder whose characters still are too.
proof fn lemma_pop_value_leaves(p: Seq<char>, allowed: Set<char>)
    requires
        wf_pending(p),
        forall|i: int| 0 <= i < p.len() ==> p[i] == '!' || allowed.contains(#[trigger] p[i]),
        spec_pop_value(p) is Some,
    ensures
        leaves_in(spec_pop_value(p)->Some_0.0, allowed),
        wf_pending(spec_pop_value(p)->Some_0.1),
        forall|i: int|
            0 <= i < spec_pop_value(p)->Some_0.1.len() ==> spec_pop_value(p)->Some_0.1[i] == '!'
                || allowed.contains(#[trigger] spec_pop_value(p)->Some_0.1[i]),
{
    if p.last() != '!' {
        assert(allowed.contains(p.last()));
    } else {
        assert(p[p.len() - 2] != '!');
        let c0 = p[p.len() - 2];
        assert(allowed.contains(c0));
        lemma_leaf_in(c0, allowed);
        assert(spec_pop_value(p)->Some_0.0 == Node::Not(Box::new(Node::Leaf(c0))));
        let q = spec_pop_value(p)->Some_0.1;
        assert(forall|i: int| 0 <= i < q.len() ==> q[i] == #[trigger] p[i]);
    }
}

/// Running the parser keeps all leaves inside `allowed`.
proof fn lemma_run_leaves(s: Seq<char>, i: int, st: ParseState, allowed: Set<char>)
    requires
        0 <= i <= s.len(),
        state_leaves_in(st, allowed),
        forall|j: int| 0 <= j < s.len() && is_value_char(#[trigger] s[j]) ==> allowed.contains(s[j]),
        run_parser(s, i, st) is Some,
    ensures
        state_leaves_in(run_parser(s, i, st)->Some_0, allowed),
    decreases s.len() - i,
{
    if i < s.len() {
        let st2 = step(st, s[i], i == s.len() - 1)->Some_0;
        lemma_step_leaves(st, s[i], i == s.len() - 1, allowed);
        lemma_run_leaves(s, i + 1, st2, allowed);
    }
}

/// Every leaf of a parsed tree is a value character of the input string.
pub proof fn lemma_parse_leaves(s: Seq<char>)
    requires
        spec_parse(s) is Some,
    ensures
        leaves_in(spec_parse(s)->Some_0, value_chars(s)),
{
    let st = run_parser(s, 0, init_state())->Some_0;
    lemma_run_leaves(s, 0, init_state(), value_chars(s));
    assert(spec_parse(s)->Some_0 == st.trees[0]);
}

/// For a formula the builder accepts, the tree is all-literal exactly when
/// the string holds no variable.
pub proof fn lemma_literal_tree(s: Seq<char>)
    requires
        spec_parse(s) is Some,
    ensures
        all_literal(spec_parse(s)->Some_0) <==> !has_variable(s),
{
    let t = spec_parse(s)->Some_0;
    lemma_parse_leaves(s);
    if has_variable(s) {
        // no literals may occur, so every leaf is a variable
        let lit = Set::new(|c: char| is_literal_char(c));
        if all_literal(t) {
            lemma_some_leaf(t, lit);
            lemma_some_leaf(t, value_chars(s));
            let c = some_leaf(t);
            assert(is_literal_char(c) && s.contains(c));
            let i = choose|i: int| 0 <= i < s.len() && s[i] == c;
            assert(has_literal(s));
            assert(!chars_ok(s));
        }
    } else {
        // every value character of the string is a literal
        assert(forall|c: char| value_chars(s).contains(c) ==> is_literal_char(c)) by {
            assert(forall|i: int|
                0 <= i < s.len() && is_variable_char(#[trigger] s[i]) ==> has_variable(s));
        }
        lemma_leaves_mono(t, value_chars(s), Set::new(|c: char| is_literal_char(c)));
    }
}


/// Does the string hold a variable character?  (The mirror of
/// [`has_variable`] for executable code.)
pub fn contains_variable(chars: &Vec<char>) -> (b: bool)
    ensures
        b == has_variable(chars@),
{
    let mut i: usize = 0;
    let n = chars.len();
    while i < n
        invariant
            i <= n,
            n == chars@.len(),
            !has_variable(chars@.take(i as int)),
        decreases n - i,
    {
        let c = chars[i];
        if 'A' <= c && c <= 'Z' {
            assert(is_variable_char(chars@[i as int]));
            return true;
        }
        proof {
            assert(forall|j: int|
                0 <= j < i + 1 ==> !is_variable_char(#[trigger] chars@.take(i + 1)[j]));
        }
        i = i + 1;
    }
    proof {
        assert(chars@.take(n as int) =~= chars@);
    }
    false
}

} // verus!
