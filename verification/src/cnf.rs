//! Conjunctive normal form.
//!
//! The rewriter first produces negation normal form.  When that is already
//! a conjunction of disjunctions the string is returned directly (with the
//! `&`s gathered at the end).  Otherwise the NNF string is parsed again, a
//! truth table of it is enumerated, and the conjunction is synthesized from
//! the rows where the formula is false: each such row contributes the
//! disjunction that negates its assignment.

use crate::ast::sem;
use crate::ast::serialize;
use crate::ast::BinOp;
use crate::ast::FormulaError;
use crate::ast::Node;
use crate::nnf::nnf_spec;
use crate::parser::has_variable;
use crate::parser::spec_parse;
use crate::parser::valid_formula;
use crate::truth_table::bit_char;
use crate::truth_table::pow2n;
use crate::truth_table::row_cell;
use crate::truth_table::row_env;
use crate::truth_table::var_list;
use crate::truth_table::TruthTable;
use vstd::prelude::*;

verus! {

/// A disjunction of (possibly negated) leaves.
pub open spec fn spec_is_clause(n: Node) -> bool
    decreases n,
{
    match n {
        Node::Leaf(_) => true,
        Node::Not(x) => (*x) is Leaf,
        Node::Binary(op, a, b) => op == BinOp::Or && spec_is_clause(*a) && spec_is_clause(*b),
    }
}

/// A conjunction of disjunctions: no `|` sits above an `&`.
pub open spec fn spec_is_cnf(n: Node) -> bool
    decreases n,
{
    match n {
        Node::Binary(op, a, b) => if op == BinOp::And {
            spec_is_cnf(*a) && spec_is_cnf(*b)
        } else {
            spec_is_clause(n)
        },
        _ => spec_is_clause(n),
    }
}

/// Is the tree a conjunction of disjunctions of literals?
fn is_clause(n: &Node) -> (r: bool)
    ensures
        r == spec_is_clause(*n),
    decreases *n,
{
    match n {
        Node::Leaf(_) => true,
        Node::Not(x) => matches!(&**x, Node::Leaf(_)),
        Node::Binary(op, a, b) => {
            match op {
                BinOp::Or => is_clause(a) && is_clause(b),
                _ => false,
            }
        },
    }
}

/// Is the tree already in conjunctive normal form?
fn is_valid_cnf(n: &Node) -> (r: bool)
    ensures
        r == spec_is_cnf(*n),
    decreases *n,
{
    match n {
        Node::Binary(op, a, b) => {
            match op {
                BinOp::And => is_valid_cnf(a) && is_valid_cnf(b),
                _ => is_clause(n),
            }
        },
        _ => is_clause(n),
    }
}

/// The string without its `&`s.
pub open spec fn strip_amp(s: Seq<char>) -> Seq<char>
    decreases s.len(),
{
    if s.len() == 0 {
        Seq::empty()
    } else if s.last() == '&' {
        strip_amp(s.drop_last())
    } else {
        strip_amp(s.drop_last()).push(s.last())
    }
}

/// How many `&`s the string holds.
pub open spec fn amp_count(s: Seq<char>) -> nat
    decreases s.len(),
{
    if s.len() == 0 {
        0
    } else {
        amp_count(s.drop_last()) + (if s.last() == '&' {
            1nat
        } else {
            0nat
        })
    }
}

/// A string cannot hold more `&`s than characters.
proof fn lemma_amp_count_le(s: Seq<char>)
    ensures
        amp_count(s) <= s.len(),
    decreases s.len(),
{
    if s.len() > 0 {
        lemma_amp_count_le(s.drop_last());
    }
}

/// The result of gathering all conjunctions at the end of the string.
pub open spec fn move_amp_spec(s: Seq<char>) -> Seq<char> {
    strip_amp(s) + Seq::new(amp_count(s), |i: int| '&')
}

/// Move every `&` of an RPN string to its end, keeping everything else in
/// order.
#[verifier::loop_isolation(false)]
pub fn move_conjunctions_to_end(formula: &str) -> (r: String)
    ensures
        r@ == move_amp_spec(formula@),
{
    let chars = crate::strutil::str_chars(formula);
    let n = chars.len();
    let mut out: Vec<char> = Vec::new();
    let mut count: usize = 0;
    let mut i: usize = 0;
    while i < n
        invariant
            i <= n,
            out@ == strip_amp(chars@.take(i as int)),
            count == amp_count(chars@.take(i as int)),
        decreases n - i,
    {
        proof {
            assert(chars@.take(i + 1).drop_last() =~= chars@.take(i as int));
            assert(chars@.take(i + 1).last() == chars@[i as int]);
        }
        let c = chars[i];
        if c == '&' {
            proof {
                lemma_amp_count_le(chars@.take(i as int));
            }
            count = count + 1;
        } else {
            out.push(c);
        }
        i = i + 1;
    }
    proof {
        assert(chars@.take(n as int) =~= chars@);
    }
    let mut k: usize = 0;
    while k < count
        invariant
            k <= count,
            out@ == strip_amp(chars@) + Seq::new(k as nat, |i: int| '&'),
        decreases count - k,
    {
        out.push('&');
        proof {
            assert(out@ =~= strip_amp(chars@) + Seq::new((k + 1) as nat, |i: int| '&'));
        }
        k = k + 1;
    }
    crate::strutil::chars_to_string(&out)
}

/// One literal of a clause: the variable itself when its row bit is `0`,
/// its negation when `1` (the clause negates the falsifying assignment).
pub open spec fn lit_part(vars: Seq<char>, i: int, k: int) -> Seq<char> {
    if row_cell(i, vars.len() as int, k) {
        seq![vars[k], '!']
    } else {
        seq![vars[k]]
    }
}

/// The clause of row `i` from position `k` on; every literal after the
/// first carries the `|` that joins it to the clause so far.
pub open spec fn clause_rec(vars: Seq<char>, i: int, k: int) -> Seq<char>
    decreases vars.len() - k,
{
    if k < 0 || k >= vars.len() {
        Seq::empty()
    } else {
        (if k == 0 {
            lit_part(vars, i, k)
        } else {
            lit_part(vars, i, k) + seq!['|']
        }) + clause_rec(vars, i, k + 1)
    }
}

/// The clause string of row `i`.
pub open spec fn clause_of_row(vars: Seq<char>, i: int) -> Seq<char> {
    clause_rec(vars, i, 0)
}

/// The concatenation of the clauses of all false rows from `r` on; every
/// clause after the first carries the `&` that joins it.
pub open spec fn cnf_rows_rec(vars: Seq<char>, tree: Node, r: int, rows: int, any: bool) -> Seq<
    char,
>
    decreases rows - r,
{
    if r < 0 || r >= rows {
        Seq::empty()
    } else if sem(tree, row_env(vars, r)) {
        cnf_rows_rec(vars, tree, r + 1, rows, any)
    } else {
        (if any {
            clause_of_row(vars, r) + seq!['&']
        } else {
            clause_of_row(vars, r)
        }) + cnf_rows_rec(vars, tree, r + 1, rows, true)
    }
}

/// The clause string the truth table of `tree` over `vars` synthesizes.
pub open spec fn spec_cnf_string(vars: Seq<char>, tree: Node) -> Seq<char> {
    cnf_rows_rec(vars, tree, 0, pow2n(vars.len() as nat) as int, false)
}

impl TruthTable {
    /// Synthesize the conjunctive normal form from the evaluated table: one
    /// disjunction per row whose result is `0`, negating that row's
    /// assignment, all joined by `&`.
    #[verifier::loop_isolation(false)]
    pub fn get_cnf_formula(&self) -> (r: String)
        requires
            self.wf(),
            forall|i: int|
                2 <= i < self.height ==> (#[trigger] self.truth_table@[i]@[self.width - 3])
                    == bit_char(sem(self.tree, row_env(self.unique_chars@, i - 2))),
        ensures
            r@ == spec_cnf_string(self.unique_chars@, self.tree),
    {
        let n = self.unique_chars.len();
        let rows = self.height - 2;
        let mut out: Vec<char> = Vec::new();
        let mut any = false;
        let mut i: usize = 0;
        proof {
            lemma_cnf_rows_rec_end(
                self.unique_chars@,
                self.tree,
                rows as int,
                rows as int,
                false,
            );
        }
        while i < rows
            invariant
                i <= rows,
                out@ + cnf_rows_rec(self.unique_chars@, self.tree, i as int, rows as int, any)
                    == spec_cnf_string(self.unique_chars@, self.tree),
                any == exists|r: int|
                    0 <= r < i && !sem(self.tree, row_env(self.unique_chars@, r)),
            decreases rows - i,
        {
            let res_cell = self.truth_table[i + 2][self.width - 3];
            proof {
                assert(self.truth_table@[i + 2]@[self.width - 3] == bit_char(
                    sem(self.tree, row_env(self.unique_chars@, i as int)),
                ));
            }
            if res_cell == '0' {
                assert(!sem(self.tree, row_env(self.unique_chars@, i as int)));
                let ghost out0 = out@;
                let ghost any0 = any;
                // the clause of this row
                let mut k: usize = 0;
                proof {
                    assert(out@ =~= out0 + clause_partial(self.unique_chars@, i as int, 0));
                }
                while k < n
                    invariant
                        k <= n,
                        out@ == out0 + clause_partial(self.unique_chars@, i as int, k as int),
                    decreases n - k,
                {
                    let c = self.unique_chars[k];
                    let bit = {
                        let ztf = crate::truth_table::pow2_exec(n - 1 - k);
                        (i / ztf) % 2 == 1
                    };
                    if k == 0 {
                        if bit {
                            out.push(c);
                            out.push('!');
                        } else {
                            out.push(c);
                        }
                    } else {
                        if bit {
                            out.push(c);
                            out.push('!');
                            out.push('|');
                        } else {
                            out.push(c);
                            out.push('|');
                        }
                    }
                    proof {
                        lemma_clause_partial_step(self.unique_chars@, i as int, k as int);
                        assert(out@ =~= out0 + clause_partial(
                            self.unique_chars@,
                            i as int,
                            k + 1,
                        ));
                    }
                    k = k + 1;
                }
                if any {
                    out.push('&');
                }
                proof {
                    lemma_clause_partial_full(self.unique_chars@, i as int);
                    if any0 {
                        assert(out@ =~= out0 + (clause_of_row(self.unique_chars@, i as int)
                            + seq!['&']));
                    } else {
                        assert(out@ =~= out0 + clause_of_row(self.unique_chars@, i as int));
                    }
                }
                any = true;
            }
            i = i + 1;
        }
        proof {
            assert(out@ + Seq::<char>::empty() =~= out@);
        }
        crate::strutil::chars_to_string(&out)
    }
}

/// The clause built from the first `k` literals, with trailing separators
/// attached as [`clause_rec`] attaches them.
pub open spec fn clause_partial(vars: Seq<char>, i: int, k: int) -> Seq<char>
    decreases k,
{
    if k <= 0 || k > vars.len() {
        Seq::empty()
    } else if k == 1 {
        lit_part(vars, i, 0)
    } else {
        clause_partial(vars, i, k - 1) + lit_part(vars, i, k - 1) + seq!['|']
    }
}

/// Appending literal `k` extends the partial clause.
proof fn lemma_clause_partial_step(vars: Seq<char>, i: int, k: int)
    requires
        0 <= k < vars.len(),
    ensures
        clause_partial(vars, i, k + 1) == clause_partial(vars, i, k) + (if k == 0 {
            lit_part(vars, i, 0)
        } else {
            lit_part(vars, i, k) + seq!['|']
        }),
{
    if k == 0 {
        assert(clause_partial(vars, i, 1) =~= Seq::empty() + lit_part(vars, i, 0));
    }
}

/// The complete partial clause is the clause of the row.
proof fn lemma_clause_partial_full(vars: Seq<char>, i: int)
    ensures
        clause_partial(vars, i, vars.len() as int) == clause_of_row(vars, i),
{
    lemma_clause_split(vars, i, vars.len() as int);
}

/// The partial clause from the left and the recursive clause from the
/// right together make the whole clause.
proof fn lemma_clause_split(vars: Seq<char>, i: int, k: int)
    requires
        0 <= k <= vars.len(),
    ensures
        clause_of_row(vars, i) == clause_partial(vars, i, k) + clause_rec(vars, i, k),
    decreases k,
{
    if k == 0 {
        assert(clause_of_row(vars, i) =~= Seq::empty() + clause_rec(vars, i, 0));
    } else {
        lemma_clause_split(vars, i, k - 1);
        if k == 1 {
            assert(clause_rec(vars, i, 0) == lit_part(vars, i, 0) + clause_rec(vars, i, 1));
            assert(clause_partial(vars, i, 1) == lit_part(vars, i, 0));
            assert(clause_of_row(vars, i) =~= clause_partial(vars, i, 1) + clause_rec(vars, i, 1));
        } else {
            assert(clause_rec(vars, i, k - 1) == lit_part(vars, i, k - 1) + seq!['|']
                + clause_rec(vars, i, k));
            assert(clause_partial(vars, i, k) == clause_partial(vars, i, k - 1) + lit_part(
                vars,
                i,
                k - 1,
            ) + seq!['|']);
            assert(clause_of_row(vars, i) =~= clause_partial(vars, i, k) + clause_rec(vars, i, k));
        }
    }
}

/// Past the last row nothing is appended.
proof fn lemma_cnf_rows_rec_end(vars: Seq<char>, tree: Node, r: int, rows: int, any: bool)
    requires
        r >= rows,
    ensures
        cnf_rows_rec(vars, tree, r, rows, any) == Seq::<char>::empty(),
{
}

/// Rewrite a formula over variables into conjunctive normal form.  When
/// the negation normal form is already a conjunction of disjunctions it is
/// returned as is (conjunctions gathered at the end); otherwise the normal
/// form is parsed back and its truth table yields one clause per false row.
pub fn conjunctive_normal_form(formula: &str) -> (r: Result<String, FormulaError>)
    ensures
        match r {
            Ok(s) => {
                &&& valid_formula(formula@)
                &&& has_variable(formula@)
                &&& ({
                    let m = nnf_spec(spec_parse(formula@)->Some_0, false);
                    let ms = serialize(m);
                    if spec_is_cnf(m) {
                        s@ == move_amp_spec(ms)
                    } else {
                        &&& valid_formula(ms)
                        &&& s@ == move_amp_spec(
                            spec_cnf_string(var_list(ms), spec_parse(ms)->Some_0),
                        )
                    }
                })
            },
            Err(_) => !valid_formula(formula@) || !has_variable(formula@) || ({
                let m = nnf_spec(spec_parse(formula@)->Some_0, false);
                !spec_is_cnf(m) && !valid_formula(serialize(m))
            }),
        },
{
    let nnf_string = match crate::nnf::negation_normal_form(formula) {
        Err(e) => {
            return Err(e);
        },
        Ok(s) => s,
    };
    let ghost m = nnf_spec(spec_parse(formula@)->Some_0, false);
    proof {
        crate::nnf::lemma_nnf_spec_is_nnf(spec_parse(formula@)->Some_0, false);
    }
    // the normal form itself decides the fast path
    let t5 = {
        let chars0 = crate::strutil::str_chars(formula);
        let t = match crate::parser::build_tree(&chars0) {
            Err(e) => {
                return Err(e);
            },
            Ok(t) => t,
        };
        let t1 = crate::nnf::rewrite_equivalence(&t);
        let t2 = crate::nnf::rewrite_material_conditions(&t1);
        let t3 = crate::nnf::rewrite_xor_operator(&t2);
        let t4 = crate::nnf::remove_double_negations(&t3);
        crate::nnf::morgan_law(&t4, false)
    };
    proof {
        let t = spec_parse(formula@)->Some_0;
        crate::nnf::lemma_nnf_collapse(
            crate::nnf::elim_xor_spec(
                crate::nnf::elim_implies_spec(crate::nnf::elim_equiv_spec(t)),
            ),
            false,
        );
        crate::nnf::lemma_nnf_elim_xor(
            crate::nnf::elim_implies_spec(crate::nnf::elim_equiv_spec(t)),
            false,
        );
        crate::nnf::lemma_nnf_elim_implies(crate::nnf::elim_equiv_spec(t), false);
        crate::nnf::lemma_nnf_elim_equiv(t, false);
        assert(t5 == m);
    }
    if is_valid_cnf(&t5) {
        return Ok(move_conjunctions_to_end(nnf_string.as_str()));
    }
    let chars = crate::strutil::str_chars(nnf_string.as_str());
    match crate::parser::build_tree(&chars) {
        Err(e) => {
            return Err(e);
        },
        Ok(_) => {},
    };
    // the normal form names a variable, so the table accepts it
    proof {
        let t = spec_parse(formula@)->Some_0;
        crate::parser::lemma_parse_leaves(formula@);
        let vars = Set::new(|c: char| crate::ast::is_variable_char(c));
        assert forall|c: char|
            crate::parser::value_chars(formula@).contains(c) implies vars.contains(c) by {
            if crate::parser::has_literal(formula@) {
                assert(!crate::parser::chars_ok(formula@));
            }
        }
        crate::ast::lemma_leaves_mono(t, crate::parser::value_chars(formula@), vars);
        crate::nnf::lemma_nnf_spec_leaves(t, false, vars);
        crate::nnf::lemma_serialize_nnf_chars(m);
        assert(nnf_string@[0] == serialize(m)[0]);
        assert(has_variable(nnf_string@)) by {
            assert(crate::ast::is_variable_char(nnf_string@[0]));
        }
    }
    let mut table = match TruthTable::new(nnf_string.as_str()) {
        Err(e) => {
            proof {
                assert(false);
            }
            return Err(e);
        },
        Ok(t) => t,
    };
    table.fill();
    table.eval();
    let raw = table.get_cnf_formula();
    Ok(move_conjunctions_to_end(raw.as_str()))
}


// === Why the synthesized conjunction is equivalent: the parse of the
// === generated string, clause by clause ==================================

/// Run the parser from position `i` up to (not including) position `j`.
pub open spec fn run_upto(s: Seq<char>, i: int, j: int, st: crate::parser::ParseState) -> Option<
    crate::parser::ParseState,
>
    decreases j - i,
{
    if i >= j || i < 0 {
        Some(st)
    } else {
        match crate::parser::step(st, s[i], i == s.len() - 1) {
            None => None,
            Some(st2) => run_upto(s, i + 1, j, st2),
        }
    }
}

/// A full run splits at any midpoint.
pub proof fn lemma_run_split(s: Seq<char>, i: int, j: int, st: crate::parser::ParseState)
    requires
        0 <= i <= j <= s.len(),
    ensures
        crate::parser::run_parser(s, i, st) == match run_upto(s, i, j, st) {
            None => None::<crate::parser::ParseState>,
            Some(t) => crate::parser::run_parser(s, j, t),
        },
    decreases j - i,
{
    if i < j {
        match crate::parser::step(st, s[i], i == s.len() - 1) {
            None => {},
            Some(st2) => {
                lemma_run_split(s, i + 1, j, st2);
            },
        }
    }
}

/// Two runs over adjacent windows chain together.
pub proof fn lemma_run_upto_chain(
    s: Seq<char>,
    i: int,
    j: int,
    k: int,
    st: crate::parser::ParseState,
)
    requires
        0 <= i <= j <= k,
    ensures
        run_upto(s, i, k, st) == match run_upto(s, i, j, st) {
            None => None::<crate::parser::ParseState>,
            Some(t) => run_upto(s, j, k, t),
        },
    decreases j - i,
{
    if i < j {
        match crate::parser::step(st, s[i], i == s.len() - 1) {
            None => {},
            Some(st2) => {
                lemma_run_upto_chain(s, i + 1, j, k, st2);
            },
        }
    }
}

/// Different row indices differ in some column bit.
pub proof fn lemma_row_cells_distinguish(n: int, x: int, y: int)
    requires
        n >= 1,
        0 <= x < pow2n(n as nat),
        0 <= y < pow2n(n as nat),
        x != y,
    ensures
        exists|k: int| 0 <= k < n && #[trigger] row_cell(x, n, k) != row_cell(y, n, k),
    decreases n,
{
    vstd::arithmetic::div_mod::lemma_fundamental_div_mod(x, 2);
    vstd::arithmetic::div_mod::lemma_fundamental_div_mod(y, 2);
    assert(pow2n(0) == 1);
    assert(x / (pow2n(0) as int) == x) by {
        vstd::arithmetic::div_mod::lemma_div_by_self(1);
        assert(x / 1 == x) by (nonlinear_arith);
    }
    assert(y / (pow2n(0) as int) == y) by {
        assert(y / 1 == y) by (nonlinear_arith);
    }
    if x % 2 != y % 2 {
        assert(row_cell(x, n, n - 1) == (x % 2 == 1));
        assert(row_cell(y, n, n - 1) == (y % 2 == 1));
        assert(row_cell(x, n, n - 1) != row_cell(y, n, n - 1));
    } else {
        assert(x / 2 != y / 2);
        assert(n >= 2) by {
            if n == 1 {
                assert(pow2n(1) == 2);
                assert(x < 2 && y < 2);
                assert(x % 2 == x && y % 2 == y) by (nonlinear_arith)
                    requires
                        0 <= x < 2 && 0 <= y < 2,
                ;
            }
        }
        assert(pow2n(n as nat) == 2 * pow2n((n - 1) as nat));
        assert(0 <= x / 2 < pow2n((n - 1) as nat)) by (nonlinear_arith)
            requires
                0 <= x < 2 * pow2n((n - 1) as nat) && x == 2 * (x / 2) + x % 2 && 0 <= x % 2 < 2,
        ;
        assert(0 <= y / 2 < pow2n((n - 1) as nat)) by (nonlinear_arith)
            requires
                0 <= y < 2 * pow2n((n - 1) as nat) && y == 2 * (y / 2) + y % 2 && 0 <= y % 2 < 2,
        ;
        lemma_row_cells_distinguish(n - 1, x / 2, y / 2);
        let k = choose|k: int|
            0 <= k < n - 1 && #[trigger] row_cell(x / 2, n - 1, k) != row_cell(y / 2, n - 1, k);
        // row_cell over n columns agrees with row_cell of the half over n-1
        lemma_row_cell_half(n, x, k);
        lemma_row_cell_half(n, y, k);
        assert(row_cell(x, n, k) != row_cell(y, n, k));
    }
}

/// Halving the row index drops the last column: the first `n-1` column
/// bits of `x` are the column bits of `x / 2`.
proof fn lemma_row_cell_half(n: int, x: int, k: int)
    requires
        n >= 2,
        0 <= k < n - 1,
        x >= 0,
    ensures
        row_cell(x, n, k) == row_cell(x / 2, n - 1, k),
{
    let e = (n - 2 - k) as nat;
    assert(pow2n((n - 1 - k) as nat) == 2 * pow2n(e));
    assert(pow2n(e) >= 1) by {
        crate::truth_table::lemma_pow2n_pos(e);
    }
    vstd::arithmetic::div_mod::lemma_div_denominator(x, 2, pow2n(e) as int);
    assert(x / (2 * pow2n(e) as int) == (x / 2) / (pow2n(e) as int));
}


/// The tree of one clause literal: the variable, negated when its row bit
/// is set.
pub open spec fn lit_node(vars: Seq<char>, r: int, k: int) -> Node {
    if row_cell(r, vars.len() as int, k) {
        Node::Not(Box::new(Node::Leaf(vars[k])))
    } else {
        Node::Leaf(vars[k])
    }
}

/// The tree the builder makes of a clause's first `k` literals: a
/// left-leaning chain of `|`.
pub open spec fn clause_tree_rec(vars: Seq<char>, r: int, k: int) -> Node
    decreases k,
{
    if k <= 2 {
        Node::Binary(
            BinOp::Or,
            Box::new(lit_node(vars, r, 0)),
            Box::new(lit_node(vars, r, 1)),
        )
    } else {
        Node::Binary(
            BinOp::Or,
            Box::new(clause_tree_rec(vars, r, k - 1)),
            Box::new(lit_node(vars, r, k - 1)),
        )
    }
}

/// The whole clause of row `r`.
pub open spec fn clause_tree(vars: Seq<char>, r: int) -> Node {
    clause_tree_rec(vars, r, vars.len() as int)
}

/// Unfolding equation: the truth value of a fresh `|` node.
proof fn cnf_eq_sem_or(a: Node, b: Node, env: Map<char, bool>)
    ensures
        sem(Node::Binary(BinOp::Or, Box::new(a), Box::new(b)), env) == (sem(a, env) || sem(
            b,
            env,
        )),
{
    let ba = Box::new(a);
    let bb = Box::new(b);
    assert(*ba == a);
    assert(*bb == b);
}

/// Unfolding equation: the truth value of a fresh `&` node.
proof fn cnf_eq_sem_and(a: Node, b: Node, env: Map<char, bool>)
    ensures
        sem(Node::Binary(BinOp::And, Box::new(a), Box::new(b)), env) == (sem(a, env) && sem(
            b,
            env,
        )),
{
    let ba = Box::new(a);
    let bb = Box::new(b);
    assert(*ba == a);
    assert(*bb == b);
}

/// A literal's truth value under a row assignment: true exactly when that
/// row differs from the clause's row in this column.
proof fn lemma_lit_node_sem(vars: Seq<char>, r: int, k: int, i: int)
    requires
        crate::truth_table::sorted_distinct(vars),
        forall|j: int| 0 <= j < vars.len() ==> crate::ast::is_variable_char(#[trigger] vars[j]),
        0 <= k < vars.len(),
    ensures
        sem(lit_node(vars, r, k), row_env(vars, i)) == (row_cell(i, vars.len() as int, k)
            != row_cell(r, vars.len() as int, k)),
{
    let n = vars.len() as int;
    let env = row_env(vars, i);
    assert(vars.contains(vars[k])) by {
        assert(vars[k] == vars[k]);
    }
    let idx = vars.index_of(vars[k]);
    assert(0 <= idx < vars.len() && vars[idx] == vars[k]);
    assert(idx == k) by {
        if idx < k {
            assert(vars[idx] < vars[k]);
        } else if idx > k {
            assert(vars[k] < vars[idx]);
        }
    }
    assert(env[vars[k]] == row_cell(i, n, k));
    assert(!crate::ast::is_literal_char(vars[k]));
    assert(sem(Node::Leaf(vars[k]), env) == row_cell(i, n, k));
    if row_cell(r, n, k) {
        let b = Box::new(Node::Leaf(vars[k]));
        assert(*b == Node::Leaf(vars[k]));
        assert(sem(Node::Not(b), env) == !sem(Node::Leaf(vars[k]), env));
    }
}

/// The clause of row `r` is true under row `i` exactly when the two rows
/// differ in one of the first `k` columns.
proof fn lemma_clause_tree_sem(vars: Seq<char>, r: int, k: int, i: int)
    requires
        crate::truth_table::sorted_distinct(vars),
        forall|j: int| 0 <= j < vars.len() ==> crate::ast::is_variable_char(#[trigger] vars[j]),
        2 <= k <= vars.len(),
    ensures
        sem(clause_tree_rec(vars, r, k), row_env(vars, i)) == exists|j: int|
            0 <= j < k && #[trigger] row_cell(i, vars.len() as int, j) != row_cell(
                r,
                vars.len() as int,
                j,
            ),
    decreases k,
{
    let n = vars.len() as int;
    let env = row_env(vars, i);
    if k == 2 {
        lemma_lit_node_sem(vars, r, 0, i);
        lemma_lit_node_sem(vars, r, 1, i);
        cnf_eq_sem_or(lit_node(vars, r, 0), lit_node(vars, r, 1), env);
        if sem(clause_tree_rec(vars, r, k), env) {
            if sem(lit_node(vars, r, 0), env) {
                assert(row_cell(i, n, 0) != row_cell(r, n, 0));
            } else {
                assert(row_cell(i, n, 1) != row_cell(r, n, 1));
            }
        }
    } else {
        lemma_clause_tree_sem(vars, r, k - 1, i);
        lemma_lit_node_sem(vars, r, k - 1, i);
        cnf_eq_sem_or(clause_tree_rec(vars, r, k - 1), lit_node(vars, r, k - 1), env);
        if sem(clause_tree_rec(vars, r, k), env) {
            if sem(clause_tree_rec(vars, r, k - 1), env) {
                let j = choose|j: int|
                    0 <= j < k - 1 && #[trigger] row_cell(i, n, j) != row_cell(r, n, j);
                assert(row_cell(i, n, j) != row_cell(r, n, j));
            } else {
                assert(row_cell(i, n, k - 1) != row_cell(r, n, k - 1));
            }
        } else {
            assert(forall|j: int|
                0 <= j < k - 1 ==> #[trigger] row_cell(i, n, j) == row_cell(r, n, j));
            assert(row_cell(i, n, k - 1) == row_cell(r, n, k - 1));
        }
    }
}

/// The clause is in clause shape.
proof fn lemma_clause_tree_shape(vars: Seq<char>, r: int, k: int)
    requires
        2 <= k <= vars.len(),
    ensures
        spec_is_clause(clause_tree_rec(vars, r, k)),
    decreases k,
{
    let l0 = lit_node(vars, r, 0);
    let l1 = lit_node(vars, r, 1);
    assert(spec_is_clause(l0)) by {
        if row_cell(r, vars.len() as int, 0) {
            let b = Box::new(Node::Leaf(vars[0]));
            assert(*b == Node::Leaf(vars[0]));
        }
    }
    assert(spec_is_clause(l1)) by {
        if row_cell(r, vars.len() as int, 1) {
            let b = Box::new(Node::Leaf(vars[1]));
            assert(*b == Node::Leaf(vars[1]));
        }
    }
    if k == 2 {
        let ba = Box::new(l0);
        let bb = Box::new(l1);
        assert(*ba == l0 && *bb == l1);
    } else {
        lemma_clause_tree_shape(vars, r, k - 1);
        let lk = lit_node(vars, r, k - 1);
        assert(spec_is_clause(lk)) by {
            if row_cell(r, vars.len() as int, k - 1) {
                let b = Box::new(Node::Leaf(vars[k - 1]));
                assert(*b == Node::Leaf(vars[k - 1]));
            }
        }
        let ba = Box::new(clause_tree_rec(vars, r, k - 1));
        let bb = Box::new(lk);
        assert(*ba == clause_tree_rec(vars, r, k - 1) && *bb == lk);
    }
}


/// Consuming one literal pushes its characters onto the pending stack.
proof fn lemma_consume_lit(
    s: Seq<char>,
    p: int,
    st: crate::parser::ParseState,
    vars: Seq<char>,
    r: int,
    k: int,
)
    requires
        forall|j: int| 0 <= j < vars.len() ==> crate::ast::is_variable_char(#[trigger] vars[j]),
        0 <= k < vars.len(),
        0 <= p,
        p + lit_part(vars, r, k).len() < s.len(),
        s.subrange(p, p + lit_part(vars, r, k).len()) == lit_part(vars, r, k),
    ensures
        run_upto(s, p, p + lit_part(vars, r, k).len(), st) == Some(
            crate::parser::ParseState {
                pending: if row_cell(r, vars.len() as int, k) {
                    st.pending.push(vars[k]).push('!')
                } else {
                    st.pending.push(vars[k])
                },
                after_binop: false,
                ..st
            },
        ),
{
    let lp = lit_part(vars, r, k);
    assert(s[p] == lp[0]);
    assert(lp[0] == vars[k]);
    assert(crate::ast::is_value_char(s[p]));
    let st1 = crate::parser::step_value(st, vars[k]);
    assert(crate::parser::step(st, s[p], p == s.len() - 1) == Some(st1));
    if row_cell(r, vars.len() as int, k) {
        assert(lp.len() == 2);
        assert(s[p + 1] == lp[1]);
        assert(lp[1] == '!');
        assert(p + 1 < s.len() - 1);
        assert(!st1.after_binop);
        assert(st1.pending.last() == vars[k]);
        assert(vars[k] != '!');
        let st2 = crate::parser::ParseState {
            pending: st.pending.push(vars[k]).push('!'),
            after_binop: false,
            ..st
        };
        assert(crate::parser::step_not(st1, false) == Some(st2));
        assert(crate::parser::step(st1, s[p + 1], p + 1 == s.len() - 1) == Some(st2));
        assert(run_upto(s, p + 2, p + 2, st2) == Some(st2));
        assert(run_upto(s, p + 1, p + 2, st1) == Some(st2));
        assert(run_upto(s, p, p + 2, st) == Some(st2));
    } else {
        assert(lp.len() == 1);
        assert(run_upto(s, p + 1, p + 1, st1) == Some(st1));
        assert(run_upto(s, p, p + 1, st) == Some(st1));
        assert(st1 == crate::parser::ParseState {
            pending: st.pending.push(vars[k]),
            after_binop: false,
            ..st
        });
    }
}

/// How many deferred markers one or two pending literals hold.
proof fn lemma_deferred_lits(base: Seq<char>, vars: Seq<char>, r: int, k: int)
    requires
        forall|j: int| 0 <= j < vars.len() ==> crate::ast::is_variable_char(#[trigger] vars[j]),
        0 <= k < vars.len(),
    ensures
        row_cell(r, vars.len() as int, k) ==> crate::parser::deferred_count(
            base.push(vars[k]).push('!'),
        ) == crate::parser::deferred_count(base) + 1,
        !row_cell(r, vars.len() as int, k) ==> crate::parser::deferred_count(base.push(vars[k]))
            == crate::parser::deferred_count(base),
{
    assert(base.push(vars[k]).drop_last() =~= base);
    assert(vars[k] != '!');
    assert(base.push(vars[k]).last() == vars[k]);
    assert(crate::parser::deferred_count(base.push(vars[k])) == crate::parser::deferred_count(
        base,
    ));
    if row_cell(r, vars.len() as int, k) {
        assert(base.push(vars[k]).push('!').drop_last() =~= base.push(vars[k]));
        assert(base.push(vars[k]).push('!').last() == '!');
        assert(crate::parser::deferred_count(base.push(vars[k]).push('!'))
            == crate::parser::deferred_count(base.push(vars[k])) + 1);
    }
}

/// Popping a just-pushed literal gives its node back.
proof fn lemma_pop_lit(base: Seq<char>, vars: Seq<char>, r: int, k: int)
    requires
        forall|j: int| 0 <= j < vars.len() ==> crate::ast::is_variable_char(#[trigger] vars[j]),
        0 <= k < vars.len(),
    ensures
        row_cell(r, vars.len() as int, k) ==> crate::parser::spec_pop_value(
            base.push(vars[k]).push('!'),
        ) == Some((lit_node(vars, r, k), base)),
        !row_cell(r, vars.len() as int, k) ==> crate::parser::spec_pop_value(base.push(vars[k]))
            == Some((lit_node(vars, r, k), base)),
{
    if row_cell(r, vars.len() as int, k) {
        let q = base.push(vars[k]).push('!');
        assert(q.last() == '!');
        assert(q.len() >= 2);
        assert(q[q.len() - 2] == vars[k]);
        assert(q.take(q.len() - 2) =~= base);
        let b = Box::new(Node::Leaf(vars[k]));
        assert(*b == Node::Leaf(vars[k]));
        assert(crate::parser::spec_pop_value(q) == Some((Node::Not(b), base)));
    } else {
        let q = base.push(vars[k]);
        assert(q.last() == vars[k] && vars[k] != '!');
        assert(q.drop_last() =~= base);
    }
}

/// Consuming the first `k` literals of a clause (with their separators)
/// from an empty pending stack leaves the clause tree so far on top.
proof fn lemma_consume_clause_prefix(
    s: Seq<char>,
    p: int,
    st: crate::parser::ParseState,
    vars: Seq<char>,
    r: int,
    k: int,
)
    requires
        crate::truth_table::sorted_distinct(vars),
        forall|j: int| 0 <= j < vars.len() ==> crate::ast::is_variable_char(#[trigger] vars[j]),
        2 <= k <= vars.len(),
        0 <= p,
        p + clause_partial(vars, r, k).len() <= s.len(),
        s.subrange(p, p + clause_partial(vars, r, k).len()) == clause_partial(vars, r, k),
        st.pending == Seq::<char>::empty(),
        !st.attach_left,
    ensures
        run_upto(s, p, p + clause_partial(vars, r, k).len(), st) == Some(
            crate::parser::ParseState {
                pending: Seq::empty(),
                trees: st.trees.push(clause_tree_rec(vars, r, k)),
                attach_left: false,
                after_binop: true,
            },
        ),
    decreases k,
{
    let n = vars.len() as int;
    if k == 2 {
        let l0 = lit_part(vars, r, 0);
        let l1 = lit_part(vars, r, 1);
        let w = clause_partial(vars, r, 2);
        assert(w == clause_partial(vars, r, 1) + l1 + seq!['|']);
        assert(clause_partial(vars, r, 1) == l0);
        assert(w.len() == l0.len() + l1.len() + 1);
        // first literal
        assert(s.subrange(p, p + l0.len()) =~= l0) by {
            assert(forall|t: int| 0 <= t < l0.len() ==> (#[trigger] s[p + t]) == w[t]);
        }
        assert(p + l0.len() < s.len());
        lemma_consume_lit(s, p, st, vars, r, 0);
        let p1 = p + l0.len();
        let st1 = run_upto(s, p, p1, st)->Some_0;
        // second literal
        assert(s.subrange(p1, p1 + l1.len()) =~= l1) by {
            assert(forall|t: int| 0 <= t < l1.len() ==> (#[trigger] s[p1 + t]) == w[l0.len() + t]);
            assert(forall|t: int| 0 <= t < l1.len() ==> (#[trigger] l1[t]) == w[l0.len() + t]);
        }
        assert(p1 + l1.len() < s.len());
        lemma_consume_lit(s, p1, st1, vars, r, 1);
        let p2 = p1 + l1.len();
        let st2 = run_upto(s, p1, p2, st1)->Some_0;
        // the '|'
        assert(s[p2] == w[w.len() - 1]);
        assert(w[w.len() - 1] == '|') by {
            assert(w.last() == '|');
        }
        lemma_deferred_lits(Seq::empty(), vars, r, 0);
        lemma_deferred_lits(st1.pending, vars, r, 1);
        assert(st2.pending.len() - crate::parser::deferred_count(st2.pending) == 2);
        lemma_pop_lit(st1.pending, vars, r, 1);
        lemma_pop_lit(Seq::empty(), vars, r, 0);
        let merged = Node::Binary(
            BinOp::Or,
            Box::new(lit_node(vars, r, 0)),
            Box::new(lit_node(vars, r, 1)),
        );
        let st3 = crate::parser::ParseState {
            pending: Seq::empty(),
            trees: st.trees.push(merged),
            attach_left: false,
            after_binop: true,
        };
        assert(crate::parser::step_binop(st2, BinOp::Or) == Some(st3)) by {
            let ba = Box::new(lit_node(vars, r, 0));
            let bb = Box::new(lit_node(vars, r, 1));
            assert(*ba == lit_node(vars, r, 0) && *bb == lit_node(vars, r, 1));
        }
        assert(crate::parser::step(st2, s[p2], p2 == s.len() - 1) == Some(st3)) by {
            assert(crate::parser::binop_of('|') == BinOp::Or);
            assert(!crate::ast::is_value_char('|'));
            assert(crate::ast::is_binop_char('|'));
        }
        assert(run_upto(s, p2 + 1, p2 + 1, st3) == Some(st3));
        assert(run_upto(s, p2, p2 + 1, st2) == Some(st3));
        lemma_run_upto_chain(s, p, p1, p2 + 1, st);
        lemma_run_upto_chain(s, p1, p2, p2 + 1, st1);
        assert(clause_tree_rec(vars, r, 2) == merged);
    } else {
        let w = clause_partial(vars, r, k);
        let wk = clause_partial(vars, r, k - 1);
        let lk = lit_part(vars, r, k - 1);
        assert(w == wk + lk + seq!['|']);
        assert(s.subrange(p, p + wk.len()) =~= wk) by {
            assert(forall|t: int| 0 <= t < wk.len() ==> (#[trigger] s[p + t]) == w[t]);
            assert(forall|t: int| 0 <= t < wk.len() ==> (#[trigger] wk[t]) == w[t]);
        }
        lemma_consume_clause_prefix(s, p, st, vars, r, k - 1);
        let p1 = p + wk.len();
        let st1 = run_upto(s, p, p1, st)->Some_0;
        assert(s.subrange(p1, p1 + lk.len()) =~= lk) by {
            assert(forall|t: int| 0 <= t < lk.len() ==> (#[trigger] s[p1 + t]) == w[wk.len() + t]);
            assert(forall|t: int| 0 <= t < lk.len() ==> (#[trigger] lk[t]) == w[wk.len() + t]);
        }
        assert(p1 + lk.len() < s.len());
        lemma_consume_lit(s, p1, st1, vars, r, k - 1);
        let p2 = p1 + lk.len();
        let st2 = run_upto(s, p1, p2, st1)->Some_0;
        assert(s[p2] == w[w.len() - 1]);
        assert(w[w.len() - 1] == '|') by {
            assert(w.last() == '|');
        }
        lemma_deferred_lits(Seq::empty(), vars, r, k - 1);
        assert(st2.pending.len() - crate::parser::deferred_count(st2.pending) == 1);
        lemma_pop_lit(Seq::empty(), vars, r, k - 1);
        let merged = Node::Binary(
            BinOp::Or,
            Box::new(clause_tree_rec(vars, r, k - 1)),
            Box::new(lit_node(vars, r, k - 1)),
        );
        let st3 = crate::parser::ParseState {
            pending: Seq::empty(),
            trees: st.trees.push(merged),
            attach_left: false,
            after_binop: true,
        };
        assert(crate::parser::step_binop(st2, BinOp::Or) == Some(st3)) by {
            assert(st2.trees.len() >= 1);
            assert(st2.trees.last() == clause_tree_rec(vars, r, k - 1));
            let ba = Box::new(clause_tree_rec(vars, r, k - 1));
            let bb = Box::new(lit_node(vars, r, k - 1));
            assert(*ba == clause_tree_rec(vars, r, k - 1) && *bb == lit_node(vars, r, k - 1));
            assert(st2.trees.drop_last().push(merged) =~= st.trees.push(merged));
        }
        assert(crate::parser::step(st2, s[p2], p2 == s.len() - 1) == Some(st3)) by {
            assert(crate::parser::binop_of('|') == BinOp::Or);
            assert(!crate::ast::is_value_char('|'));
            assert(crate::ast::is_binop_char('|'));
        }
        assert(run_upto(s, p2 + 1, p2 + 1, st3) == Some(st3));
        assert(run_upto(s, p2, p2 + 1, st2) == Some(st3));
        lemma_run_upto_chain(s, p, p1, p2 + 1, st);
        lemma_run_upto_chain(s, p1, p2, p2 + 1, st1);
        assert(clause_tree_rec(vars, r, k) == merged);
    }
}


/// The clauses of the false rows from `r` on, as trees.
pub open spec fn false_clause_trees(vars: Seq<char>, tree: Node, r: int, rows: int) -> Seq<Node>
    decreases rows - r,
{
    if r < 0 || r >= rows {
        Seq::empty()
    } else if sem(tree, row_env(vars, r)) {
        false_clause_trees(vars, tree, r + 1, rows)
    } else {
        seq![clause_tree(vars, r)] + false_clause_trees(vars, tree, r + 1, rows)
    }
}

/// The clauses of the false rows from `r` on, as text, without separators.
pub open spec fn clauses_cat(vars: Seq<char>, tree: Node, r: int, rows: int) -> Seq<char>
    decreases rows - r,
{
    if r < 0 || r >= rows {
        Seq::empty()
    } else if sem(tree, row_env(vars, r)) {
        clauses_cat(vars, tree, r + 1, rows)
    } else {
        clause_of_row(vars, r) + clauses_cat(vars, tree, r + 1, rows)
    }
}

/// Stripping and counting conjunctions distribute over concatenation.
proof fn lemma_amp_concat(a: Seq<char>, b: Seq<char>)
    ensures
        strip_amp(a + b) == strip_amp(a) + strip_amp(b),
        amp_count(a + b) == amp_count(a) + amp_count(b),
    decreases b.len(),
{
    if b.len() == 0 {
        assert(a + b =~= a);
        assert(strip_amp(a) + Seq::<char>::empty() =~= strip_amp(a));
    } else {
        lemma_amp_concat(a, b.drop_last());
        assert((a + b).drop_last() =~= a + b.drop_last());
        assert((a + b).last() == b.last());
        if b.last() == '&' {
        } else {
            assert((strip_amp(a) + strip_amp(b.drop_last())).push(b.last()) =~= strip_amp(a)
                + strip_amp(b.drop_last()).push(b.last()));
        }
    }
}

/// A string without `&` is left alone by the gathering.
proof fn lemma_amp_free(sq: Seq<char>)
    requires
        forall|t: int| 0 <= t < sq.len() ==> (#[trigger] sq[t]) != '&',
    ensures
        strip_amp(sq) == sq,
        amp_count(sq) == 0,
    decreases sq.len(),
{
    if sq.len() > 0 {
        lemma_amp_free(sq.drop_last());
        assert(sq.drop_last().push(sq.last()) =~= sq);
    }
}

/// Every character of a clause is a variable, `!` or `|`.
proof fn lemma_clause_chars(vars: Seq<char>, r: int, k: int)
    requires
        forall|j: int| 0 <= j < vars.len() ==> crate::ast::is_variable_char(#[trigger] vars[j]),
        0 <= k <= vars.len(),
    ensures
        forall|t: int|
            0 <= t < clause_partial(vars, r, k).len() ==> crate::ast::is_variable_char(
                #[trigger] clause_partial(vars, r, k)[t],
            ) || clause_partial(vars, r, k)[t] == '!' || clause_partial(vars, r, k)[t] == '|',
    decreases k,
{
    let w = clause_partial(vars, r, k);
    if k == 0 {
    } else if k == 1 {
        assert(w == lit_part(vars, r, 0));
        assert forall|t: int|
            0 <= t < w.len() implies crate::ast::is_variable_char(#[trigger] w[t]) || w[t] == '!'
            || w[t] == '|' by {
            if row_cell(r, vars.len() as int, 0) {
                assert(w =~= seq![vars[0], '!']);
            } else {
                assert(w =~= seq![vars[0]]);
            }
        }
    } else {
        lemma_clause_chars(vars, r, k - 1);
        let wp = clause_partial(vars, r, k - 1);
        let lp = lit_part(vars, r, k - 1);
        assert(w == wp + lp + seq!['|']);
        assert forall|t: int|
            0 <= t < w.len() implies crate::ast::is_variable_char(#[trigger] w[t]) || w[t] == '!'
            || w[t] == '|' by {
            if t < wp.len() {
                assert(w[t] == wp[t]);
            } else if t < wp.len() + lp.len() {
                assert(w[t] == lp[t - wp.len()]);
                if row_cell(r, vars.len() as int, k - 1) {
                    assert(lp =~= seq![vars[k - 1], '!']);
                } else {
                    assert(lp =~= seq![vars[k - 1]]);
                }
            } else {
                assert(w[t] == '|');
            }
        }
    }
}

/// What the generated conjunction string is made of: the clauses in order,
/// and one `&` for every clause after the first.
proof fn lemma_cnf_string_structure(vars: Seq<char>, tree: Node, r: int, rows: int, any: bool)
    requires
        forall|j: int| 0 <= j < vars.len() ==> crate::ast::is_variable_char(#[trigger] vars[j]),
        vars.len() >= 1,
    ensures
        strip_amp(cnf_rows_rec(vars, tree, r, rows, any)) == clauses_cat(vars, tree, r, rows),
        amp_count(cnf_rows_rec(vars, tree, r, rows, any)) == (if any {
            false_clause_trees(vars, tree, r, rows).len() as int
        } else if false_clause_trees(vars, tree, r, rows).len() > 0 {
            false_clause_trees(vars, tree, r, rows).len() - 1
        } else {
            0int
        }),
    decreases rows - r,
{
    if r < 0 || r >= rows {
    } else if sem(tree, row_env(vars, r)) {
        lemma_cnf_string_structure(vars, tree, r + 1, rows, any);
    } else {
        lemma_cnf_string_structure(vars, tree, r + 1, rows, true);
        let c = clause_of_row(vars, r);
        lemma_clause_chars(vars, r, vars.len() as int);
        lemma_clause_split(vars, r, vars.len() as int);
        assert(c == clause_partial(vars, r, vars.len() as int) + clause_rec(
            vars,
            r,
            vars.len() as int,
        ));
        assert(clause_rec(vars, r, vars.len() as int) =~= Seq::<char>::empty());
        assert(c =~= clause_partial(vars, r, vars.len() as int));
        assert(forall|t: int| 0 <= t < c.len() ==> (#[trigger] c[t]) != '&');
        lemma_amp_free(c);
        let rest = cnf_rows_rec(vars, tree, r + 1, rows, true);
        if any {
            assert(cnf_rows_rec(vars, tree, r, rows, any) == (c + seq!['&']) + rest);
            lemma_amp_concat(c + seq!['&'], rest);
            lemma_amp_concat(c, seq!['&']);
            let amp = seq!['&'];
            assert(amp.len() == 1 && amp.last() == '&');
            assert(amp.drop_last() =~= Seq::<char>::empty());
            assert(amp_count(Seq::<char>::empty()) == 0);
            assert(strip_amp(Seq::<char>::empty()) =~= Seq::<char>::empty());
            assert(amp_count(amp) == 1);
            assert(strip_amp(amp) =~= Seq::<char>::empty());
            assert(strip_amp(c + seq!['&']) =~= c);
            assert(strip_amp(cnf_rows_rec(vars, tree, r, rows, any)) =~= c + clauses_cat(
                vars,
                tree,
                r + 1,
                rows,
            ));
        } else {
            assert(cnf_rows_rec(vars, tree, r, rows, any) == c + rest);
            lemma_amp_concat(c, rest);
        }
    }
}

/// Consuming all clauses of the false rows pushes their trees in order.
proof fn lemma_consume_clauses(
    s: Seq<char>,
    p: int,
    st: crate::parser::ParseState,
    vars: Seq<char>,
    tree: Node,
    r: int,
    rows: int,
)
    requires
        crate::truth_table::sorted_distinct(vars),
        forall|j: int| 0 <= j < vars.len() ==> crate::ast::is_variable_char(#[trigger] vars[j]),
        vars.len() >= 2,
        0 <= p,
        p + clauses_cat(vars, tree, r, rows).len() <= s.len(),
        s.subrange(p, p + clauses_cat(vars, tree, r, rows).len()) == clauses_cat(
            vars,
            tree,
            r,
            rows,
        ),
        st.pending == Seq::<char>::empty(),
        !st.attach_left,
    ensures
        run_upto(s, p, p + clauses_cat(vars, tree, r, rows).len(), st) == Some(
            crate::parser::ParseState {
                pending: Seq::empty(),
                trees: st.trees + false_clause_trees(vars, tree, r, rows),
                attach_left: false,
                after_binop: if false_clause_trees(vars, tree, r, rows).len() > 0 {
                    true
                } else {
                    st.after_binop
                },
            },
        ),
    decreases rows - r,
{
    let cat = clauses_cat(vars, tree, r, rows);
    if r < 0 || r >= rows {
        assert(run_upto(s, p, p, st) == Some(st));
        assert(st.trees + Seq::<Node>::empty() =~= st.trees);
        assert(st == crate::parser::ParseState {
            pending: Seq::empty(),
            trees: st.trees + false_clause_trees(vars, tree, r, rows),
            attach_left: false,
            after_binop: st.after_binop,
        });
    } else if sem(tree, row_env(vars, r)) {
        lemma_consume_clauses(s, p, st, vars, tree, r + 1, rows);
    } else {
        let c = clause_of_row(vars, r);
        lemma_clause_split(vars, r, vars.len() as int);
        assert(clause_rec(vars, r, vars.len() as int) =~= Seq::<char>::empty());
        assert(c =~= clause_partial(vars, r, vars.len() as int));
        let rest = clauses_cat(vars, tree, r + 1, rows);
        assert(cat == c + rest);
        assert(s.subrange(p, p + c.len()) =~= clause_partial(vars, r, vars.len() as int)) by {
            assert(forall|t: int| 0 <= t < c.len() ==> (#[trigger] s[p + t]) == cat[t]);
            assert(forall|t: int| 0 <= t < c.len() ==> (#[trigger] c[t]) == cat[t]);
        }
        lemma_consume_clause_prefix(s, p, st, vars, r, vars.len() as int);
        let p1 = p + c.len();
        let st1 = crate::parser::ParseState {
            pending: Seq::empty(),
            trees: st.trees.push(clause_tree(vars, r)),
            attach_left: false,
            after_binop: true,
        };
        assert(run_upto(s, p, p1, st) == Some(st1));
        assert(s.subrange(p1, p1 + rest.len()) =~= rest) by {
            assert(forall|t: int| 0 <= t < rest.len() ==> (#[trigger] s[p1 + t]) == cat[c.len() + t]);
            assert(forall|t: int| 0 <= t < rest.len() ==> (#[trigger] rest[t]) == cat[c.len() + t]);
        }
        lemma_consume_clauses(s, p1, st1, vars, tree, r + 1, rows);
        lemma_run_upto_chain(s, p, p1, p + cat.len(), st);
        assert(st1.trees + false_clause_trees(vars, tree, r + 1, rows) =~= st.trees + (seq![
            clause_tree(vars, r),
        ] + false_clause_trees(vars, tree, r + 1, rows)));
    }
}


/// The right-leaning conjunction of the trees from index `i` on.
pub open spec fn and_fold(ts: Seq<Node>, i: int) -> Node
    decreases ts.len() - i,
{
    if i < 0 || i + 1 >= ts.len() {
        if 0 <= i < ts.len() {
            ts[i]
        } else {
            Node::Leaf('0')
        }
    } else {
        Node::Binary(BinOp::And, Box::new(ts[i]), Box::new(and_fold(ts, i + 1)))
    }
}

/// Merging the last two trees of the list does not change the fold.
proof fn lemma_and_fold_merge(ts: Seq<Node>, x: int)
    requires
        ts.len() >= 2,
        0 <= x <= ts.len() - 2,
    ensures
        and_fold(
            ts.take(ts.len() - 2).push(
                Node::Binary(
                    BinOp::And,
                    Box::new(ts[ts.len() - 2]),
                    Box::new(ts[ts.len() - 1]),
                ),
            ),
            x,
        ) == and_fold(ts, x),
    decreases ts.len() - x,
{
    let merged = Node::Binary(
        BinOp::And,
        Box::new(ts[ts.len() - 2]),
        Box::new(ts[ts.len() - 1]),
    );
    let ts2 = ts.take(ts.len() - 2).push(merged);
    assert(ts2.len() == ts.len() - 1);
    if x == ts.len() - 2 {
        assert(ts2[x] == merged);
        assert(and_fold(ts2, x) == merged);
        let bl = Box::new(ts[ts.len() - 2]);
        let br = Box::new(and_fold(ts, ts.len() - 1));
        assert(and_fold(ts, ts.len() - 1) == ts[ts.len() - 1]);
        assert(and_fold(ts, x) == Node::Binary(BinOp::And, bl, br));
    } else {
        lemma_and_fold_merge(ts, x + 1);
        assert(ts2[x] == ts[x]);
        assert(and_fold(ts2, x) == Node::Binary(
            BinOp::And,
            Box::new(ts2[x]),
            Box::new(and_fold(ts2, x + 1)),
        ));
        assert(and_fold(ts, x) == Node::Binary(
            BinOp::And,
            Box::new(ts[x]),
            Box::new(and_fold(ts, x + 1)),
        ));
    }
}

/// Consuming `j` conjunctions folds the top `j + 1` trees into one.
proof fn lemma_consume_amps(s: Seq<char>, p: int, st: crate::parser::ParseState, j: int)
    requires
        0 <= p,
        0 <= j,
        p + j <= s.len(),
        forall|t: int| 0 <= t < j ==> (#[trigger] s[p + t]) == '&',
        st.pending == Seq::<char>::empty(),
        st.trees.len() >= j + 1,
    ensures
        run_upto(s, p, p + j, st) == Some(
            crate::parser::ParseState {
                pending: Seq::empty(),
                trees: st.trees.take(st.trees.len() - 1 - j).push(
                    and_fold(st.trees, st.trees.len() - 1 - j),
                ),
                attach_left: st.attach_left,
                after_binop: if j > 0 {
                    true
                } else {
                    st.after_binop
                },
            },
        ),
    decreases j,
{
    let ts = st.trees;
    if j == 0 {
        assert(run_upto(s, p, p, st) == Some(st));
        assert(and_fold(ts, ts.len() - 1) == ts[ts.len() - 1]);
        assert(ts.take(ts.len() - 1).push(and_fold(ts, ts.len() - 1)) =~= ts);
    } else {
        assert(s[p + 0] == '&');
        assert(crate::parser::deferred_count(Seq::<char>::empty()) == 0);
        let merged = Node::Binary(
            BinOp::And,
            Box::new(ts[ts.len() - 2]),
            Box::new(ts[ts.len() - 1]),
        );
        let st2 = crate::parser::ParseState {
            pending: Seq::empty(),
            trees: ts.take(ts.len() - 2).push(merged),
            attach_left: st.attach_left,
            after_binop: true,
        };
        assert(crate::parser::step_binop(st, BinOp::And) == Some(st2)) by {
            let bl = Box::new(ts[ts.len() - 2]);
            let br = Box::new(ts[ts.len() - 1]);
            assert(*bl == ts[ts.len() - 2] && *br == ts[ts.len() - 1]);
        }
        assert(crate::parser::step(st, s[p], p == s.len() - 1) == Some(st2)) by {
            assert(crate::parser::binop_of('&') == BinOp::And);
            assert(!crate::ast::is_value_char('&'));
            assert(crate::ast::is_binop_char('&'));
        }
        assert(forall|t: int| 0 <= t < j - 1 ==> (#[trigger] s[p + 1 + t]) == '&') by {
            assert(forall|t: int| 0 <= t < j - 1 ==> (#[trigger] s[p + 1 + t]) == s[p + (t + 1)]);
        }
        lemma_consume_amps(s, p + 1, st2, j - 1);
        assert(run_upto(s, p, p + j, st) == run_upto(s, p + 1, p + j, st2));
        let ts2 = st2.trees;
        assert(ts2.len() == ts.len() - 1);
        lemma_and_fold_merge(ts, ts.len() - 1 - j);
        assert(ts2.take(ts2.len() - 1 - (j - 1)) =~= ts.take(ts.len() - 1 - j));
    }
}

/// The fold is true exactly when every folded tree is.
proof fn lemma_and_fold_sem(ts: Seq<Node>, i: int, env: Map<char, bool>)
    requires
        0 <= i < ts.len(),
    ensures
        sem(and_fold(ts, i), env) == forall|t: int| i <= t < ts.len() ==> sem(#[trigger] ts[t], env),
    decreases ts.len() - i,
{
    if i + 1 >= ts.len() {
        assert(and_fold(ts, i) == ts[i]);
    } else {
        lemma_and_fold_sem(ts, i + 1, env);
        cnf_eq_sem_and(ts[i], and_fold(ts, i + 1), env);
        if sem(and_fold(ts, i), env) {
            assert(forall|t: int| i + 1 <= t < ts.len() ==> sem(#[trigger] ts[t], env));
        }
    }
}

/// A fold of clauses is a conjunction of disjunctions.
proof fn lemma_and_fold_shape(ts: Seq<Node>, i: int)
    requires
        0 <= i < ts.len(),
        forall|t: int| 0 <= t < ts.len() ==> spec_is_clause(#[trigger] ts[t]),
    ensures
        spec_is_cnf(and_fold(ts, i)),
    decreases ts.len() - i,
{
    if i + 1 >= ts.len() {
        assert(and_fold(ts, i) == ts[i]);
        lemma_clause_is_cnf(ts[i]);
    } else {
        lemma_and_fold_shape(ts, i + 1);
        let bl = Box::new(ts[i]);
        let br = Box::new(and_fold(ts, i + 1));
        assert(*bl == ts[i] && *br == and_fold(ts, i + 1));
        lemma_clause_is_cnf(ts[i]);
    }
}

/// A clause by itself is already a conjunction of one disjunction.
proof fn lemma_clause_is_cnf(n: Node)
    requires
        spec_is_clause(n),
    ensures
        spec_is_cnf(n),
{
    match n {
        Node::Binary(op, a, b) => {
            assert(op == BinOp::Or);
        },
        _ => {},
    }
}

/// Every collected clause tree belongs to a false row, and all are in
/// clause shape.
proof fn lemma_fct_elements(vars: Seq<char>, tree: Node, r: int, rows: int)
    requires
        vars.len() >= 2,
    ensures
        forall|t: int|
            0 <= t < false_clause_trees(vars, tree, r, rows).len() ==> spec_is_clause(
                #[trigger] false_clause_trees(vars, tree, r, rows)[t],
            ),
    decreases rows - r,
{
    if r < 0 || r >= rows {
    } else if sem(tree, row_env(vars, r)) {
        lemma_fct_elements(vars, tree, r + 1, rows);
    } else {
        lemma_fct_elements(vars, tree, r + 1, rows);
        lemma_clause_tree_shape(vars, r, vars.len() as int);
        let fct = false_clause_trees(vars, tree, r, rows);
        let rest = false_clause_trees(vars, tree, r + 1, rows);
        assert(fct == seq![clause_tree(vars, r)] + rest);
        assert forall|t: int| 0 <= t < fct.len() implies spec_is_clause(#[trigger] fct[t]) by {
            if t == 0 {
                assert(fct[t] == clause_tree(vars, r));
            } else {
                assert(fct[t] == rest[t - 1]);
                assert(spec_is_clause(rest[t - 1]));
            }
        }
    }
}

/// Every clause of the collection is true under `env` exactly when every
/// false row's clause is.
proof fn lemma_fct_sem(vars: Seq<char>, tree: Node, r: int, rows: int, env: Map<char, bool>)
    requires
        0 <= r,
    ensures
        (forall|t: int|
            0 <= t < false_clause_trees(vars, tree, r, rows).len() ==> sem(
                #[trigger] false_clause_trees(vars, tree, r, rows)[t],
                env,
            )) == (forall|q: int|
            r <= q < rows && !sem(tree, row_env(vars, q)) ==> sem(
                #[trigger] clause_tree(vars, q),
                env,
            )),
    decreases rows - r,
{
    let fct = false_clause_trees(vars, tree, r, rows);
    let lhs = forall|t: int| 0 <= t < fct.len() ==> sem(#[trigger] fct[t], env);
    let rhs = forall|q: int|
        r <= q < rows && !sem(tree, row_env(vars, q)) ==> sem(#[trigger] clause_tree(vars, q), env);
    if r >= rows {
        assert(fct.len() == 0);
    } else if sem(tree, row_env(vars, r)) {
        lemma_fct_sem(vars, tree, r + 1, rows, env);
        assert(false_clause_trees(vars, tree, r + 1, rows) == fct);
        let rhs1 = forall|q: int|
            r + 1 <= q < rows && !sem(tree, row_env(vars, q)) ==> sem(
                #[trigger] clause_tree(vars, q),
                env,
            );
        if rhs1 {
            assert forall|q: int|
                r <= q < rows && !sem(tree, row_env(vars, q)) implies sem(
                #[trigger] clause_tree(vars, q),
                env,
            ) by {
                assert(q != r);
            }
        }
        if rhs {
            assert forall|q: int|
                r + 1 <= q < rows && !sem(tree, row_env(vars, q)) implies sem(
                #[trigger] clause_tree(vars, q),
                env,
            ) by {}
        }
    } else {
        lemma_fct_sem(vars, tree, r + 1, rows, env);
        let rest = false_clause_trees(vars, tree, r + 1, rows);
        assert(fct == seq![clause_tree(vars, r)] + rest);
        assert(fct.len() == 1 + rest.len());
        assert(fct[0] == clause_tree(vars, r));
        assert(forall|t: int| 1 <= t < fct.len() ==> (#[trigger] fct[t]) == rest[t - 1]);
        let lhs1 = forall|t: int| 0 <= t < rest.len() ==> sem(#[trigger] rest[t], env);
        let rhs1 = forall|q: int|
            r + 1 <= q < rows && !sem(tree, row_env(vars, q)) ==> sem(
                #[trigger] clause_tree(vars, q),
                env,
            );
        if lhs {
            assert forall|t: int| 0 <= t < rest.len() implies sem(#[trigger] rest[t], env) by {
                assert(rest[t] == fct[t + 1]);
                assert(sem(fct[t + 1], env));
            }
            assert(lhs1 && rhs1);
            assert forall|q: int|
                r <= q < rows && !sem(tree, row_env(vars, q)) implies sem(
                #[trigger] clause_tree(vars, q),
                env,
            ) by {
                if q == r {
                    assert(sem(fct[0], env));
                }
            }
        }
        if rhs {
            assert(sem(clause_tree(vars, r), env));
            assert(rhs1) by {
                assert forall|q: int|
                    r + 1 <= q < rows && !sem(tree, row_env(vars, q)) implies sem(
                    #[trigger] clause_tree(vars, q),
                    env,
                ) by {}
            }
            assert(lhs1);
            assert forall|t: int| 0 <= t < fct.len() implies sem(#[trigger] fct[t], env) by {
                if t == 0 {
                } else {
                    assert(fct[t] == rest[t - 1]);
                    assert(sem(rest[t - 1], env));
                }
            }
        }
    }
}

/// A false row contributes a clause.
proof fn lemma_fct_nonempty(vars: Seq<char>, tree: Node, r: int, rows: int, r0: int)
    requires
        0 <= r <= r0 < rows,
        !sem(tree, row_env(vars, r0)),
    ensures
        false_clause_trees(vars, tree, r, rows).len() >= 1,
    decreases rows - r,
{
    if r < r0 {
        lemma_fct_nonempty(vars, tree, r + 1, rows, r0);
    } else {
        assert(false_clause_trees(vars, tree, r, rows) == seq![clause_tree(vars, r)]
            + false_clause_trees(vars, tree, r + 1, rows));
    }
}

/// All characters of the clause text are variables, `!` or `|`.
proof fn lemma_cat_chars(vars: Seq<char>, tree: Node, r: int, rows: int)
    requires
        forall|j: int| 0 <= j < vars.len() ==> crate::ast::is_variable_char(#[trigger] vars[j]),
        vars.len() >= 1,
    ensures
        forall|t: int|
            0 <= t < clauses_cat(vars, tree, r, rows).len() ==> crate::ast::is_variable_char(
                #[trigger] clauses_cat(vars, tree, r, rows)[t],
            ) || clauses_cat(vars, tree, r, rows)[t] == '!' || clauses_cat(vars, tree, r, rows)[t]
                == '|',
    decreases rows - r,
{
    let cat = clauses_cat(vars, tree, r, rows);
    if r < 0 || r >= rows {
        assert(cat.len() == 0);
    } else if sem(tree, row_env(vars, r)) {
        lemma_cat_chars(vars, tree, r + 1, rows);
        assert(cat == clauses_cat(vars, tree, r + 1, rows));
    } else {
        lemma_cat_chars(vars, tree, r + 1, rows);
        lemma_clause_chars(vars, r, vars.len() as int);
        lemma_clause_split(vars, r, vars.len() as int);
        let c = clause_of_row(vars, r);
        assert(clause_rec(vars, r, vars.len() as int) =~= Seq::<char>::empty());
        assert(c =~= clause_partial(vars, r, vars.len() as int));
        let rest = clauses_cat(vars, tree, r + 1, rows);
        assert(cat == c + rest);
        assert forall|t: int|
            0 <= t < cat.len() implies crate::ast::is_variable_char(#[trigger] cat[t]) || cat[t]
            == '!' || cat[t] == '|' by {
            if t < c.len() {
                assert(cat[t] == c[t]);
                assert(c[t] == clause_partial(vars, r, vars.len() as int)[t]);
            } else {
                assert(cat[t] == rest[t - c.len()]);
            }
        }
    }
}

/// The synthesized conjunctive normal form parses back, is a conjunction
/// of disjunctions, and has the same truth table as the tree it came from.
/// (With a single variable, or with no false row, the builder rejects the
/// synthesized text, so those cases stay outside.)
pub proof fn lemma_cnf_output_equivalence(vars: Seq<char>, tree: Node)
    requires
        crate::truth_table::sorted_distinct(vars),
        forall|j: int| 0 <= j < vars.len() ==> crate::ast::is_variable_char(#[trigger] vars[j]),
        2 <= vars.len() <= 26,
        exists|r0: int|
            0 <= r0 < pow2n(vars.len() as nat) && !sem(tree, #[trigger] row_env(vars, r0)),
    ensures
        ({
            let out = move_amp_spec(spec_cnf_string(vars, tree));
            &&& valid_formula(out)
            &&& spec_is_cnf(spec_parse(out)->Some_0)
            &&& forall|i: int|
                0 <= i < pow2n(vars.len() as nat) ==> sem(
                    spec_parse(out)->Some_0,
                    #[trigger] row_env(vars, i),
                ) == sem(tree, row_env(vars, i))
        }),
{
    let n = vars.len() as int;
    let rows = pow2n(vars.len() as nat) as int;
    let raw = spec_cnf_string(vars, tree);
    let out = move_amp_spec(raw);
    let cat = clauses_cat(vars, tree, 0, rows);
    let fct = false_clause_trees(vars, tree, 0, rows);
    let cnt = fct.len() as int;
    let r0 = choose|r0: int|
        0 <= r0 < pow2n(vars.len() as nat) && !sem(tree, #[trigger] row_env(vars, r0));
    lemma_fct_nonempty(vars, tree, 0, rows, r0);
    lemma_cnf_string_structure(vars, tree, 0, rows, false);
    assert(strip_amp(raw) == cat);
    assert(amp_count(raw) == cnt - 1);
    assert(out == cat + Seq::new((cnt - 1) as nat, |i: int| '&'));
    assert(out.len() == cat.len() + cnt - 1);

    // every character belongs to the grammar and none is a literal
    lemma_cat_chars(vars, tree, 0, rows);
    assert(forall|t: int|
        0 <= t < out.len() ==> crate::ast::is_formula_char(#[trigger] out[t])
            && !crate::ast::is_literal_char(out[t])) by {
        assert(forall|t: int| cat.len() <= t < out.len() ==> (#[trigger] out[t]) == '&');
        assert(forall|t: int| 0 <= t < cat.len() ==> (#[trigger] out[t]) == cat[t]);
    }
    assert(crate::parser::chars_ok(out)) by {
        if crate::parser::has_literal(out) {
            let t = choose|t: int|
                0 <= t < out.len() && crate::ast::is_literal_char(#[trigger] out[t]);
        }
    }

    // the parse: all clauses, then all conjunctions
    let init = crate::parser::init_state();
    assert(out.subrange(0, cat.len() as int) =~= cat);
    lemma_consume_clauses(out, 0, init, vars, tree, 0, rows);
    let st_a = crate::parser::ParseState {
        pending: Seq::empty(),
        trees: init.trees + fct,
        attach_left: false,
        after_binop: true,
    };
    assert(init.trees + fct =~= fct);
    assert(run_upto(out, 0, cat.len() as int, init) == Some(
        crate::parser::ParseState { trees: fct, ..st_a },
    ));
    let st_a2 = crate::parser::ParseState { trees: fct, ..st_a };
    assert(forall|t: int|
        0 <= t < cnt - 1 ==> (#[trigger] out[cat.len() + t]) == '&');
    lemma_consume_amps(out, cat.len() as int, st_a2, cnt - 1);
    let folded = and_fold(fct, 0);
    let st_b = crate::parser::ParseState {
        pending: Seq::empty(),
        trees: fct.take(0).push(folded),
        attach_left: false,
        after_binop: if cnt - 1 > 0 {
            true
        } else {
            st_a2.after_binop
        },
    };
    assert(run_upto(out, cat.len() as int, out.len() as int, st_a2) == Some(st_b));
    lemma_run_upto_chain(out, 0, cat.len() as int, out.len() as int, init);
    assert(run_upto(out, 0, out.len() as int, init) == Some(st_b));
    lemma_run_split(out, 0, out.len() as int, init);
    assert(crate::parser::run_parser(out, out.len() as int, st_b) == Some(st_b));
    assert(crate::parser::run_parser(out, 0, init) == Some(st_b));
    assert(st_b.trees.len() == 1);
    assert(st_b.trees[0] == folded);
    assert(crate::parser::spec_parse(out) == Some(folded));

    // shape
    lemma_fct_elements(vars, tree, 0, rows);
    lemma_and_fold_shape(fct, 0);

    // semantics, row by row
    assert forall|i: int| 0 <= i < pow2n(vars.len() as nat) implies sem(
        crate::parser::spec_parse(out)->Some_0,
        #[trigger] row_env(vars, i),
    ) == sem(tree, row_env(vars, i)) by {
        let env = row_env(vars, i);
        lemma_and_fold_sem(fct, 0, env);
        lemma_fct_sem(vars, tree, 0, rows, env);
        if sem(tree, env) {
            assert forall|q: int|
                0 <= q < rows && !sem(tree, row_env(vars, q)) implies sem(
                #[trigger] clause_tree(vars, q),
                env,
            ) by {
                assert(q != i);
                lemma_row_cells_distinguish(n, i, q);
                let k = choose|k: int|
                    0 <= k < n && #[trigger] row_cell(i, n, k) != row_cell(q, n, k);
                lemma_clause_tree_sem(vars, q, n, i);
            }
            assert(sem(folded, env));
        } else {
            lemma_clause_tree_sem(vars, i, n, i);
            assert(!sem(clause_tree(vars, i), env)) by {
                assert(forall|j: int|
                    0 <= j < n ==> #[trigger] row_cell(i, n, j) == row_cell(i, n, j));
            }
            assert(!(forall|q: int|
                0 <= q < rows && !sem(tree, row_env(vars, q)) ==> sem(
                    #[trigger] clause_tree(vars, q),
                    env,
                ))) by {
                assert(0 <= i < rows && !sem(tree, row_env(vars, i)) && !sem(
                    clause_tree(vars, i),
                    env,
                ));
            }
            assert(!sem(folded, env));
        }
    }
}

} // verus!
