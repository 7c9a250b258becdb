//! The truth table: a grid of characters with one row per assignment of the
//! formula's variables, in binary-counting order, and the formula's value in
//! the last column.

use crate::ast::is_variable_char;
use crate::ast::sem;
use crate::ast::FormulaError;
use crate::ast::Node;
use crate::parser::build_tree;
use crate::parser::contains_variable;
use crate::parser::has_variable;
use crate::parser::spec_parse;
use crate::parser::valid_formula;
use crate::strutil::str_chars;
use vstd::prelude::*;

verus! {

/// `2^k`.
pub open spec fn pow2n(k: nat) -> nat
    decreases k,
{
    if k == 0 {
        1
    } else {
        2 * pow2n((k - 1) as nat)
    }
}

/// Powers of two are positive.
pub proof fn lemma_pow2n_pos(k: nat)
    ensures
        pow2n(k) >= 1,
    decreases k,
{
    if k > 0 {
        lemma_pow2n_pos((k - 1) as nat);
    }
}

/// Powers of two grow with the exponent.
pub proof fn lemma_pow2n_increases(a: nat, b: nat)
    requires
        a <= b,
    ensures
        pow2n(a) <= pow2n(b),
        pow2n(a) >= 1,
    decreases b,
{
    lemma_pow2n_pos(a);
    if a < b {
        lemma_pow2n_increases(a, (b - 1) as nat);
    }
}

/// `2^26` concretely: the largest table the variable alphabet allows.
pub proof fn lemma_pow2n_26()
    ensures
        pow2n(26) == 0x400_0000,
{
    reveal_with_fuel(pow2n, 27);
}

/// The strictly sorted list of distinct variable characters: the table's
/// column order.
pub open spec fn sorted_distinct(v: Seq<char>) -> bool {
    forall|i: int, j: int| 0 <= i < j < v.len() ==> (#[trigger] v[i]) < (#[trigger] v[j])
}

/// The list holds exactly the variables of the string.
pub open spec fn lists_variables_of(v: Seq<char>, s: Seq<char>) -> bool {
    forall|c: char| v.contains(c) <==> is_variable_char(c) && s.contains(c)
}

/// A strictly sorted list of variable characters has at most 26 entries.
pub proof fn lemma_vars_bound(v: Seq<char>)
    requires
        sorted_distinct(v),
        forall|i: int| 0 <= i < v.len() ==> is_variable_char(#[trigger] v[i]),
    ensures
        v.len() <= 26,
{
    if v.len() > 26 {
        lemma_sorted_gap(v, 0, v.len() - 1);
        assert('A' <= v[0]);
        assert(v[v.len() - 1] <= 'Z');
    }
}

/// In a strictly sorted character list, indices that are far apart hold
/// characters that are far apart.
proof fn lemma_sorted_gap(v: Seq<char>, i: int, j: int)
    requires
        sorted_distinct(v),
        0 <= i <= j < v.len(),
    ensures
        v[i] as int + (j - i) <= v[j] as int,
    decreases j - i,
{
    if i < j {
        lemma_sorted_gap(v, i, j - 1);
        assert(v[j - 1] < v[j]);
    }
}

/// Inserting a new character at its sorted position keeps the list sorted
/// and adds exactly that character.
proof fn lemma_sorted_insert(oldv: Seq<char>, newv: Seq<char>, k: int, c: char)
    requires
        sorted_distinct(oldv),
        0 <= k <= oldv.len(),
        forall|j: int| 0 <= j < k ==> (#[trigger] oldv[j]) < c,
        k < oldv.len() ==> c < oldv[k],
        newv == oldv.insert(k, c),
    ensures
        sorted_distinct(newv),
        forall|x: char| newv.contains(x) <==> (oldv.contains(x) || x == c),
{
    assert(newv =~= oldv.take(k) + seq![c] + oldv.skip(k));
    assert(newv.len() == oldv.len() + 1);
    assert(forall|j: int| 0 <= j < k ==> newv[j] == oldv[j]);
    assert(newv[k] == c);
    assert(forall|j: int| k < j < newv.len() ==> newv[j] == oldv[j - 1]);
    assert forall|x: char| newv.contains(x) implies (oldv.contains(x) || x == c) by {
        let idx = choose|idx: int| 0 <= idx < newv.len() && newv[idx] == x;
        if idx < k {
            assert(oldv[idx] == x);
        } else if idx > k {
            assert(oldv[idx - 1] == x);
        }
    }
    assert forall|x: char| oldv.contains(x) implies newv.contains(x) by {
        let idx = choose|idx: int| 0 <= idx < oldv.len() && oldv[idx] == x;
        if idx < k {
            assert(newv[idx] == x);
        } else {
            assert(newv[idx + 1] == x);
        }
    }
    assert(newv.contains(c)) by {
        assert(newv[k] == c);
    }
    assert forall|a: int, b: int| 0 <= a < b < newv.len() implies (#[trigger] newv[a]) < (
    #[trigger] newv[b]) by {
        if b < k {
        } else if a < k && b == k {
            assert(newv[a] == oldv[a]);
        } else if a < k && b > k {
            assert(newv[a] == oldv[a] && newv[b] == oldv[b - 1]);
            if b - 1 == k {
                assert(oldv[a] < c && c < oldv[k]);
            } else {
                assert(oldv[a] < oldv[b - 1]) by {
                    if a < b - 1 {
                    }
                }
            }
        } else if a == k {
            assert(newv[b] == oldv[b - 1]);
            if b - 1 == k {
            } else {
                assert(oldv[k] < oldv[b - 1]);
            }
        } else {
            assert(newv[a] == oldv[a - 1] && newv[b] == oldv[b - 1]);
        }
    }
}

/// Two sorted distinct lists of the same characters are the same list.
pub proof fn lemma_sorted_list_unique(v1: Seq<char>, v2: Seq<char>)
    requires
        sorted_distinct(v1),
        sorted_distinct(v2),
        forall|c: char| v1.contains(c) <==> v2.contains(c),
    ensures
        v1 == v2,
    decreases v1.len(),
{
    if v1.len() == 0 {
        if v2.len() > 0 {
            assert(v2.contains(v2[0]));
        }
        assert(v1 =~= v2);
    } else {
        assert(v1.contains(v1.last()));
        assert(v2.contains(v1.last()));
        if v2.len() == 0 {
            assert(false);
        }
        // the largest element of both lists is the same
        let m1 = v1.last();
        let m2 = v2.last();
        assert(v2.contains(m2));
        assert(v1.contains(m2));
        let i1 = choose|i: int| 0 <= i < v1.len() && v1[i] == m2;
        if i1 < v1.len() - 1 {
            assert(v1[i1] < v1[v1.len() - 1]);
        }
        let i2 = choose|i: int| 0 <= i < v2.len() && v2[i] == m1;
        if i2 < v2.len() - 1 {
            assert(v2[i2] < v2[v2.len() - 1]);
        }
        assert(m1 == m2);
        let w1 = v1.drop_last();
        let w2 = v2.drop_last();
        assert forall|c: char| w1.contains(c) implies w2.contains(c) by {
            let i = choose|i: int| 0 <= i < w1.len() && w1[i] == c;
            assert(v1[i] == c);
            assert(v1.contains(c));
            assert(v2.contains(c));
            let j = choose|j: int| 0 <= j < v2.len() && v2[j] == c;
            assert(c < m1);
            if j == v2.len() - 1 {
                assert(false);
            }
            assert(w2[j] == c);
        }
        assert forall|c: char| w2.contains(c) implies w1.contains(c) by {
            let i = choose|i: int| 0 <= i < w2.len() && w2[i] == c;
            assert(v2[i] == c);
            assert(v2.contains(c));
            assert(v1.contains(c));
            let j = choose|j: int| 0 <= j < v1.len() && v1[j] == c;
            assert(c < m1);
            if j == v1.len() - 1 {
                assert(false);
            }
            assert(w1[j] == c);
        }
        lemma_sorted_list_unique(w1, w2);
        assert(v1 =~= w1.push(m1));
        assert(v2 =~= w2.push(m2));
    }
}

/// The sorted list of the distinct variables of a string, as a value: it
/// exists (the collector below builds it) and it is unique.
pub open spec fn var_list(s: Seq<char>) -> Seq<char> {
    choose|v: Seq<char>|
        sorted_distinct(v) && lists_variables_of(v, s) && (forall|k: int|
            0 <= k < v.len() ==> is_variable_char(#[trigger] v[k]))
}

/// Collect the distinct variable characters of the formula, sorted
/// ascending.
pub fn collect_variables(chars: &Vec<char>) -> (v: Vec<char>)
    ensures
        sorted_distinct(v@),
        lists_variables_of(v@, chars@),
        forall|k: int| 0 <= k < v@.len() ==> is_variable_char(#[trigger] v@[k]),
        v@ == var_list(chars@),
{
    let mut v: Vec<char> = Vec::new();
    let mut i: usize = 0;
    let n = chars.len();
    while i < n
        invariant
            i <= n,
            n == chars@.len(),
            sorted_distinct(v@),
            lists_variables_of(v@, chars@.take(i as int)),
            forall|k: int| 0 <= k < v@.len() ==> is_variable_char(#[trigger] v@[k]),
        decreases n - i,
    {
        let c = chars[i];
        proof {
            assert(chars@.take(i + 1).drop_last() =~= chars@.take(i as int));
            assert(chars@.take(i + 1).last() == chars@[i as int]);
            assert(forall|x: char|
                chars@.take(i + 1).contains(x) <==> (chars@.take(i as int).contains(x) || x
                    == chars@[i as int]));
        }
        if 'A' <= c && c <= 'Z' {
            // find the insertion point
            let mut k: usize = 0;
            while k < v.len() && v[k] < c
                invariant
                    k <= v@.len(),
                    forall|j: int| 0 <= j < k ==> (#[trigger] v@[j]) < c,
                decreases v@.len() - k,
            {
                k = k + 1;
            }
            if k == v.len() || v[k] != c {
                let ghost oldv = v@;
                proof {
                    if k < v@.len() {
                        assert(!(v@[k as int] < c) && v@[k as int] != c);
                    }
                }
                v.insert(k, c);
                proof {
                    lemma_sorted_insert(oldv, v@, k as int, c);
                }
            } else {
                proof {
                    assert(v@.contains(c)) by {
                        assert(v@[k as int] == c);
                    }
                }
            }
        } else {
            proof {
                assert(!is_variable_char(chars@[i as int]));
            }
        }
        i = i + 1;
    }
    proof {
        assert(chars@.take(n as int) =~= chars@);
        let w = choose|w: Seq<char>|
            sorted_distinct(w) && lists_variables_of(w, chars@) && (forall|k: int|
                0 <= k < w.len() ==> is_variable_char(#[trigger] w[k]));
        assert(sorted_distinct(v@) && lists_variables_of(v@, chars@) && (forall|k: int|
            0 <= k < v@.len() ==> is_variable_char(#[trigger] v@[k])));
        lemma_sorted_list_unique(w, v@);
    }
    v
}


/// The bit of row `i` in column `k` of `n` variable columns: the leftmost
/// column is the most significant, so the rows count upward in binary.
/// Equivalently: column `k` alternates in runs of `2^(n-1-k)` rows, the
/// rightmost column every row.
pub open spec fn row_cell(i: int, n: int, k: int) -> bool {
    (i / (pow2n((n - 1 - k) as nat) as int)) % 2 == 1
}

/// The character a truth value prints as.
pub open spec fn bit_char(b: bool) -> char {
    if b {
        '1'
    } else {
        '0'
    }
}

/// The assignment that row `i` denotes over the sorted variable list.
pub open spec fn row_env(vars: Seq<char>, i: int) -> Map<char, bool> {
    Map::new(
        |c: char| vars.contains(c),
        |c: char| row_cell(i, vars.len() as int, vars.index_of(c)),
    )
}

/// The header row: `| A | B | = |`.
pub open spec fn header_cell(vars: Seq<char>, j: int) -> char {
    if j % 4 == 0 {
        '|'
    } else if j % 4 == 2 {
        if (j - 2) / 4 < vars.len() {
            vars[(j - 2) / 4]
        } else {
            '='
        }
    } else {
        ' '
    }
}

/// The separator row: `|---|---|---|`.
pub open spec fn separator_cell(j: int) -> char {
    if j % 4 == 0 {
        '|'
    } else {
        '-'
    }
}

/// A data row: variable bits in their columns, the result bit (once
/// evaluated) in the last column.
pub open spec fn data_cell(vars: Seq<char>, width: int, r: int, j: int, res: Option<bool>) -> char {
    if j % 4 == 0 {
        '|'
    } else if j % 4 == 2 && (j - 2) / 4 < vars.len() {
        bit_char(row_cell(r, vars.len() as int, (j - 2) / 4))
    } else if j == width - 3 {
        match res {
            Some(b) => bit_char(b),
            None => ' ',
        }
    } else {
        ' '
    }
}

/// Any cell of the table; data rows carry the formula's value only after
/// evaluation.
pub open spec fn grid_cell(
    vars: Seq<char>,
    tree: Node,
    width: int,
    i: int,
    j: int,
    evaluated: bool,
) -> char {
    if i == 0 {
        header_cell(vars, j)
    } else if i == 1 {
        separator_cell(j)
    } else {
        data_cell(
            vars,
            width,
            i - 2,
            j,
            if evaluated {
                Some(sem(tree, row_env(vars, i - 2)))
            } else {
                None
            },
        )
    }
}

/// The truth table of one formula over variables: the parsed tree, the
/// sorted variable list, and the character grid.
pub struct TruthTable {
    pub width: usize,
    pub height: usize,
    pub truth_table: Vec<Vec<char>>,
    pub unique_chars: Vec<char>,
    pub formula: String,
    pub tree: Node,
}

impl TruthTable {
    /// The table's invariant: the formula is a valid formula over
    /// variables, `tree` is its parse, `unique_chars` its sorted variables,
    /// and the grid has the right dimensions.
    pub open spec fn wf(&self) -> bool {
        &&& valid_formula(self.formula@)
        &&& has_variable(self.formula@)
        &&& spec_parse(self.formula@) == Some(self.tree)
        &&& sorted_distinct(self.unique_chars@)
        &&& lists_variables_of(self.unique_chars@, self.formula@)
        &&& self.unique_chars@ == var_list(self.formula@)
        &&& forall|k: int|
            0 <= k < self.unique_chars@.len() ==> is_variable_char(#[trigger] self.unique_chars@[k])
        &&& 1 <= self.unique_chars@.len() <= 26
        &&& self.width == 5 + 4 * self.unique_chars@.len()
        &&& self.height == pow2n(self.unique_chars@.len() as nat) + 2
        &&& self.truth_table@.len() == self.height
        &&& forall|i: int|
            0 <= i < self.truth_table@.len() ==> (#[trigger] self.truth_table@[i])@.len()
                == self.width
    }

    /// The whole grid matches the specified pattern, evaluated or not.
    pub open spec fn grid_matches(&self, evaluated: bool) -> bool {
        forall|i: int, j: int|
            0 <= i < self.height && 0 <= j < self.width ==> (#[trigger] self.truth_table@[i]@[j])
                == grid_cell(
                self.unique_chars@,
                self.tree,
                self.width as int,
                i,
                j,
                evaluated,
            )
    }

    /// Build a table for the formula: parse it, collect its variables, and
    /// allocate the blank grid.  Rejected are exactly the strings the
    /// builder rejects and the formulas without a variable.
    pub fn new(formula: &str) -> (r: Result<TruthTable, FormulaError>)
        ensures
            match r {
                Ok(t) => {
                    &&& t.wf()
                    &&& t.formula@ == formula@
                    &&& forall|i: int, j: int|
                        0 <= i < t.height && 0 <= j < t.width ==> (
                        #[trigger] t.truth_table@[i]@[j]) == ' '
                },
                Err(_) => !valid_formula(formula@) || !has_variable(formula@),
            },
    {
        let chars = str_chars(formula);
        let tree = match build_tree(&chars) {
            Err(e) => {
                return Err(e);
            },
            Ok(t) => t,
        };
        if !contains_variable(&chars) {
            return Err(FormulaError::InvalidFormula);
        }
        let unique_chars = collect_variables(&chars);
        let n = unique_chars.len();
        proof {
            lemma_vars_bound(unique_chars@);
            let i = choose|i: int|
                0 <= i < formula@.len() && is_variable_char(formula@[i]);
            assert(formula@.contains(formula@[i]));
            assert(unique_chars@.contains(formula@[i]));
        }
        let width = 5 + 4 * n;
        proof {
            lemma_pow2n_increases(n as nat, 26);
            lemma_pow2n_26();
        }
        let height = pow2_exec(n) + 2;
        let mut grid: Vec<Vec<char>> = Vec::new();
        let mut i: usize = 0;
        while i < height
            invariant
                i <= height,
                grid@.len() == i,
                forall|r: int| 0 <= r < i ==> (#[trigger] grid@[r])@.len() == width,
                forall|r: int, j: int|
                    0 <= r < i && 0 <= j < width ==> (#[trigger] grid@[r]@[j]) == ' ',
            decreases height - i,
        {
            grid.push(blank_row(width));
            i = i + 1;
        }
        let mut formula_owned = String::new();
        formula_owned.append(formula);
        Ok(
            TruthTable {
                width,
                height,
                truth_table: grid,
                unique_chars,
                formula: formula_owned,
                tree,
            },
        )
    }

    /// Write the header, the separator and the variable columns: the
    /// rightmost variable column alternates every row, each column to its
    /// left in runs twice as long, which counts the rows upward in binary.
    #[verifier::loop_isolation(false)]
    pub fn fill(&mut self)
        requires
            old(self).wf(),
        ensures
            final(self).wf(),
            final(self).formula == old(self).formula,
            final(self).tree == old(self).tree,
            final(self).unique_chars == old(self).unique_chars,
            final(self).width == old(self).width,
            final(self).height == old(self).height,
            final(self).grid_matches(false),
    {
        let n = self.unique_chars.len();
        let width = self.width;
        let height = self.height;
        let mut grid: Vec<Vec<char>> = Vec::new();

        // header row
        let mut row: Vec<char> = Vec::new();
        let mut j: usize = 0;
        while j < width
            invariant
                j <= width,
                row@.len() == j,
                forall|jj: int|
                    0 <= jj < j ==> (#[trigger] row@[jj]) == header_cell(
                        self.unique_chars@,
                        jj,
                    ),
            decreases width - j,
        {
            let c = if j % 4 == 0 {
                '|'
            } else if j % 4 == 2 {
                let k = (j - 2) / 4;
                if k < n {
                    self.unique_chars[k]
                } else {
                    '='
                }
            } else {
                ' '
            };
            row.push(c);
            j = j + 1;
        }
        grid.push(row);

        // separator row
        let mut row1: Vec<char> = Vec::new();
        j = 0;
        while j < width
            invariant
                j <= width,
                row1@.len() == j,
                forall|jj: int| 0 <= jj < j ==> (#[trigger] row1@[jj]) == separator_cell(jj),
            decreases width - j,
        {
            row1.push(if j % 4 == 0 {
                '|'
            } else {
                '-'
            });
            j = j + 1;
        }
        grid.push(row1);

        // data rows
        let rows = height - 2;
        let mut r: usize = 0;
        while r < rows
            invariant
                r <= rows,
                grid@.len() == r + 2,
                forall|jj: int|
                    0 <= jj < width ==> (#[trigger] grid@[0]@[jj]) == header_cell(
                        self.unique_chars@,
                        jj,
                    ),
                grid@[0]@.len() == width,
                forall|jj: int| 0 <= jj < width ==> (#[trigger] grid@[1]@[jj]) == separator_cell(jj),
                grid@[1]@.len() == width,
                forall|rr: int|
                    2 <= rr < r + 2 ==> (#[trigger] grid@[rr])@.len() == width,
                forall|rr: int, jj: int|
                    2 <= rr < r + 2 && 0 <= jj < width ==> (#[trigger] grid@[rr]@[jj]) == data_cell(
                        self.unique_chars@,
                        width as int,
                        rr - 2,
                        jj,
                        None,
                    ),
            decreases rows - r,
        {
            let mut data: Vec<char> = Vec::new();
            j = 0;
            while j < width
                invariant
                    j <= width,
                    data@.len() == j,
                    forall|jj: int|
                        0 <= jj < j ==> (#[trigger] data@[jj]) == data_cell(
                            self.unique_chars@,
                            width as int,
                            r as int,
                            jj,
                            None,
                        ),
                decreases width - j,
            {
                let c = if j % 4 == 0 {
                    '|'
                } else if j % 4 == 2 && (j - 2) / 4 < n {
                    let k = (j - 2) / 4;
                    let ztf = pow2_exec(n - 1 - k);
                    if (r / ztf) % 2 == 1 {
                        '1'
                    } else {
                        '0'
                    }
                } else {
                    ' '
                };
                data.push(c);
                j = j + 1;
            }
            grid.push(data);
            r = r + 1;
        }
        self.truth_table = grid;
    }

    /// Evaluate the formula for every row and write the result column.
    #[verifier::loop_isolation(false)]
    pub fn eval(&mut self)
        requires
            old(self).wf(),
        ensures
            final(self).wf(),
            final(self).formula == old(self).formula,
            final(self).tree == old(self).tree,
            final(self).unique_chars == old(self).unique_chars,
            final(self).width == old(self).width,
            final(self).height == old(self).height,
            forall|i: int|
                0 <= i < 2 ==> (#[trigger] final(self).truth_table@[i]) == old(
                    self,
                ).truth_table@[i],
            forall|i: int, j: int|
                2 <= i < final(self).height && 0 <= j < final(self).width && j != final(self).width
                    - 3 ==> (#[trigger] final(self).truth_table@[i]@[j]) == old(
                    self,
                ).truth_table@[i]@[j],
            forall|i: int|
                2 <= i < final(self).height ==> (#[trigger] final(self).truth_table@[i]@[final(self).width
                    - 3]) == bit_char(
                    sem(final(self).tree, row_env(final(self).unique_chars@, i - 2)),
                ),
    {
        let n = self.unique_chars.len();
        let width = self.width;
        let height = self.height;
        proof {
            crate::parser::lemma_parse_leaves(self.formula@);
            crate::ast::lemma_leaves_mono(
                self.tree,
                crate::parser::value_chars(self.formula@),
                Set::new(
                    |c: char| crate::ast::is_literal_char(c) || self.unique_chars@.contains(c),
                ),
            );
        }
        let mut i: usize = 2;
        while i < height
            invariant
                2 <= i <= height,
                self.wf(),
                self.formula == old(self).formula,
                self.tree == old(self).tree,
                self.unique_chars == old(self).unique_chars,
                self.width == old(self).width,
                self.height == old(self).height,
                crate::ast::leaves_in(
                    self.tree,
                    Set::new(
                        |c: char| crate::ast::is_literal_char(c) || self.unique_chars@.contains(c),
                    ),
                ),
                forall|r: int|
                    0 <= r < 2 ==> (#[trigger] self.truth_table@[r]) == old(self).truth_table@[r],
                forall|r: int, j: int|
                    2 <= r < height && 0 <= j < width && j != width - 3 ==> (
                    #[trigger] self.truth_table@[r]@[j]) == old(self).truth_table@[r]@[j],
                forall|r: int|
                    i <= r < height ==> (#[trigger] self.truth_table@[r]) == old(
                        self,
                    ).truth_table@[r],
                forall|r: int|
                    2 <= r < i ==> (#[trigger] self.truth_table@[r]@[width - 3]) == bit_char(
                        sem(self.tree, row_env(self.unique_chars@, r - 2)),
                    ),
            decreases height - i,
        {
            let r = i - 2;
            // the values this row assigns to the variables, left to right
            let mut vals: Vec<bool> = Vec::new();
            let mut k: usize = 0;
            while k < n
                invariant
                    k <= n,
                    vals@.len() == k,
                    forall|kk: int|
                        0 <= kk < k ==> (#[trigger] vals@[kk]) == row_cell(
                            r as int,
                            n as int,
                            kk,
                        ),
                decreases n - k,
            {
                let ztf = pow2_exec(n - 1 - k);
                vals.push((r / ztf) % 2 == 1);
                k = k + 1;
            }
            let b = crate::eval::eval_tree_env(&self.tree, &self.unique_chars, &vals);
            proof {
                assert(crate::eval::env_of(self.unique_chars@, vals@) =~= row_env(
                    self.unique_chars@,
                    r as int,
                ));
            }
            // rewrite the row with the result in its column
            let mut newrow: Vec<char> = Vec::new();
            let mut j: usize = 0;
            while j < width
                invariant
                    j <= width,
                    newrow@.len() == j,
                    forall|jj: int|
                        0 <= jj < j && jj != width - 3 ==> (#[trigger] newrow@[jj])
                            == self.truth_table@[i as int]@[jj],
                    j > width - 3 ==> newrow@[width - 3] == bit_char(
                        sem(self.tree, row_env(self.unique_chars@, r as int)),
                    ),
                decreases width - j,
            {
                let c = if j == width - 3 {
                    if b {
                        '1'
                    } else {
                        '0'
                    }
                } else {
                    self.truth_table[i][j]
                };
                newrow.push(c);
                j = j + 1;
            }
            self.truth_table.set(i, newrow);
            i = i + 1;
        }
    }

    /// Is some row of the evaluated table true?
    #[verifier::loop_isolation(false)]
    pub fn is_sat(&self) -> (r: bool)
        requires
            self.wf(),
        ensures
            r == exists|i: int|
                2 <= i < self.height && (#[trigger] self.truth_table@[i]@[self.width - 3]) == '1',
    {
        let mut i: usize = 2;
        while i < self.height
            invariant
                2 <= i <= self.height,
                forall|r: int| 2 <= r < i ==> (#[trigger] self.truth_table@[r]@[self.width - 3]) != '1',
            decreases self.height - i,
        {
            if self.truth_table[i][self.width - 3] == '1' {
                return true;
            }
            i = i + 1;
        }
        false
    }
}

/// A row of blanks.
fn blank_row(width: usize) -> (row: Vec<char>)
    ensures
        row@.len() == width,
        forall|j: int| 0 <= j < width ==> (#[trigger] row@[j]) == ' ',
{
    let mut row: Vec<char> = Vec::new();
    let mut j: usize = 0;
    while j < width
        invariant
            j <= width,
            row@.len() == j,
            forall|jj: int| 0 <= jj < j ==> (#[trigger] row@[jj]) == ' ',
        decreases width - j,
    {
        row.push(' ');
        j = j + 1;
    }
    row
}

/// `2^k` as a machine integer; the exponent never exceeds the 26 possible
/// variables.
#[verifier::loop_isolation(false)]
pub fn pow2_exec(k: usize) -> (r: usize)
    requires
        k <= 26,
    ensures
        r == pow2n(k as nat),
        r >= 1,
{
    let mut r: usize = 1;
    let mut i: usize = 0;
    proof {
        lemma_pow2n_26();
    }
    while i < k
        invariant
            i <= k,
            k <= 26,
            r == pow2n(i as nat),
            r >= 1,
        decreases k - i,
    {
        proof {
            lemma_pow2n_increases((i + 1) as nat, 26);
        }
        r = r * 2;
        i = i + 1;
    }
    r
}


/// Build, fill and evaluate the truth table of a formula, and hand the
/// grid of characters back (a separate, unverified front end prints it).
pub fn render_truth_table(formula: &str) -> (r: Result<Vec<Vec<char>>, FormulaError>)
    ensures
        match r {
            Ok(g) => {
                &&& valid_formula(formula@)
                &&& has_variable(formula@)
                &&& ({
                    let vars = var_list(formula@);
                    let tree = spec_parse(formula@)->Some_0;
                    let width = 5 + 4 * (vars.len() as int);
                    &&& g@.len() == pow2n(vars.len() as nat) + 2
                    &&& forall|i: int| 0 <= i < g@.len() ==> (#[trigger] g@[i])@.len() == width
                    &&& forall|i: int, j: int|
                        0 <= i < g@.len() && 0 <= j < width ==> (#[trigger] g@[i]@[j]) == grid_cell(
                            vars,
                            tree,
                            width,
                            i,
                            j,
                            true,
                        )
                })
            },
            Err(_) => !valid_formula(formula@) || !has_variable(formula@),
        },
{
    let mut table = match TruthTable::new(formula) {
        Err(e) => {
            return Err(e);
        },
        Ok(t) => t,
    };
    table.fill();
    let ghost filled = table;
    table.eval();
    proof {
        assert forall|i: int, j: int|
            0 <= i < table.truth_table@.len() && 0 <= j < table.width implies (
        #[trigger] table.truth_table@[i]@[j]) == grid_cell(
            table.unique_chars@,
            table.tree,
            table.width as int,
            i,
            j,
            true,
        ) by {
            if i < 2 {
                assert(table.truth_table@[i]@[j] == filled.truth_table@[i]@[j]);
            } else if j != table.width - 3 {
                assert(table.truth_table@[i]@[j] == filled.truth_table@[i]@[j]);
                assert((j % 4 == 2 && (j - 2) / 4 < table.unique_chars@.len()) || data_cell(
                    table.unique_chars@,
                    table.width as int,
                    i - 2,
                    j,
                    None,
                ) == data_cell(
                    table.unique_chars@,
                    table.width as int,
                    i - 2,
                    j,
                    Some(sem(table.tree, row_env(table.unique_chars@, i - 2))),
                ));
            } else {
                assert(table.truth_table@[i]@[j] == bit_char(
                    sem(table.tree, row_env(table.unique_chars@, i - 2)),
                ));
            }
        }
    }
    Ok(table.truth_table)
}


/// Powers of two multiply when exponents add.
pub proof fn lemma_pow2n_add(a: nat, b: nat)
    ensures
        pow2n(a + b) == pow2n(a) * pow2n(b),
    decreases a,
{
    if a == 0 {
        assert(pow2n(b) == 1 * pow2n(b)) by (nonlinear_arith);
    } else {
        lemma_pow2n_add((a - 1) as nat, b);
        assert((a + b) >= 1);
        assert(pow2n(a + b) == 2 * pow2n((a + b - 1) as nat));
        assert((a - 1) + b == a + b - 1);
        assert(2 * (pow2n((a - 1) as nat) * pow2n(b)) == (2 * pow2n((a - 1) as nat)) * pow2n(b))
            by (nonlinear_arith);
    }
}

/// The row index that an assignment denotes: the sum, over the variables
/// from position `k` on, of each true variable's column weight.
pub open spec fn env_index(vars: Seq<char>, env: Map<char, bool>, k: int) -> int
    decreases vars.len() - k,
{
    if k < 0 || k >= vars.len() {
        0
    } else {
        (if env[vars[k]] {
            pow2n((vars.len() - 1 - k) as nat) as int
        } else {
            0int
        }) + env_index(vars, env, k + 1)
    }
}

/// The denoted index fits among the rows.
pub proof fn lemma_env_index_bound(vars: Seq<char>, env: Map<char, bool>, k: int)
    requires
        0 <= k <= vars.len(),
    ensures
        0 <= env_index(vars, env, k) < pow2n((vars.len() - k) as nat),
    decreases vars.len() - k,
{
    if k == vars.len() {
        lemma_pow2n_pos(0);
    } else {
        lemma_env_index_bound(vars, env, k + 1);
        lemma_pow2n_pos((vars.len() - 1 - k) as nat);
        assert(pow2n((vars.len() - k) as nat) == 2 * pow2n((vars.len() - 1 - k) as nat));
    }
}

/// The denoted index has exactly the assignment's bits in its columns.
pub proof fn lemma_env_index_bits(vars: Seq<char>, env: Map<char, bool>, k: int, j: int)
    requires
        0 <= k <= j < vars.len(),
    ensures
        row_cell(env_index(vars, env, k), vars.len() as int, j) == env[vars[j]],
    decreases j - k,
{
    let n = vars.len() as int;
    let x = env_index(vars, env, k);
    let p = pow2n((n - 1 - j) as nat) as int;
    lemma_pow2n_pos((n - 1 - j) as nat);
    if k == j {
        let b: int = if env[vars[k]] {
            1
        } else {
            0
        };
        let rest = env_index(vars, env, k + 1);
        lemma_env_index_bound(vars, env, k + 1);
        assert(0 <= rest < p);
        assert(x == b * p + rest) by (nonlinear_arith)
            requires
                x == (if env[vars[k]] {
                    p
                } else {
                    0int
                }) + rest && b == (if env[vars[k]] {
                    1int
                } else {
                    0int
                }),
        ;
        vstd::arithmetic::div_mod::lemma_fundamental_div_mod_converse(x, p, b, rest);
        assert(x / p == b);
        assert(b % 2 == b);
    } else {
        lemma_env_index_bits(vars, env, k + 1, j);
        let xr = env_index(vars, env, k + 1);
        let w = pow2n((n - 1 - k) as nat) as int;
        let c: int = if env[vars[k]] {
            pow2n((j - k) as nat) as int
        } else {
            0
        };
        assert(pow2n((n - 1 - k) as nat) == pow2n((j - k) as nat) * pow2n((n - 1 - j) as nat))
            by {
            lemma_pow2n_add((j - k) as nat, (n - 1 - j) as nat);
        }
        vstd::arithmetic::div_mod::lemma_fundamental_div_mod(xr, p);
        let q = xr / p;
        let rem = xr % p;
        assert(0 <= rem < p);
        assert(x == (c + q) * p + rem) by (nonlinear_arith)
            requires
                x == (if env[vars[k]] {
                    w
                } else {
                    0int
                }) + xr && w == (if env[vars[k]] {
                    c * p
                } else {
                    w
                }) && (env[vars[k]] ==> w == c * p) && (!env[vars[k]] ==> c == 0) && xr == q * p
                    + rem,
        ;
        lemma_env_index_bound(vars, env, k + 1);
        assert(x >= 0);
        vstd::arithmetic::div_mod::lemma_fundamental_div_mod_converse(x, p, c + q, rem);
        assert(x / p == c + q);
        // the carried weight is even, so it does not change the bit
        assert(c % 2 == 0) by {
            if env[vars[k]] {
                assert(pow2n((j - k) as nat) == 2 * pow2n((j - k - 1) as nat));
                assert((2 * pow2n((j - k - 1) as nat)) % 2 == 0) by (nonlinear_arith);
            }
        }
        vstd::arithmetic::div_mod::lemma_add_mod_noop(c, q, 2);
        assert((q % 2) % 2 == q % 2) by {
            vstd::arithmetic::div_mod::lemma_mod_twice(q, 2);
        }
        assert((c + q) % 2 == q % 2);
    }
}

/// Every assignment of the variables is some row of the table: the binary
/// counter passes through all of them.
pub proof fn lemma_every_assignment_has_row(vars: Seq<char>, env: Map<char, bool>)
    requires
        sorted_distinct(vars),
        1 <= vars.len(),
    ensures
        ({
            let i = env_index(vars, env, 0);
            &&& 0 <= i < pow2n(vars.len() as nat)
            &&& forall|j: int|
                0 <= j < vars.len() ==> row_env(vars, i)[#[trigger] vars[j]] == env[vars[j]]
        }),
{
    let i = env_index(vars, env, 0);
    lemma_env_index_bound(vars, env, 0);
    assert forall|j: int|
        0 <= j < vars.len() implies row_env(vars, i)[#[trigger] vars[j]] == env[vars[j]] by {
        assert(vars.contains(vars[j]));
        let idx = vars.index_of(vars[j]);
        assert(0 <= idx < vars.len() && vars[idx] == vars[j]);
        assert(idx == j) by {
            if idx < j {
                assert(vars[idx] < vars[j]);
            } else if idx > j {
                assert(vars[j] < vars[idx]);
            }
        }
        lemma_env_index_bits(vars, env, 0, j);
    }
}

} // verus!
