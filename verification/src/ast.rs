//! The expression tree for RPN boolean formulas, its boolean semantics, and
//! its serialization back to an RPN string.

use vstd::prelude::*;

verus! {

/// The binary connectives.
#[derive(Clone, Copy, Debug, PartialEq, Eq, Structural)]
pub enum BinOp {
    And,
    Or,
    Xor,
    Implies,
    Equiv,
}

/// A node of the expression tree.  A leaf holds the character it was built
/// from: `'0'`/`'1'` for literals or `'A'`-`'Z'` for variables.  Negation is
/// the only unary connective.  Trees are plain owned values, so every
/// representable tree is well formed.
#[derive(Debug)]
pub enum Node {
    Leaf(char),
    Not(Box<Node>),
    Binary(BinOp, Box<Node>, Box<Node>),
}

/// The single error of the formula pipeline: the input string is not a
/// formula the builder accepts.
#[derive(Clone, Copy, Debug, PartialEq, Eq, Structural)]
pub enum FormulaError {
    InvalidFormula,
}

/// A literal character, `'0'` or `'1'`.
pub open spec fn is_literal_char(c: char) -> bool {
    c == '0' || c == '1'
}

/// A variable character, `'A'` through `'Z'`.
pub open spec fn is_variable_char(c: char) -> bool {
    'A' <= c && c <= 'Z'
}

/// A leaf character: literal or variable.
pub open spec fn is_value_char(c: char) -> bool {
    is_literal_char(c) || is_variable_char(c)
}

/// A binary-operator character.
pub open spec fn is_binop_char(c: char) -> bool {
    c == '&' || c == '|' || c == '^' || c == '>' || c == '='
}

/// Any character the grammar knows.
pub open spec fn is_formula_char(c: char) -> bool {
    is_value_char(c) || is_binop_char(c) || c == '!'
}

/// The character of each binary connective in an RPN string.
pub open spec fn binop_char(op: BinOp) -> char {
    match op {
        BinOp::And => '&',
        BinOp::Or => '|',
        BinOp::Xor => '^',
        BinOp::Implies => '>',
        BinOp::Equiv => '=',
    }
}

/// The truth value of a tree under an assignment of variables.  Literal
/// leaves ignore the assignment; a variable leaf looks its character up.
/// `>` is material implication and `=` is logical equivalence.
pub open spec fn sem(n: Node, env: Map<char, bool>) -> bool
    decreases n,
{
    match n {
        Node::Leaf(c) => if c == '1' {
            true
        } else if c == '0' {
            false
        } else {
            env[c]
        },
        Node::Not(x) => !sem(*x, env),
        Node::Binary(op, a, b) => {
            let va = sem(*a, env);
            let vb = sem(*b, env);
            match op {
                BinOp::And => va && vb,
                BinOp::Or => va || vb,
                BinOp::Xor => va != vb,
                BinOp::Implies => !(va && !vb),
                BinOp::Equiv => va == vb,
            }
        },
    }
}

/// The RPN serialization of a tree: post-order, children before operator.
pub open spec fn serialize(n: Node) -> Seq<char>
    decreases n,
{
    match n {
        Node::Leaf(c) => seq![c],
        Node::Not(x) => serialize(*x).push('!'),
        Node::Binary(op, a, b) => serialize(*a) + serialize(*b) + seq![binop_char(op)],
    }
}

/// All leaf characters of the tree are drawn from `allowed`.
pub open spec fn leaves_in(n: Node, allowed: Set<char>) -> bool
    decreases n,
{
    match n {
        Node::Leaf(c) => allowed.contains(c),
        Node::Not(x) => leaves_in(*x, allowed),
        Node::Binary(_, a, b) => leaves_in(*a, allowed) && leaves_in(*b, allowed),
    }
}

/// No leaf is a variable: the tree can be evaluated with no assignment.
pub open spec fn all_literal(n: Node) -> bool {
    leaves_in(n, Set::new(|c: char| is_literal_char(c)))
}

impl Node {
    /// A structurally equal deep copy.  Rewrite passes use it where one
    /// subtree is needed in two places of the new tree.
    pub fn duplicate(&self) -> (r: Node)
        ensures
            r == *self,
        decreases *self,
    {
        match self {
            Node::Leaf(c) => Node::Leaf(*c),
            Node::Not(x) => Node::Not(Box::new(x.duplicate())),
            Node::Binary(op, a, b) => Node::Binary(
                *op,
                Box::new(a.duplicate()),
                Box::new(b.duplicate()),
            ),
        }
    }
}

/// Two assignments that agree on every variable leaf of the tree give it
/// the same value.  (In particular, a tree with only literal leaves has
/// the same value under any two assignments.)
pub proof fn lemma_sem_agree(n: Node, env1: Map<char, bool>, env2: Map<char, bool>)
    requires
        leaves_in(n, Set::new(|c: char| is_literal_char(c) || env1[c] == env2[c])),
    ensures
        sem(n, env1) == sem(n, env2),
    decreases n,
{
    match n {
        Node::Leaf(_) => {},
        Node::Not(x) => lemma_sem_agree(*x, env1, env2),
        Node::Binary(_, a, b) => {
            lemma_sem_agree(*a, env1, env2);
            lemma_sem_agree(*b, env1, env2);
        },
    }
}


/// Leaves stay inside a larger set.
pub proof fn lemma_leaves_mono(n: Node, a: Set<char>, b: Set<char>)
    requires
        leaves_in(n, a),
        forall|c: char| a.contains(c) ==> b.contains(c),
    ensures
        leaves_in(n, b),
    decreases n,
{
    match n {
        Node::Leaf(_) => {},
        Node::Not(x) => lemma_leaves_mono(*x, a, b),
        Node::Binary(_, l, r) => {
            lemma_leaves_mono(*l, a, b);
            lemma_leaves_mono(*r, a, b);
        },
    }
}

/// A single leaf is inside any set that holds its character.
pub proof fn lemma_leaf_in(c: char, allowed: Set<char>)
    requires
        allowed.contains(c),
    ensures
        leaves_in(Node::Leaf(c), allowed),
        leaves_in(Node::Not(Box::new(Node::Leaf(c))), allowed),
{
    assert(leaves_in(Node::Leaf(c), allowed));
    let b = Box::new(Node::Leaf(c));
    assert(*b == Node::Leaf(c));
    assert(leaves_in(Node::Not(b), allowed));
}

/// One leaf character of the tree; every tree has at least one.
pub open spec fn some_leaf(n: Node) -> char
    decreases n,
{
    match n {
        Node::Leaf(c) => c,
        Node::Not(x) => some_leaf(*x),
        Node::Binary(_, a, _) => some_leaf(*a),
    }
}

/// The witness leaf obeys any bound that all leaves obey.
pub proof fn lemma_some_leaf(n: Node, allowed: Set<char>)
    requires
        leaves_in(n, allowed),
    ensures
        allowed.contains(some_leaf(n)),
    decreases n,
{
    match n {
        Node::Leaf(_) => {},
        Node::Not(x) => lemma_some_leaf(*x, allowed),
        Node::Binary(_, a, _) => lemma_some_leaf(*a, allowed),
    }
}

/// The expression tree behind the staged build / simplify / evaluate
/// interface: an empty slot until a formula is built into it.
pub struct AST {
    pub root: Option<Node>,
}

impl AST {
    /// An empty tree.
    pub fn new() -> (r: AST)
        ensures
            r.root is None,
    {
        AST { root: None }
    }

    /// Parse the formula into this tree.  Succeeds exactly on the strings
    /// the builder accepts; a failed build leaves no tree behind.
    pub fn build(&mut self, formula: &str) -> (r: Result<(), FormulaError>)
        ensures
            match r {
                Ok(_) => crate::parser::valid_formula(formula@) && final(self).root == Some(
                    crate::parser::spec_parse(formula@)->Some_0,
                ),
                Err(_) => !crate::parser::valid_formula(formula@) && final(self).root is None,
            },
    {
        let chars = crate::strutil::str_chars(formula);
        match crate::parser::build_tree(&chars) {
            Ok(t) => {
                self.root = Some(t);
                Ok(())
            },
            Err(e) => {
                self.root = None;
                Err(e)
            },
        }
    }

    /// Evaluate the built tree; only a tree whose leaves are all literals
    /// has a value.
    pub fn eval(&self) -> (r: Result<bool, FormulaError>)
        ensures
            match r {
                Ok(b) => {
                    &&& self.root is Some
                    &&& all_literal(self.root->Some_0)
                    &&& b == sem(self.root->Some_0, Map::empty())
                },
                Err(_) => self.root is None || !all_literal(self.root->Some_0),
            },
    {
        match &self.root {
            None => Err(FormulaError::InvalidFormula),
            Some(t) => crate::eval::eval_tree(t),
        }
    }

    /// Run the rewrite passes — equivalence, implication and XOR
    /// elimination, double-negation collapse, De Morgan distribution — on
    /// the built tree, leaving its negation normal form.
    pub fn simplify_material_properties(&mut self)
        ensures
            old(self).root is None ==> final(self).root is None,
            old(self).root is Some ==> final(self).root == Some(
                crate::nnf::nnf_spec(old(self).root->Some_0, false),
            ),
    {
        let rewritten = match &self.root {
            None => None,
            Some(t) => {
                let t1 = crate::nnf::rewrite_equivalence(t);
                let t2 = crate::nnf::rewrite_material_conditions(&t1);
                let t3 = crate::nnf::rewrite_xor_operator(&t2);
                let t4 = crate::nnf::remove_double_negations(&t3);
                let t5 = crate::nnf::morgan_law(&t4, false);
                proof {
                    crate::nnf::lemma_nnf_collapse(
                        crate::nnf::elim_xor_spec(
                            crate::nnf::elim_implies_spec(crate::nnf::elim_equiv_spec(*t)),
                        ),
                        false,
                    );
                    crate::nnf::lemma_nnf_elim_xor(
                        crate::nnf::elim_implies_spec(crate::nnf::elim_equiv_spec(*t)),
                        false,
                    );
                    crate::nnf::lemma_nnf_elim_implies(crate::nnf::elim_equiv_spec(*t), false);
                    crate::nnf::lemma_nnf_elim_equiv(*t, false);
                }
                Some(t5)
            },
        };
        self.root = rewritten;
    }
}
} // verus!
