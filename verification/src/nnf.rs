//! Rewriting into negation normal form.
//!
//! The rewriter is a sequence of passes, each a full traversal that returns
//! a new tree: equivalence elimination, implication elimination, XOR
//! elimination, double-negation collapse, and De Morgan distribution.  The
//! whole pipeline is proved equal to the one-pass mathematical transform
//! [`nnf_spec`], which pins the output tree — and therefore the output
//! string — exactly.

use crate::ast::binop_char;
use crate::ast::is_value_char;
use crate::ast::leaves_in;
use crate::ast::sem;
use crate::ast::serialize;
use crate::ast::BinOp;
use crate::ast::Node;
use vstd::prelude::*;

verus! {

/// Negation normal form of `n`, negated once when `neg` is set.  Negations
/// are pushed all the way to the leaves while `^`, `>` and `=` are expanded
/// into `&`, `|` and `!`.
pub open spec fn nnf_spec(n: Node, neg: bool) -> Node
    decreases n,
{
    match n {
        Node::Leaf(c) => if neg {
            Node::Not(Box::new(Node::Leaf(c)))
        } else {
            Node::Leaf(c)
        },
        Node::Not(x) => nnf_spec(*x, !neg),
        Node::Binary(op, a, b) => {
            match op {
                BinOp::And => if neg {
                    Node::Binary(
                        BinOp::Or,
                        Box::new(nnf_spec(*a, true)),
                        Box::new(nnf_spec(*b, true)),
                    )
                } else {
                    Node::Binary(
                        BinOp::And,
                        Box::new(nnf_spec(*a, false)),
                        Box::new(nnf_spec(*b, false)),
                    )
                },
                BinOp::Or => if neg {
                    Node::Binary(
                        BinOp::And,
                        Box::new(nnf_spec(*a, true)),
                        Box::new(nnf_spec(*b, true)),
                    )
                } else {
                    Node::Binary(
                        BinOp::Or,
                        Box::new(nnf_spec(*a, false)),
                        Box::new(nnf_spec(*b, false)),
                    )
                },
                BinOp::Implies => if neg {
                    Node::Binary(
                        BinOp::And,
                        Box::new(nnf_spec(*a, false)),
                        Box::new(nnf_spec(*b, true)),
                    )
                } else {
                    Node::Binary(
                        BinOp::Or,
                        Box::new(nnf_spec(*a, true)),
                        Box::new(nnf_spec(*b, false)),
                    )
                },
                BinOp::Xor => if neg {
                    Node::Binary(
                        BinOp::And,
                        Box::new(
                            Node::Binary(
                                BinOp::Or,
                                Box::new(nnf_spec(*a, true)),
                                Box::new(nnf_spec(*b, false)),
                            ),
                        ),
                        Box::new(
                            Node::Binary(
                                BinOp::Or,
                                Box::new(nnf_spec(*b, true)),
                                Box::new(nnf_spec(*a, false)),
                            ),
                        ),
                    )
                } else {
                    Node::Binary(
                        BinOp::Or,
                        Box::new(
                            Node::Binary(
                                BinOp::And,
                                Box::new(nnf_spec(*a, false)),
                                Box::new(nnf_spec(*b, true)),
                            ),
                        ),
                        Box::new(
                            Node::Binary(
                                BinOp::And,
                                Box::new(nnf_spec(*b, false)),
                                Box::new(nnf_spec(*a, true)),
                            ),
                        ),
                    )
                },
                BinOp::Equiv => if neg {
                    Node::Binary(
                        BinOp::Or,
                        Box::new(
                            Node::Binary(
                                BinOp::And,
                                Box::new(nnf_spec(*a, false)),
                                Box::new(nnf_spec(*b, true)),
                            ),
                        ),
                        Box::new(
                            Node::Binary(
                                BinOp::And,
                                Box::new(nnf_spec(*b, false)),
                                Box::new(nnf_spec(*a, true)),
                            ),
                        ),
                    )
                } else {
                    Node::Binary(
                        BinOp::And,
                        Box::new(
                            Node::Binary(
                                BinOp::Or,
                                Box::new(nnf_spec(*a, true)),
                                Box::new(nnf_spec(*b, false)),
                            ),
                        ),
                        Box::new(
                            Node::Binary(
                                BinOp::Or,
                                Box::new(nnf_spec(*b, true)),
                                Box::new(nnf_spec(*a, false)),
                            ),
                        ),
                    )
                },
            }
        },
    }
}


/// Unfolding equation: the transform under a fresh negation node.
proof fn eq_nnf_not(x: Node, neg: bool)
    ensures
        nnf_spec(Node::Not(Box::new(x)), neg) == nnf_spec(x, !neg),
{
    let b = Box::new(x);
    assert(*b == x);
}

/// Unfolding equation: the transform under a fresh `&` node.
proof fn eq_nnf_and(a: Node, b: Node, neg: bool)
    ensures
        nnf_spec(Node::Binary(BinOp::And, Box::new(a), Box::new(b)), neg) == (if neg {
            Node::Binary(BinOp::Or, Box::new(nnf_spec(a, true)), Box::new(nnf_spec(b, true)))
        } else {
            Node::Binary(BinOp::And, Box::new(nnf_spec(a, false)), Box::new(nnf_spec(b, false)))
        }),
{
    let ba = Box::new(a);
    let bb = Box::new(b);
    assert(*ba == a);
    assert(*bb == b);
}

/// Unfolding equation: the transform under a fresh `|` node.
proof fn eq_nnf_or(a: Node, b: Node, neg: bool)
    ensures
        nnf_spec(Node::Binary(BinOp::Or, Box::new(a), Box::new(b)), neg) == (if neg {
            Node::Binary(BinOp::And, Box::new(nnf_spec(a, true)), Box::new(nnf_spec(b, true)))
        } else {
            Node::Binary(BinOp::Or, Box::new(nnf_spec(a, false)), Box::new(nnf_spec(b, false)))
        }),
{
    let ba = Box::new(a);
    let bb = Box::new(b);
    assert(*ba == a);
    assert(*bb == b);
}

/// Unfolding equation: the transform under a fresh `>` node.
proof fn eq_nnf_implies(a: Node, b: Node, neg: bool)
    ensures
        nnf_spec(Node::Binary(BinOp::Implies, Box::new(a), Box::new(b)), neg) == (if neg {
            Node::Binary(BinOp::And, Box::new(nnf_spec(a, false)), Box::new(nnf_spec(b, true)))
        } else {
            Node::Binary(BinOp::Or, Box::new(nnf_spec(a, true)), Box::new(nnf_spec(b, false)))
        }),
{
    let ba = Box::new(a);
    let bb = Box::new(b);
    assert(*ba == a);
    assert(*bb == b);
}

/// Unfolding equation: the truth value under a fresh negation node.
proof fn eq_sem_not(x: Node, env: Map<char, bool>)
    ensures
        sem(Node::Not(Box::new(x)), env) == !sem(x, env),
{
    let b = Box::new(x);
    assert(*b == x);
}

/// Unfolding equation: leaves under a fresh negation node.
proof fn eq_leaves_not(x: Node, allowed: Set<char>)
    ensures
        leaves_in(Node::Not(Box::new(x)), allowed) == leaves_in(x, allowed),
{
    let b = Box::new(x);
    assert(*b == x);
}


/// Unfolding equation: the truth value of a fresh `&` node.
proof fn eq_sem_and_pair(a: Node, b: Node, env: Map<char, bool>)
    ensures
        sem(Node::Binary(BinOp::And, Box::new(a), Box::new(b)), env) == (sem(a, env) && sem(
            b,
            env,
        )),
{
    let ba = Box::new(a);
    let bb = Box::new(b);
    assert(*ba == a);
    assert(*bb == b);
}

/// Unfolding equation: the truth value of a fresh `|` node.
proof fn eq_sem_or_pair(a: Node, b: Node, env: Map<char, bool>)
    ensures
        sem(Node::Binary(BinOp::Or, Box::new(a), Box::new(b)), env) == (sem(a, env) || sem(
            b,
            env,
        )),
{
    let ba = Box::new(a);
    let bb = Box::new(b);
    assert(*ba == a);
    assert(*bb == b);
}


/// Unfolding equation: the transform under a fresh `^` node.
proof fn eq_nnf_xor(a: Node, b: Node, neg: bool)
    ensures
        nnf_spec(Node::Binary(BinOp::Xor, Box::new(a), Box::new(b)), neg) == (if neg {
            Node::Binary(
                BinOp::And,
                Box::new(
                    Node::Binary(BinOp::Or, Box::new(nnf_spec(a, true)), Box::new(nnf_spec(b, false))),
                ),
                Box::new(
                    Node::Binary(BinOp::Or, Box::new(nnf_spec(b, true)), Box::new(nnf_spec(a, false))),
                ),
            )
        } else {
            Node::Binary(
                BinOp::Or,
                Box::new(
                    Node::Binary(BinOp::And, Box::new(nnf_spec(a, false)), Box::new(nnf_spec(b, true))),
                ),
                Box::new(
                    Node::Binary(BinOp::And, Box::new(nnf_spec(b, false)), Box::new(nnf_spec(a, true))),
                ),
            )
        }),
{
    let ba = Box::new(a);
    let bb = Box::new(b);
    assert(*ba == a);
    assert(*bb == b);
}

/// Unfolding equation: structure of a fresh binary node.
proof fn eq_is_nnf_pair(op: BinOp, a: Node, b: Node)
    ensures
        is_nnf(Node::Binary(op, Box::new(a), Box::new(b))) == ((op == BinOp::And || op
            == BinOp::Or) && is_nnf(a) && is_nnf(b)),
{
    let ba = Box::new(a);
    let bb = Box::new(b);
    assert(*ba == a);
    assert(*bb == b);
}

/// Unfolding equation: leaves of a fresh binary node.
proof fn eq_leaves_pair(op: BinOp, a: Node, b: Node, allowed: Set<char>)
    ensures
        leaves_in(Node::Binary(op, Box::new(a), Box::new(b)), allowed) == (leaves_in(a, allowed)
            && leaves_in(b, allowed)),
{
    let ba = Box::new(a);
    let bb = Box::new(b);
    assert(*ba == a);
    assert(*bb == b);
}


/// Unfolding equation: the transform under a fresh `=` node.
proof fn eq_nnf_equiv(a: Node, b: Node, neg: bool)
    ensures
        nnf_spec(Node::Binary(BinOp::Equiv, Box::new(a), Box::new(b)), neg) == (if neg {
            Node::Binary(
                BinOp::Or,
                Box::new(
                    Node::Binary(BinOp::And, Box::new(nnf_spec(a, false)), Box::new(nnf_spec(b, true))),
                ),
                Box::new(
                    Node::Binary(BinOp::And, Box::new(nnf_spec(b, false)), Box::new(nnf_spec(a, true))),
                ),
            )
        } else {
            Node::Binary(
                BinOp::And,
                Box::new(
                    Node::Binary(BinOp::Or, Box::new(nnf_spec(a, true)), Box::new(nnf_spec(b, false))),
                ),
                Box::new(
                    Node::Binary(BinOp::Or, Box::new(nnf_spec(b, true)), Box::new(nnf_spec(a, false))),
                ),
            )
        }),
{
    let ba = Box::new(a);
    let bb = Box::new(b);
    assert(*ba == a);
    assert(*bb == b);
}

/// The tree is in negation normal form: only `&` and `|` as connectives,
/// `!` only directly over a leaf.
pub open spec fn is_nnf(n: Node) -> bool
    decreases n,
{
    match n {
        Node::Leaf(_) => true,
        Node::Not(x) => (*x) is Leaf,
        Node::Binary(op, a, b) => (op == BinOp::And || op == BinOp::Or) && is_nnf(*a) && is_nnf(
            *b,
        ),
    }
}

/// The transform lands in negation normal form.
pub proof fn lemma_nnf_spec_is_nnf(n: Node, neg: bool)
    ensures
        is_nnf(nnf_spec(n, neg)),
    decreases n,
{
    match n {
        Node::Leaf(c) => {
            if neg {
                let b = Box::new(Node::Leaf(c));
                assert(*b == Node::Leaf(c));
                assert(is_nnf(Node::Not(b)));
            }
        },
        Node::Not(x) => lemma_nnf_spec_is_nnf(*x, !neg),
        Node::Binary(op, a, b) => {
            lemma_nnf_spec_is_nnf(*a, true);
            lemma_nnf_spec_is_nnf(*b, true);
            lemma_nnf_spec_is_nnf(*a, false);
            lemma_nnf_spec_is_nnf(*b, false);
            let at = nnf_spec(*a, true);
            let af = nnf_spec(*a, false);
            let bt = nnf_spec(*b, true);
            let bf = nnf_spec(*b, false);
            eq_is_nnf_pair(BinOp::And, at, bt);
            eq_is_nnf_pair(BinOp::Or, at, bt);
            eq_is_nnf_pair(BinOp::And, af, bf);
            eq_is_nnf_pair(BinOp::Or, af, bf);
            eq_is_nnf_pair(BinOp::And, af, bt);
            eq_is_nnf_pair(BinOp::Or, at, bf);
            eq_is_nnf_pair(BinOp::And, bf, at);
            eq_is_nnf_pair(BinOp::Or, bt, af);
            eq_is_nnf_pair(
                BinOp::And,
                Node::Binary(BinOp::Or, Box::new(at), Box::new(bf)),
                Node::Binary(BinOp::Or, Box::new(bt), Box::new(af)),
            );
            eq_is_nnf_pair(
                BinOp::Or,
                Node::Binary(BinOp::And, Box::new(af), Box::new(bt)),
                Node::Binary(BinOp::And, Box::new(bf), Box::new(at)),
            );
        },
    }
}

/// The transform preserves the truth value (and negates it when asked).
pub proof fn lemma_nnf_spec_sem(n: Node, neg: bool, env: Map<char, bool>)
    ensures
        sem(nnf_spec(n, neg), env) == (if neg {
            !sem(n, env)
        } else {
            sem(n, env)
        }),
    decreases n,
{
    match n {
        Node::Leaf(c) => {
            if neg {
                eq_sem_not(Node::Leaf(c), env);
            }
        },
        Node::Not(x) => lemma_nnf_spec_sem(*x, !neg, env),
        Node::Binary(op, a, b) => {
            lemma_nnf_spec_sem(*a, true, env);
            lemma_nnf_spec_sem(*b, true, env);
            lemma_nnf_spec_sem(*a, false, env);
            lemma_nnf_spec_sem(*b, false, env);
            match op {
                BinOp::And => {
                    if neg {
                        eq_sem_or_pair(nnf_spec(*a, true), nnf_spec(*b, true), env);
                    } else {
                        eq_sem_and_pair(nnf_spec(*a, false), nnf_spec(*b, false), env);
                    }
                },
                BinOp::Or => {
                    if neg {
                        eq_sem_and_pair(nnf_spec(*a, true), nnf_spec(*b, true), env);
                    } else {
                        eq_sem_or_pair(nnf_spec(*a, false), nnf_spec(*b, false), env);
                    }
                },
                BinOp::Implies => {
                    if neg {
                        eq_sem_and_pair(nnf_spec(*a, false), nnf_spec(*b, true), env);
                    } else {
                        eq_sem_or_pair(nnf_spec(*a, true), nnf_spec(*b, false), env);
                    }
                },
                BinOp::Xor => {
                    if neg {
                        let l = Node::Binary(
                            BinOp::Or,
                            Box::new(nnf_spec(*a, true)),
                            Box::new(nnf_spec(*b, false)),
                        );
                        let r = Node::Binary(
                            BinOp::Or,
                            Box::new(nnf_spec(*b, true)),
                            Box::new(nnf_spec(*a, false)),
                        );
                        eq_sem_or_pair(nnf_spec(*a, true), nnf_spec(*b, false), env);
                        eq_sem_or_pair(nnf_spec(*b, true), nnf_spec(*a, false), env);
                        eq_sem_and_pair(l, r, env);
                    } else {
                        let l = Node::Binary(
                            BinOp::And,
                            Box::new(nnf_spec(*a, false)),
                            Box::new(nnf_spec(*b, true)),
                        );
                        let r = Node::Binary(
                            BinOp::And,
                            Box::new(nnf_spec(*b, false)),
                            Box::new(nnf_spec(*a, true)),
                        );
                        eq_sem_and_pair(nnf_spec(*a, false), nnf_spec(*b, true), env);
                        eq_sem_and_pair(nnf_spec(*b, false), nnf_spec(*a, true), env);
                        eq_sem_or_pair(l, r, env);
                    }
                },
                BinOp::Equiv => {
                    if neg {
                        let l = Node::Binary(
                            BinOp::And,
                            Box::new(nnf_spec(*a, false)),
                            Box::new(nnf_spec(*b, true)),
                        );
                        let r = Node::Binary(
                            BinOp::And,
                            Box::new(nnf_spec(*b, false)),
                            Box::new(nnf_spec(*a, true)),
                        );
                        eq_sem_and_pair(nnf_spec(*a, false), nnf_spec(*b, true), env);
                        eq_sem_and_pair(nnf_spec(*b, false), nnf_spec(*a, true), env);
                        eq_sem_or_pair(l, r, env);
                    } else {
                        let l = Node::Binary(
                            BinOp::Or,
                            Box::new(nnf_spec(*a, true)),
                            Box::new(nnf_spec(*b, false)),
                        );
                        let r = Node::Binary(
                            BinOp::Or,
                            Box::new(nnf_spec(*b, true)),
                            Box::new(nnf_spec(*a, false)),
                        );
                        eq_sem_or_pair(nnf_spec(*a, true), nnf_spec(*b, false), env);
                        eq_sem_or_pair(nnf_spec(*b, true), nnf_spec(*a, false), env);
                        eq_sem_and_pair(l, r, env);
                    }
                },
            }
        },
    }
}

/// The transform does not invent leaves.
pub proof fn lemma_nnf_spec_leaves(n: Node, neg: bool, allowed: Set<char>)
    requires
        leaves_in(n, allowed),
    ensures
        leaves_in(nnf_spec(n, neg), allowed),
    decreases n,
{
    match n {
        Node::Leaf(c) => {
            if neg {
                eq_leaves_not(Node::Leaf(c), allowed);
            }
        },
        Node::Not(x) => lemma_nnf_spec_leaves(*x, !neg, allowed),
        Node::Binary(op, a, b) => {
            lemma_nnf_spec_leaves(*a, true, allowed);
            lemma_nnf_spec_leaves(*b, true, allowed);
            lemma_nnf_spec_leaves(*a, false, allowed);
            lemma_nnf_spec_leaves(*b, false, allowed);
            let at = nnf_spec(*a, true);
            let af = nnf_spec(*a, false);
            let bt = nnf_spec(*b, true);
            let bf = nnf_spec(*b, false);
            eq_leaves_pair(BinOp::And, at, bt, allowed);
            eq_leaves_pair(BinOp::Or, at, bt, allowed);
            eq_leaves_pair(BinOp::And, af, bf, allowed);
            eq_leaves_pair(BinOp::Or, af, bf, allowed);
            eq_leaves_pair(BinOp::And, af, bt, allowed);
            eq_leaves_pair(BinOp::Or, at, bf, allowed);
            eq_leaves_pair(BinOp::And, bf, at, allowed);
            eq_leaves_pair(BinOp::Or, bt, af, allowed);
            eq_leaves_pair(
                BinOp::And,
                Node::Binary(BinOp::Or, Box::new(at), Box::new(bf)),
                Node::Binary(BinOp::Or, Box::new(bt), Box::new(af)),
                allowed,
            );
            eq_leaves_pair(
                BinOp::Or,
                Node::Binary(BinOp::And, Box::new(af), Box::new(bt)),
                Node::Binary(BinOp::And, Box::new(bf), Box::new(at)),
                allowed,
            );
        },
    }
}

/// Equivalence elimination: `a = b` becomes `(a > b) & (b > a)`, with the
/// operands duplicated.
pub open spec fn elim_equiv_spec(n: Node) -> Node
    decreases n,
{
    match n {
        Node::Leaf(c) => n,
        Node::Not(x) => Node::Not(Box::new(elim_equiv_spec(*x))),
        Node::Binary(op, a, b) => {
            let ra = elim_equiv_spec(*a);
            let rb = elim_equiv_spec(*b);
            if op == BinOp::Equiv {
                Node::Binary(
                    BinOp::And,
                    Box::new(Node::Binary(BinOp::Implies, Box::new(ra), Box::new(rb))),
                    Box::new(Node::Binary(BinOp::Implies, Box::new(rb), Box::new(ra))),
                )
            } else {
                Node::Binary(op, Box::new(ra), Box::new(rb))
            }
        },
    }
}

/// Implication elimination: `a > b` becomes `!a | b`.
pub open spec fn elim_implies_spec(n: Node) -> Node
    decreases n,
{
    match n {
        Node::Leaf(c) => n,
        Node::Not(x) => Node::Not(Box::new(elim_implies_spec(*x))),
        Node::Binary(op, a, b) => {
            let ra = elim_implies_spec(*a);
            let rb = elim_implies_spec(*b);
            if op == BinOp::Implies {
                Node::Binary(
                    BinOp::Or,
                    Box::new(Node::Not(Box::new(ra))),
                    Box::new(rb),
                )
            } else {
                Node::Binary(op, Box::new(ra), Box::new(rb))
            }
        },
    }
}

/// XOR elimination: `a ^ b` becomes `(a & !b) | (b & !a)`, with the
/// operands duplicated.
pub open spec fn elim_xor_spec(n: Node) -> Node
    decreases n,
{
    match n {
        Node::Leaf(c) => n,
        Node::Not(x) => Node::Not(Box::new(elim_xor_spec(*x))),
        Node::Binary(op, a, b) => {
            let ra = elim_xor_spec(*a);
            let rb = elim_xor_spec(*b);
            if op == BinOp::Xor {
                Node::Binary(
                    BinOp::Or,
                    Box::new(
                        Node::Binary(BinOp::And, Box::new(ra), Box::new(Node::Not(Box::new(rb)))),
                    ),
                    Box::new(
                        Node::Binary(BinOp::And, Box::new(rb), Box::new(Node::Not(Box::new(ra)))),
                    ),
                )
            } else {
                Node::Binary(op, Box::new(ra), Box::new(rb))
            }
        },
    }
}

/// Double-negation collapse: `!!x` becomes `x`, everywhere, bottom up.
pub open spec fn collapse_spec(n: Node) -> Node
    decreases n,
{
    match n {
        Node::Leaf(c) => n,
        Node::Not(x) => {
            match collapse_spec(*x) {
                Node::Not(y) => *y,
                m => Node::Not(Box::new(m)),
            }
        },
        Node::Binary(op, a, b) => Node::Binary(
            op,
            Box::new(collapse_spec(*a)),
            Box::new(collapse_spec(*b)),
        ),
    }
}

/// Eliminating equivalences first changes nothing about the normal form.
pub proof fn lemma_nnf_elim_equiv(n: Node, neg: bool)
    ensures
        nnf_spec(elim_equiv_spec(n), neg) == nnf_spec(n, neg),
    decreases n,
{
    match n {
        Node::Leaf(_) => {},
        Node::Not(x) => {
            lemma_nnf_elim_equiv(*x, !neg);
            eq_nnf_not(elim_equiv_spec(*x), neg);
        },
        Node::Binary(op, a, b) => {
            lemma_nnf_elim_equiv(*a, true);
            lemma_nnf_elim_equiv(*b, true);
            lemma_nnf_elim_equiv(*a, false);
            lemma_nnf_elim_equiv(*b, false);
            let ra = elim_equiv_spec(*a);
            let rb = elim_equiv_spec(*b);
            match op {
                BinOp::And => eq_nnf_and(ra, rb, neg),
                BinOp::Or => eq_nnf_or(ra, rb, neg),
                BinOp::Implies => eq_nnf_implies(ra, rb, neg),
                BinOp::Xor => eq_nnf_xor(ra, rb, neg),
                BinOp::Equiv => {
                    let ia = Node::Binary(BinOp::Implies, Box::new(ra), Box::new(rb));
                    let ib = Node::Binary(BinOp::Implies, Box::new(rb), Box::new(ra));
                    assert(elim_equiv_spec(n) == Node::Binary(
                        BinOp::And,
                        Box::new(ia),
                        Box::new(ib),
                    ));
                    eq_nnf_and(ia, ib, neg);
                    eq_nnf_implies(ra, rb, true);
                    eq_nnf_implies(ra, rb, false);
                    eq_nnf_implies(rb, ra, true);
                    eq_nnf_implies(rb, ra, false);
                },
            }
        },
    }
}

/// Eliminating implications next changes nothing about the normal form.
pub proof fn lemma_nnf_elim_implies(n: Node, neg: bool)
    ensures
        nnf_spec(elim_implies_spec(n), neg) == nnf_spec(n, neg),
    decreases n,
{
    match n {
        Node::Leaf(_) => {},
        Node::Not(x) => {
            lemma_nnf_elim_implies(*x, !neg);
            eq_nnf_not(elim_implies_spec(*x), neg);
        },
        Node::Binary(op, a, b) => {
            lemma_nnf_elim_implies(*a, true);
            lemma_nnf_elim_implies(*b, true);
            lemma_nnf_elim_implies(*a, false);
            lemma_nnf_elim_implies(*b, false);
            let ra = elim_implies_spec(*a);
            let rb = elim_implies_spec(*b);
            match op {
                BinOp::And => eq_nnf_and(ra, rb, neg),
                BinOp::Or => eq_nnf_or(ra, rb, neg),
                BinOp::Xor => eq_nnf_xor(ra, rb, neg),
                BinOp::Equiv => eq_nnf_equiv(ra, rb, neg),
                BinOp::Implies => {
                    let na = Node::Not(Box::new(ra));
                    assert(elim_implies_spec(n) == Node::Binary(
                        BinOp::Or,
                        Box::new(na),
                        Box::new(rb),
                    ));
                    eq_nnf_or(na, rb, neg);
                    eq_nnf_not(ra, true);
                    eq_nnf_not(ra, false);
                },
            }
        },
    }
}

/// Eliminating XOR next changes nothing about the normal form.
pub proof fn lemma_nnf_elim_xor(n: Node, neg: bool)
    ensures
        nnf_spec(elim_xor_spec(n), neg) == nnf_spec(n, neg),
    decreases n,
{
    match n {
        Node::Leaf(_) => {},
        Node::Not(x) => {
            lemma_nnf_elim_xor(*x, !neg);
            eq_nnf_not(elim_xor_spec(*x), neg);
        },
        Node::Binary(op, a, b) => {
            lemma_nnf_elim_xor(*a, true);
            lemma_nnf_elim_xor(*b, true);
            lemma_nnf_elim_xor(*a, false);
            lemma_nnf_elim_xor(*b, false);
            let ra = elim_xor_spec(*a);
            let rb = elim_xor_spec(*b);
            match op {
                BinOp::And => eq_nnf_and(ra, rb, neg),
                BinOp::Or => eq_nnf_or(ra, rb, neg),
                BinOp::Implies => eq_nnf_implies(ra, rb, neg),
                BinOp::Equiv => eq_nnf_equiv(ra, rb, neg),
                BinOp::Xor => {
                    let nb = Node::Not(Box::new(rb));
                    let na = Node::Not(Box::new(ra));
                    let l = Node::Binary(BinOp::And, Box::new(ra), Box::new(nb));
                    let r = Node::Binary(BinOp::And, Box::new(rb), Box::new(na));
                    assert(elim_xor_spec(n) == Node::Binary(BinOp::Or, Box::new(l), Box::new(r)));
                    eq_nnf_or(l, r, neg);
                    eq_nnf_and(ra, nb, true);
                    eq_nnf_and(ra, nb, false);
                    eq_nnf_and(rb, na, true);
                    eq_nnf_and(rb, na, false);
                    eq_nnf_not(rb, true);
                    eq_nnf_not(rb, false);
                    eq_nnf_not(ra, true);
                    eq_nnf_not(ra, false);
                },
            }
        },
    }
}

/// Collapsing double negations changes nothing about the normal form.
pub proof fn lemma_nnf_collapse(n: Node, neg: bool)
    ensures
        nnf_spec(collapse_spec(n), neg) == nnf_spec(n, neg),
    decreases n,
{
    match n {
        Node::Leaf(_) => {},
        Node::Not(x) => {
            lemma_nnf_collapse(*x, !neg);
            match collapse_spec(*x) {
                Node::Not(y) => {
                    assert(nnf_spec(collapse_spec(n), neg) == nnf_spec(*y, neg));
                    assert(nnf_spec(collapse_spec(*x), !neg) == nnf_spec(*y, neg));
                },
                m => {},
            }
        },
        Node::Binary(op, a, b) => {
            lemma_nnf_collapse(*a, true);
            lemma_nnf_collapse(*b, true);
            lemma_nnf_collapse(*a, false);
            lemma_nnf_collapse(*b, false);
        },
    }
}

/// Rewrite every `=` into `(a > b) & (b > a)`, copying the operands.
pub fn rewrite_equivalence(n: &Node) -> (r: Node)
    ensures
        r == elim_equiv_spec(*n),
    decreases *n,
{
    match n {
        Node::Leaf(c) => Node::Leaf(*c),
        Node::Not(x) => Node::Not(Box::new(rewrite_equivalence(x))),
        Node::Binary(op, a, b) => {
            let ra = rewrite_equivalence(a);
            let rb = rewrite_equivalence(b);
            match op {
                BinOp::Equiv => {
                    let ra2 = ra.duplicate();
                    let rb2 = rb.duplicate();
                    Node::Binary(
                        BinOp::And,
                        Box::new(Node::Binary(BinOp::Implies, Box::new(ra), Box::new(rb))),
                        Box::new(Node::Binary(BinOp::Implies, Box::new(rb2), Box::new(ra2))),
                    )
                },
                _ => Node::Binary(*op, Box::new(ra), Box::new(rb)),
            }
        },
    }
}

/// Rewrite every `>` into `!a | b`.
pub fn rewrite_material_conditions(n: &Node) -> (r: Node)
    ensures
        r == elim_implies_spec(*n),
    decreases *n,
{
    match n {
        Node::Leaf(c) => Node::Leaf(*c),
        Node::Not(x) => Node::Not(Box::new(rewrite_material_conditions(x))),
        Node::Binary(op, a, b) => {
            let ra = rewrite_material_conditions(a);
            let rb = rewrite_material_conditions(b);
            match op {
                BinOp::Implies => Node::Binary(
                    BinOp::Or,
                    Box::new(Node::Not(Box::new(ra))),
                    Box::new(rb),
                ),
                _ => Node::Binary(*op, Box::new(ra), Box::new(rb)),
            }
        },
    }
}

/// Rewrite every `^` into `(a & !b) | (b & !a)`, copying the operands.
pub fn rewrite_xor_operator(n: &Node) -> (r: Node)
    ensures
        r == elim_xor_spec(*n),
    decreases *n,
{
    match n {
        Node::Leaf(c) => Node::Leaf(*c),
        Node::Not(x) => Node::Not(Box::new(rewrite_xor_operator(x))),
        Node::Binary(op, a, b) => {
            let ra = rewrite_xor_operator(a);
            let rb = rewrite_xor_operator(b);
            match op {
                BinOp::Xor => {
                    let ra2 = ra.duplicate();
                    let rb2 = rb.duplicate();
                    Node::Binary(
                        BinOp::Or,
                        Box::new(
                            Node::Binary(
                                BinOp::And,
                                Box::new(ra),
                                Box::new(Node::Not(Box::new(rb2))),
                            ),
                        ),
                        Box::new(
                            Node::Binary(
                                BinOp::And,
                                Box::new(rb),
                                Box::new(Node::Not(Box::new(ra2))),
                            ),
                        ),
                    )
                },
                _ => Node::Binary(*op, Box::new(ra), Box::new(rb)),
            }
        },
    }
}

/// Walk into a chain of negations; an even chain vanishes, an odd one
/// leaves a single `!` over the chain's core.  `not_oper_cnt` counts the
/// negations already passed (only its parity matters).
pub open spec fn chain_collapse_spec(n: Node, parity_odd: bool) -> Node
    decreases n,
{
    match n {
        Node::Not(x) => chain_collapse_spec(*x, !parity_odd),
        _ => if parity_odd {
            Node::Not(Box::new(n))
        } else {
            n
        },
    }
}

/// Descend a chain of `!` nodes and keep one negation exactly when the
/// total count is odd.
pub fn eliminate_double_negation(n: &Node, not_oper_cnt: usize) -> (r: Node)
    ensures
        r == chain_collapse_spec(*n, not_oper_cnt % 2 == 1),
    decreases *n,
{
    match n {
        Node::Not(x) => {
            let next: usize = if not_oper_cnt % 2 == 0 {
                1
            } else {
                0
            };
            eliminate_double_negation(x, next)
        },
        _ => {
            if not_oper_cnt % 2 == 0 {
                n.duplicate()
            } else {
                Node::Not(Box::new(n.duplicate()))
            }
        },
    }
}

/// Collapse every double negation in the tree, bottom up.
pub fn remove_double_negations(n: &Node) -> (r: Node)
    ensures
        r == collapse_spec(*n),
    decreases *n,
{
    match n {
        Node::Leaf(c) => Node::Leaf(*c),
        Node::Not(x) => {
            let inner = remove_double_negations(x);
            match inner {
                Node::Not(y) => *y,
                m => Node::Not(Box::new(m)),
            }
        },
        Node::Binary(op, a, b) => Node::Binary(
            *op,
            Box::new(remove_double_negations(a)),
            Box::new(remove_double_negations(b)),
        ),
    }
}

/// De Morgan distribution: push a pending negation below `&` and `|`,
/// flipping the connective, until it rests on the leaves.  On a tree whose
/// connectives are only `&`, `|` and `!` this completes the normal form.
pub fn morgan_law(n: &Node, found_not: bool) -> (r: Node)
    ensures
        r == nnf_spec(*n, found_not),
    decreases *n,
{
    match n {
        Node::Leaf(c) => {
            if found_not {
                Node::Not(Box::new(Node::Leaf(*c)))
            } else {
                Node::Leaf(*c)
            }
        },
        Node::Not(x) => morgan_law(x, !found_not),
        Node::Binary(op, a, b) => {
            match op {
                BinOp::And => {
                    if found_not {
                        Node::Binary(
                            BinOp::Or,
                            Box::new(morgan_law(a, true)),
                            Box::new(morgan_law(b, true)),
                        )
                    } else {
                        Node::Binary(
                            BinOp::And,
                            Box::new(morgan_law(a, false)),
                            Box::new(morgan_law(b, false)),
                        )
                    }
                },
                BinOp::Or => {
                    if found_not {
                        Node::Binary(
                            BinOp::And,
                            Box::new(morgan_law(a, true)),
                            Box::new(morgan_law(b, true)),
                        )
                    } else {
                        Node::Binary(
                            BinOp::Or,
                            Box::new(morgan_law(a, false)),
                            Box::new(morgan_law(b, false)),
                        )
                    }
                },
                BinOp::Implies => {
                    if found_not {
                        Node::Binary(
                            BinOp::And,
                            Box::new(morgan_law(a, false)),
                            Box::new(morgan_law(b, true)),
                        )
                    } else {
                        Node::Binary(
                            BinOp::Or,
                            Box::new(morgan_law(a, true)),
                            Box::new(morgan_law(b, false)),
                        )
                    }
                },
                BinOp::Xor => {
                    let (fa, fb) = if found_not {
                        (true, false)
                    } else {
                        (false, true)
                    };
                    let outer = if found_not {
                        BinOp::And
                    } else {
                        BinOp::Or
                    };
                    let inner = if found_not {
                        BinOp::Or
                    } else {
                        BinOp::And
                    };
                    Node::Binary(
                        outer,
                        Box::new(
                            Node::Binary(
                                inner,
                                Box::new(morgan_law(a, fa)),
                                Box::new(morgan_law(b, fb)),
                            ),
                        ),
                        Box::new(
                            Node::Binary(
                                inner,
                                Box::new(morgan_law(b, fa)),
                                Box::new(morgan_law(a, fb)),
                            ),
                        ),
                    )
                },
                BinOp::Equiv => {
                    let (fa, fb) = if found_not {
                        (false, true)
                    } else {
                        (true, false)
                    };
                    let outer = if found_not {
                        BinOp::Or
                    } else {
                        BinOp::And
                    };
                    let inner = if found_not {
                        BinOp::And
                    } else {
                        BinOp::Or
                    };
                    Node::Binary(
                        outer,
                        Box::new(
                            Node::Binary(
                                inner,
                                Box::new(morgan_law(a, fa)),
                                Box::new(morgan_law(b, fb)),
                            ),
                        ),
                        Box::new(
                            Node::Binary(
                                inner,
                                Box::new(morgan_law(b, fa)),
                                Box::new(morgan_law(a, fb)),
                            ),
                        ),
                    )
                },
            }
        },
    }
}


/// Append the RPN serialization of the tree to `out`.
fn serialize_into(n: &Node, out: &mut Vec<char>)
    ensures
        final(out)@ == old(out)@ + serialize(*n),
    decreases *n,
{
    match n {
        Node::Leaf(c) => {
            out.push(*c);
            proof {
                assert(out@ =~= old(out)@ + serialize(*n));
            }
        },
        Node::Not(x) => {
            serialize_into(x, out);
            out.push('!');
            proof {
                assert(out@ =~= old(out)@ + serialize(*n));
            }
        },
        Node::Binary(op, a, b) => {
            serialize_into(a, out);
            serialize_into(b, out);
            let c = match op {
                BinOp::And => '&',
                BinOp::Or => '|',
                BinOp::Xor => '^',
                BinOp::Implies => '>',
                BinOp::Equiv => '=',
            };
            assert(c == binop_char(*op));
            out.push(c);
            proof {
                assert(out@ =~= old(out)@ + serialize(*n));
            }
        },
    }
}

/// Serialize a tree back into an RPN formula string, by post-order
/// traversal.
pub fn get_rpn_formula(n: &Node) -> (s: String)
    ensures
        s@ == serialize(*n),
{
    let mut out: Vec<char> = Vec::new();
    serialize_into(n, &mut out);
    proof {
        assert(Seq::<char>::empty() + serialize(*n) =~= serialize(*n));
    }
    crate::strutil::chars_to_string(&out)
}

/// Rewrite a formula over variables into negation normal form and print it
/// back as an RPN string.  The output is exactly the serialization of
/// [`nnf_spec`] of the parsed tree.
pub fn negation_normal_form(formula: &str) -> (r: Result<String, crate::ast::FormulaError>)
    ensures
        match r {
            Ok(s) => {
                &&& crate::parser::valid_formula(formula@)
                &&& crate::parser::has_variable(formula@)
                &&& s@ == serialize(
                    nnf_spec(crate::parser::spec_parse(formula@)->Some_0, false),
                )
            },
            Err(_) => !crate::parser::valid_formula(formula@) || !crate::parser::has_variable(
                formula@,
            ),
        },
{
    let chars = crate::strutil::str_chars(formula);
    let t = match crate::parser::build_tree(&chars) {
        Err(e) => {
            return Err(e);
        },
        Ok(t) => t,
    };
    if !crate::parser::contains_variable(&chars) {
        return Err(crate::ast::FormulaError::InvalidFormula);
    }
    let t1 = rewrite_equivalence(&t);
    let t2 = rewrite_material_conditions(&t1);
    let t3 = rewrite_xor_operator(&t2);
    let t4 = remove_double_negations(&t3);
    let t5 = morgan_law(&t4, false);
    proof {
        lemma_nnf_collapse(elim_xor_spec(elim_implies_spec(elim_equiv_spec(t))), false);
        lemma_nnf_elim_xor(elim_implies_spec(elim_equiv_spec(t)), false);
        lemma_nnf_elim_implies(elim_equiv_spec(t), false);
        lemma_nnf_elim_equiv(t, false);
    }
    Ok(get_rpn_formula(&t5))
}

/// The serialization of a tree in negation normal form over variables: all
/// characters are variables, `!`, `&` or `|`, the first is a variable, and
/// every `!` directly follows a variable.
pub proof fn lemma_serialize_nnf_chars(n: Node)
    requires
        is_nnf(n),
        leaves_in(n, Set::new(|c: char| crate::ast::is_variable_char(c))),
    ensures
        serialize(n).len() > 0,
        crate::ast::is_variable_char(serialize(n)[0]),
        forall|i: int|
            0 <= i < serialize(n).len() ==> crate::ast::is_variable_char(#[trigger] serialize(n)[i])
                || serialize(n)[i] == '!' || serialize(n)[i] == '&' || serialize(n)[i] == '|',
        forall|i: int|
            0 <= i < serialize(n).len() && #[trigger] serialize(n)[i] == '!' ==> i > 0
                && crate::ast::is_variable_char(serialize(n)[i - 1]),
    decreases n,
{
    match n {
        Node::Leaf(c) => {},
        Node::Not(x) => {
            assert((*x) is Leaf);
            let c = (*x)->Leaf_0;
            assert(leaves_in(*x, Set::new(|c: char| crate::ast::is_variable_char(c))));
            assert(serialize(*x) =~= seq![c]);
            assert(serialize(n) =~= seq![c, '!']);
        },
        Node::Binary(op, a, b) => {
            lemma_serialize_nnf_chars(*a);
            lemma_serialize_nnf_chars(*b);
            let sa = serialize(*a);
            let sb = serialize(*b);
            let oc = binop_char(op);
            assert(oc == '&' || oc == '|');
            assert(serialize(n) == sa + sb + seq![oc]);
            let out = serialize(n);
            assert forall|i: int| 0 <= i < out.len() implies crate::ast::is_variable_char(
                #[trigger] out[i],
            ) || out[i] == '!' || out[i] == '&' || out[i] == '|' by {
                if i < sa.len() {
                    assert(out[i] == sa[i]);
                } else if i < sa.len() + sb.len() {
                    assert(out[i] == sb[i - sa.len()]);
                } else {
                    assert(out[i] == oc);
                }
            }
            assert forall|i: int| 0 <= i < out.len() && #[trigger] out[i] == '!' implies i > 0
                && crate::ast::is_variable_char(out[i - 1]) by {
                if i < sa.len() {
                    assert(out[i] == sa[i]);
                    assert(out[i - 1] == sa[i - 1]);
                } else if i < sa.len() + sb.len() {
                    assert(out[i] == sb[i - sa.len()]);
                    assert(i - sa.len() > 0);
                    assert(out[i - 1] == sb[i - sa.len() - 1]);
                } else {
                    assert(out[i] == oc);
                }
            }
            assert(out[0] == sa[0]);
        },
    }
}

/// What a formula's negation normal form looks like as a string: no `>`,
/// `=` or `^` remains, and every `!` applies directly to a variable.
pub proof fn lemma_nnf_output_form(s: Seq<char>)
    requires
        crate::parser::valid_formula(s),
        crate::parser::has_variable(s),
    ensures
        ({
            let out = serialize(nnf_spec(crate::parser::spec_parse(s)->Some_0, false));
            &&& forall|i: int|
                0 <= i < out.len() ==> #[trigger] out[i] != '>' && out[i] != '=' && out[i] != '^'
            &&& forall|i: int|
                0 <= i < out.len() && #[trigger] out[i] == '!' ==> i > 0
                    && crate::ast::is_variable_char(out[i - 1])
        }),
{
    let t = crate::parser::spec_parse(s)->Some_0;
    let m = nnf_spec(t, false);
    crate::parser::lemma_parse_leaves(s);
    let vars = Set::new(|c: char| crate::ast::is_variable_char(c));
    assert(forall|c: char| crate::parser::value_chars(s).contains(c) ==> vars.contains(c)) by {
        if crate::parser::has_literal(s) {
            assert(!crate::parser::chars_ok(s));
        }
    }
    crate::ast::lemma_leaves_mono(t, crate::parser::value_chars(s), vars);
    lemma_nnf_spec_leaves(t, false, vars);
    lemma_nnf_spec_is_nnf(t, false);
    lemma_serialize_nnf_chars(m);
    let out = serialize(m);
    assert(forall|i: int|
        0 <= i < out.len() ==> #[trigger] out[i] != '>' && out[i] != '=' && out[i] != '^');
}

} // verus!
