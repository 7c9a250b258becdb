//! A propositional-logic engine over Reverse-Polish-Notation formulas.
//!
//! A formula is a string of literals (`0`/`1`) or variables (`A`-`Z`) combined
//! with the operators `!` (not), `&` (and), `|` (or), `^` (xor), `>` (implies)
//! and `=` (equivalence), written in postfix order.  The library builds an
//! expression tree from such a string, evaluates it, rewrites it into negation
//! normal form and conjunctive normal form, renders truth tables, decides
//! satisfiability, and reinterprets formulas over sets of integers.  A few
//! bitwise arithmetic utilities (`adder`, `multiplier`, `gray_code`) and a
//! `powerset` generator round out the crate.

pub mod ast;
pub mod bitops;
pub mod cnf;
pub mod eval;
pub mod nnf;
pub mod parser;
pub mod powerset;
pub mod sat;
pub mod sets;
pub mod strutil;
pub mod subst;
pub mod truth_table;

pub use ast::BinOp;
pub use ast::AST;
pub use ast::FormulaError;
pub use ast::Node;
pub use bitops::adder;
pub use bitops::gray_code;
pub use bitops::multiplier;
pub use cnf::conjunctive_normal_form;
pub use cnf::move_conjunctions_to_end;
pub use eval::eval_formula;
pub use nnf::negation_normal_form;
pub use powerset::powerset;
pub use sat::sat;
pub use sets::eval_set;
pub use truth_table::render_truth_table;
pub use truth_table::TruthTable;
