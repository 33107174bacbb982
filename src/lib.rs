//! Front end of a small arithmetic-expression language: a pull-based lexer,
//! a shunting-yard parser that produces postfix order, and a generator that
//! folds the postfix sequence into a tree-shaped intermediate representation.
//! The `precedence` module proves that the three together build the tree
//! that standard operator precedence gives an arithmetic expression.

pub mod ir;
pub mod lexer;
pub mod parser;
pub mod precedence;
