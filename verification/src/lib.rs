//! Arithmetic expressions over a finite field: a parser from infix text to a
//! postfix program, and a stack machine that evaluates the program at a
//! point of the field.
pub mod atom;
pub mod counting;
pub mod expression;
pub mod field;
pub mod infix;
pub mod machine;
pub mod names;
pub mod natural;
pub mod parser;
pub mod scan;

pub use atom::{Atom, Operator, Symbol};
pub use counting::{EvalCountingExpression, Probes};
pub use expression::Expression;
pub use field::FieldElement;
pub use machine::{Defect, Outcome};
pub use natural::Natural;
pub use parser::{ParseError, Parser};
