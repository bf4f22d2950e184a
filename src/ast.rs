//! The syntax tree and its parser, also reachable under this path.
pub use crate::parse::{
    BinaryOperationTy, ControlFlow, Expression, Function, Literal, Module, Operation, Parser,
    Statement,
};
