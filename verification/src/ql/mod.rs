//! The query language: its tokens, its syntax tree and its parser.

pub mod number;
pub mod statement;
pub mod tokens;
pub mod parser;

pub use self::number::Decimal;
pub use self::statement::{
    Filter, QueryType, RecurseType, RegexError, SetName, Statement, StatementSpec, TagSpec,
};
