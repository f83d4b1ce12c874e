//! A canonical LR(1) parser generator and driver.
//!
//! Given a context-free grammar, the library computes FIRST sets, builds the
//! canonical collection of LR(1) item sets with its ACTION and GOTO tables,
//! and drives a shift-reduce parse of a token stream into a concrete syntax
//! tree.

pub mod symbol;
pub mod production;
pub mod sets;
pub mod first;
pub mod errors;
pub mod grammar;
pub mod item;
pub mod closure;
pub mod tree;
pub mod parser;
pub mod token;
pub mod token_like;
pub mod text;

pub use errors::LrError;
pub use grammar::Grammar;
pub use item::Item;
pub use parser::{Action, Parser, StackEl};
pub use production::Production;
pub use symbol::Symbol;
pub use token::Token;
pub use token_like::TokenLike;
pub use tree::{Node, NodeData, NodeId, Tree};
