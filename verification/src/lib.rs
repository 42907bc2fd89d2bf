//! Language intelligence for Thymeleaf HTML templates: the Standard Dialect
//! catalog, fragment-reference parsing, a parsed-document model with
//! position conversions, and the editor features computed from it.

pub mod text;
pub mod thymeleaf;
pub mod fragmentref;
pub mod code_actions;
pub mod diagnostics;
pub mod syntax;
pub mod document;
pub mod vault;
pub mod completion;

pub mod folding;
pub mod symbols;
pub mod rename;
pub mod highlight;
pub mod navigation;
pub mod hover;
pub mod links;
pub mod semantic_tokens;
pub mod server;
