//! The span that covers a whole syntax tree node.
//!
//! A node is anything that lowers to a stream of tokens. Each token carries
//! its own span; the span of the node is folded from the spans of its tokens,
//! after the tokens with a placeholder span have been dropped.

pub mod tokens;
pub mod filter;
pub mod aggregate;
mod sealed;
pub mod spanned;
pub mod lemmas;
