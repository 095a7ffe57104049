//! The boundary to `proc_macro2`: its types, names for what its functions
//! return, and one thin wrapper per function. Nothing in this file is proved;
//! every other module of the crate is proved against the contracts given here.

use vstd::prelude::*;
use proc_macro2::{Span, TokenStream, TokenTree};

verus! {

/// `proc_macro2::Span`: a region of source text, opaque to the verifier.
#[verifier::external_type_specification]
#[verifier::external_body]
pub struct ExSpan(proc_macro2::Span);

/// `proc_macro2::TokenTree`: one token, or a delimited group of tokens.
#[verifier::external_type_specification]
#[verifier::external_body]
pub struct ExTokenTree(proc_macro2::TokenTree);

/// `proc_macro2::TokenStream`: an ordered, finite sequence of token trees.
#[verifier::external_type_specification]
#[verifier::external_body]
pub struct ExTokenStream(proc_macro2::TokenStream);

/// The token trees that a stream holds, in the order in which it yields them.
pub uninterp spec fn stream_trees(tokens: TokenStream) -> Seq<TokenTree>;

/// The span that a token tree carries.
pub uninterp spec fn tree_span(tree: TokenTree) -> Span;

/// The text that the `Debug` impl of a span prints.
pub uninterp spec fn span_debug(span: Span) -> Seq<char>;

/// Calls `TokenStream::into_iter` and collects what it yields.
///
/// Trusted: the vector holds the stream's token trees in order, which is what
/// `stream_trees` names.
#[verifier::external_body]
pub(crate) fn token_trees(tokens: TokenStream) -> (trees: Vec<TokenTree>)
    ensures
        trees@ == stream_trees(tokens),
{
    tokens.into_iter().collect()
}

/// Calls `TokenTree::span`.
///
/// Trusted: the result is the span that the tree carries, named `tree_span`.
/// The method only reads the tree.
#[verifier::external_body]
pub(crate) fn span_of_tree(tree: &TokenTree) -> (span: Span)
    ensures
        span == tree_span(*tree),
{
    tree.span()
}

/// Formats a span with its `Debug` impl.
///
/// Trusted: the string holds the text that the impl prints, named
/// `span_debug`. For a span made outside a procedural macro that text is
/// `bytes(lo..hi)` when span locations are compiled in.
#[verifier::external_body]
pub(crate) fn debug_text(span: &Span) -> (text: String)
    ensures
        text@ == span_debug(*span),
{
    format!("{:?}", span)
}

/// Calls `Span::call_site`.
///
/// Trusted: nothing. Which span comes back depends on where the code runs
/// (inside a procedural macro or not), so no contract speaks of it.
#[verifier::external_body]
pub(crate) fn call_site() -> Span {
    Span::call_site()
}

} // verus!
