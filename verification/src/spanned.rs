//! The span of a syntax tree node.

use vstd::prelude::*;
use proc_macro2::{Span, TokenStream, TokenTree};
use crate::aggregate::{cover_trees, first_or, is_span_of, Strategy};
use crate::filter::{located, real_spans, spans_of};
use crate::sealed::Sealed;
use crate::tokens::{call_site, stream_trees, token_trees};

verus! {

/// A syntax tree node, held as the token trees that it lowers to, together
/// with the call site at the time it was made. Anything that can be written
/// out as a token stream becomes a node through `Node::new`.
pub struct Node {
    trees: Vec<TokenTree>,
    call_site: Span,
}

impl View for Node {
    type V = Seq<TokenTree>;

    closed spec fn view(&self) -> Seq<TokenTree> {
        self.trees@
    }
}

impl Node {
    /// The node that lowers to the given token trees and has `fallback` for
    /// its span where none of them has a real location.
    pub fn from_trees(trees: Vec<TokenTree>, fallback: Span) -> (node: Node)
        ensures
            node@ == trees@,
            node.fallback() == fallback,
    {
        Node { trees, call_site: fallback }
    }

    /// The node that lowers to the given stream. Its fallback is the call
    /// site, of which nothing more is known here.
    pub fn new(tokens: TokenStream) -> (node: Node)
        ensures
            node@ == stream_trees(tokens),
    {
        Node::from_trees(token_trees(tokens), call_site())
    }
}

/// A syntax tree node that can tell the span of its complete contents.
///
/// The trait is sealed: it cannot be implemented outside this crate.
pub trait Spanned: Sealed {
    /// The token trees that the node lowers to, in textual order.
    spec fn tokens(&self) -> Seq<TokenTree>;

    /// The span that is returned where the node has no real location.
    spec fn fallback(&self) -> Span;

    /// The span that covers the node under the given strategy, with `join`
    /// to join two spans.
    fn span_with<F: Fn(Span, Span) -> Option<Span>>(&self, strategy: Strategy, join: F) -> (cover:
        Span)
        requires
            forall|a: Span, b: Span| call_requires(join, (a, b)),
        ensures
            is_span_of(join, self.tokens(), self.fallback(), strategy, cover),
    ;

    /// The span of the node where spans are not joined: that of its first
    /// token with a real location, or the fallback where it has none.
    fn span(&self) -> (cover: Span)
        ensures
            cover == first_or(located(spans_of(self.tokens())), self.fallback()),
    ;
}

impl Spanned for Node {
    open spec fn tokens(&self) -> Seq<TokenTree> {
        self@
    }

    closed spec fn fallback(&self) -> Span {
        self.call_site
    }

    fn span_with<F: Fn(Span, Span) -> Option<Span>>(&self, strategy: Strategy, join: F) -> (cover:
        Span) {
        cover_trees(&self.trees, self.call_site, strategy, join)
    }

    fn span(&self) -> (cover: Span) {
        let spans = real_spans(&self.trees);
        if spans.len() == 0 {
            self.call_site
        } else {
            spans[0]
        }
    }
}

} // verus!
