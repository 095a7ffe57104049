//! The filter that drops placeholder spans.
//!
//! A token that was synthesised rather than read from source carries a span
//! with no location. Such a span is recognised by the text that it prints
//! under `Debug`: it ends in the empty byte range.

use vstd::prelude::*;
use vstd::string::*;
use proc_macro2::{Span, TokenTree};
use crate::tokens::{debug_text, span_debug, span_of_tree, tree_span};

verus! {

/// The text that ends the `Debug` output of a placeholder span.
pub open spec fn empty_range() -> Seq<char> {
    seq!['b', 'y', 't', 'e', 's', '(', '0', '.', '.', '0', ')']
}

/// A span is degenerate when its `Debug` text ends in the empty byte range.
pub open spec fn degenerate(span: Span) -> bool {
    empty_range().is_suffix_of(span_debug(span))
}

/// The spans of the given token trees, one per tree, in order.
pub open spec fn spans_of(trees: Seq<TokenTree>) -> Seq<Span> {
    trees.map_values(|tree: TokenTree| tree_span(tree))
}

/// The spans that are left when the degenerate ones are taken out; the rest
/// keep their order.
pub open spec fn located(spans: Seq<Span>) -> Seq<Span> {
    spans.filter(|span: Span| !degenerate(span))
}

/// Whether `text` ends with `suffix`, compared character by character.
pub fn ends_with(text: &str, suffix: &str) -> (found: bool)
    ensures
        found == suffix@.is_suffix_of(text@),
{
    let n: usize = text.unicode_len();
    let m: usize = suffix.unicode_len();
    if m > n {
        return false;
    }
    let start: usize = n - m;
    let mut i: usize = 0;
    while i < m
        invariant
            n == text@.len(),
            m == suffix@.len(),
            m <= n,
            start == n - m,
            i <= m,
            forall|j: int| 0 <= j < i ==> suffix@[j] == text@[start + j],
        decreases m - i,
    {
        if suffix.get_char(i) != text.get_char(start + i) {
            assert(text@.subrange(start as int, n as int)[i as int] != suffix@[i as int]);
            return false;
        }
        i = i + 1;
    }
    assert(suffix@ =~= text@.subrange(start as int, n as int));
    true
}

/// Tells whether a span is a placeholder with no real location.
pub fn is_degenerate(span: &Span) -> (found: bool)
    ensures
        found == degenerate(*span),
{
    let text = debug_text(span);
    proof {
        reveal_strlit("bytes(0..0)");
        assert("bytes(0..0)"@ =~= empty_range());
    }
    ends_with(text.as_str(), "bytes(0..0)")
}

/// Collects the spans of the token trees, leaving out the degenerate ones.
pub fn real_spans(trees: &Vec<TokenTree>) -> (spans: Vec<Span>)
    ensures
        spans@ == located(spans_of(trees@)),
{
    let mut spans: Vec<Span> = Vec::new();
    let n: usize = trees.len();
    let mut i: usize = 0;
    while i < n
        invariant
            n == trees@.len(),
            i <= n,
            spans@ == located(spans_of(trees@.take(i as int))),
        decreases n - i,
    {
        let span = span_of_tree(&trees[i]);
        let keep = !is_degenerate(&span);
        proof {
            let pred = |span: Span| !degenerate(span);
            let before = spans_of(trees@.take(i as int));
            assert(spans_of(trees@.take(i + 1)) =~= before.push(span));
            before.lemma_filter_push(span, pred);
        }
        if keep {
            spans.push(span);
        }
        i = i + 1;
    }
    assert(trees@.take(n as int) =~= trees@);
    spans
}

} // verus!
