//! The fold that turns the spans of a node's tokens into one span.
//!
//! Whether two spans can be joined is not for this crate to say: the join
//! comes in as a function from the caller, who hands in `Span::join` or a join
//! of their own. The contracts name every call that the fold makes of it,
//! running span first, next span second, in the order of the spans, and say
//! that the result is what the fold's step made of the outcomes.

use vstd::prelude::*;
use proc_macro2::{Span, TokenStream, TokenTree};
use crate::filter::{located, real_spans, spans_of};
use crate::tokens::{call_site, stream_trees, token_trees};

verus! {

/// How the spans that follow the first one are treated.
#[derive(Clone, Copy, Debug, PartialEq, Eq, Structural)]
pub enum Strategy {
    /// Every later span is joined onto the running span where the two can be
    /// joined.
    Join,
    /// Only the first span counts; the later ones are ignored.
    FirstOnly,
}

/// One step of the fold: the joined span where the join gave one, else the
/// running span as it was.
pub open spec fn absorbed(running: Span, outcome: Option<Span>) -> Span {
    match outcome {
        Some(joined) => joined,
        None => running,
    }
}

/// The running span after the joins came out as `outcomes`, one after the
/// other, starting from `first`.
pub open spec fn fold_outcomes(first: Span, outcomes: Seq<Option<Span>>) -> Span {
    outcomes.fold_left(first, |running: Span, outcome: Option<Span>| absorbed(running, outcome))
}

/// `outcomes` are what `join` gave in the fold over `spans`: one outcome for
/// each span after the first, each from a call of `join` on the running span
/// at that point and the next span.
pub open spec fn joins_made<F: Fn(Span, Span) -> Option<Span>>(
    join: F,
    spans: Seq<Span>,
    outcomes: Seq<Option<Span>>,
) -> bool {
    outcomes.len() == spans.len() - 1 && forall|i: int|
        0 <= i < outcomes.len() ==> call_ensures(
            join,
            (fold_outcomes(spans[0], outcomes.take(i)), spans[i + 1]),
            #[trigger] outcomes[i],
        )
}

/// `cover` is what the fold with `join` gives for `spans`, of which there is
/// at least one.
pub open spec fn is_joined<F: Fn(Span, Span) -> Option<Span>>(
    join: F,
    spans: Seq<Span>,
    cover: Span,
) -> bool
    recommends
        spans.len() > 0,
{
    exists|outcomes: Seq<Option<Span>>|
        joins_made(join, spans, outcomes) && cover == #[trigger] fold_outcomes(spans[0], outcomes)
}

/// `cover` is the span that covers `spans`: `fallback` where there is none,
/// the first span under `Strategy::FirstOnly`, and under `Strategy::Join`
/// what the fold with `join` gives.
pub open spec fn is_cover<F: Fn(Span, Span) -> Option<Span>>(
    join: F,
    spans: Seq<Span>,
    fallback: Span,
    strategy: Strategy,
    cover: Span,
) -> bool {
    if spans.len() == 0 {
        cover == fallback
    } else {
        match strategy {
            Strategy::FirstOnly => cover == spans[0],
            Strategy::Join => is_joined(join, spans, cover),
        }
    }
}

/// `cover` is the span of a node that lowers to `trees`: it covers the spans
/// of the tokens that are left once the degenerate ones are taken out.
pub open spec fn is_span_of<F: Fn(Span, Span) -> Option<Span>>(
    join: F,
    trees: Seq<TokenTree>,
    fallback: Span,
    strategy: Strategy,
    cover: Span,
) -> bool {
    is_cover(join, located(spans_of(trees)), fallback, strategy, cover)
}

/// The first of the spans, or `fallback` where there is none.
pub open spec fn first_or(spans: Seq<Span>, fallback: Span) -> Span {
    if spans.len() == 0 {
        fallback
    } else {
        spans[0]
    }
}

/// Takes one step of the fold with what a join gave: a refused join leaves
/// the running span as it was.
pub fn absorb_step(running: Span, outcome: Option<Span>) -> (next: Span)
    ensures
        next == absorbed(running, outcome),
{
    match outcome {
        Some(joined) => joined,
        None => running,
    }
}

/// Folds spans that have been filtered already into the one span that covers
/// them. Under `Strategy::Join` each later span is handed to `join` together
/// with the running span; a join that is refused is passed over, and the fold
/// goes on with what it had. Under `Strategy::FirstOnly` `join` is not called.
pub fn aggregate<F: Fn(Span, Span) -> Option<Span>>(
    spans: &Vec<Span>,
    fallback: Span,
    strategy: Strategy,
    join: F,
) -> (cover: Span)
    requires
        forall|a: Span, b: Span| call_requires(join, (a, b)),
    ensures
        is_cover(join, spans@, fallback, strategy, cover),
{
    let n: usize = spans.len();
    if n == 0 {
        return fallback;
    }
    let mut running: Span = spans[0];
    let ghost mut outcomes: Seq<Option<Span>> = Seq::empty();
    match strategy {
        Strategy::FirstOnly => {},
        Strategy::Join => {
            let mut i: usize = 1;
            while i < n
                invariant
                    n == spans@.len(),
                    1 <= i <= n,
                    outcomes.len() == i - 1,
                    forall|a: Span, b: Span| call_requires(join, (a, b)),
                    forall|k: int|
                        0 <= k < outcomes.len() ==> call_ensures(
                            join,
                            (fold_outcomes(spans@[0], outcomes.take(k)), spans@[k + 1]),
                            #[trigger] outcomes[k],
                        ),
                    running == fold_outcomes(spans@[0], outcomes),
                decreases n - i,
            {
                let outcome = join(running, spans[i]);
                proof {
                    let longer = outcomes.push(outcome);
                    assert(longer.drop_last() =~= outcomes);
                    assert(longer.take(outcomes.len() as int) =~= outcomes);
                    assert forall|k: int| 0 <= k < longer.len() implies call_ensures(
                        join,
                        (fold_outcomes(spans@[0], longer.take(k)), spans@[k + 1]),
                        #[trigger] longer[k],
                    ) by {
                        if k < outcomes.len() {
                            assert(longer.take(k) =~= outcomes.take(k));
                            assert(longer[k] == outcomes[k]);
                        }
                    }
                    outcomes = longer;
                }
                running = absorb_step(running, outcome);
                i = i + 1;
            }
            assert(joins_made(join, spans@, outcomes));
        },
    }
    running
}

/// The span of a node that lowers to the given token trees. Trees with a
/// degenerate span are left out first, so none of them is handed to `join`;
/// where none is left the result is `fallback`.
pub fn cover_trees<F: Fn(Span, Span) -> Option<Span>>(
    trees: &Vec<TokenTree>,
    fallback: Span,
    strategy: Strategy,
    join: F,
) -> (cover: Span)
    requires
        forall|a: Span, b: Span| call_requires(join, (a, b)),
    ensures
        is_span_of(join, trees@, fallback, strategy, cover),
{
    let spans = real_spans(trees);
    aggregate(&spans, fallback, strategy, join)
}

/// The span that covers every token of the stream, in the order in which the
/// stream yields them. Where no token has a real location the result is the
/// call site, a span that only the caller's surroundings decide.
pub fn join_spans<F: Fn(Span, Span) -> Option<Span>>(
    tokens: TokenStream,
    strategy: Strategy,
    join: F,
) -> (cover: Span)
    requires
        forall|a: Span, b: Span| call_requires(join, (a, b)),
    ensures
        located(spans_of(stream_trees(tokens))).len() > 0 ==> forall|fallback: Span| #[trigger]
            is_span_of(join, stream_trees(tokens), fallback, strategy, cover),
{
    let trees = token_trees(tokens);
    let fallback = call_site();
    cover_trees(&trees, fallback, strategy, join)
}

} // verus!
