//! What holds of the span of a node, proved from the contracts.
//!
//! Throughout, `join` is the function that the caller handed in and `cover`
//! a span that the contract of the fold admits for it. Where a statement
//! needs the join to be a function of its two spans, it says which one:
//! `model`.

use vstd::prelude::*;
use proc_macro2::{Span, TokenTree};
use crate::aggregate::{
    absorbed,
    first_or,
    fold_outcomes,
    is_cover,
    is_span_of,
    joins_made,
    Strategy,
};
use crate::filter::{degenerate, located, spans_of};
use crate::tokens::tree_span;

verus! {

/// A node that lowers to no token at all has the fallback span, under either
/// strategy.
pub proof fn lemma_empty_node<F: Fn(Span, Span) -> Option<Span>>(
    join: F,
    trees: Seq<TokenTree>,
    fallback: Span,
    strategy: Strategy,
    cover: Span,
)
    requires
        trees.len() == 0,
        is_span_of(join, trees, fallback, strategy, cover),
    ensures
        cover == fallback,
{
    assert(located(spans_of(trees)).len() == 0) by {
        reveal(Seq::filter);
    }
}

/// Spans that are all degenerate leave nothing behind in the filter.
proof fn lemma_none_located(spans: Seq<Span>)
    requires
        forall|i: int| 0 <= i < spans.len() ==> degenerate(#[trigger] spans[i]),
    ensures
        located(spans).len() == 0,
    decreases spans.len(),
{
    reveal(Seq::filter);
    if spans.len() > 0 {
        lemma_none_located(spans.drop_last());
    }
}

/// A node whose tokens all have a degenerate span has the fallback span,
/// under either strategy.
pub proof fn lemma_all_degenerate<F: Fn(Span, Span) -> Option<Span>>(
    join: F,
    trees: Seq<TokenTree>,
    fallback: Span,
    strategy: Strategy,
    cover: Span,
)
    requires
        forall|i: int| 0 <= i < trees.len() ==> degenerate(tree_span(#[trigger] trees[i])),
        is_span_of(join, trees, fallback, strategy, cover),
    ensures
        cover == fallback,
{
    lemma_none_located(spans_of(trees));
}

/// A single span is covered by itself, under either strategy: no join is
/// made.
pub proof fn lemma_single_span<F: Fn(Span, Span) -> Option<Span>>(
    join: F,
    span: Span,
    fallback: Span,
    strategy: Strategy,
    cover: Span,
)
    requires
        is_cover(join, seq![span], fallback, strategy, cover),
    ensures
        cover == span,
{
    if strategy == Strategy::Join {
        let outcomes = choose|outcomes: Seq<Option<Span>>|
            joins_made(join, seq![span], outcomes) && cover == #[trigger] fold_outcomes(
                span,
                outcomes,
            );
        assert(fold_outcomes(span, outcomes) == span);
    }
}

/// A node that lowers to one token, whose span is not degenerate, has that
/// token's span, under either strategy.
pub proof fn lemma_single_token<F: Fn(Span, Span) -> Option<Span>>(
    join: F,
    trees: Seq<TokenTree>,
    fallback: Span,
    strategy: Strategy,
    cover: Span,
)
    requires
        trees.len() == 1,
        !degenerate(tree_span(trees[0])),
        is_span_of(join, trees, fallback, strategy, cover),
    ensures
        cover == tree_span(trees[0]),
{
    let span = tree_span(trees[0]);
    let keep = |span: Span| !degenerate(span);
    assert(spans_of(trees) =~= Seq::<Span>::empty().push(span));
    Seq::<Span>::empty().lemma_filter_push(span, keep);
    assert(Seq::<Span>::empty().filter(keep) =~= Seq::<Span>::empty()) by {
        reveal(Seq::filter);
    }
    assert(located(spans_of(trees)) =~= seq![span]);
    lemma_single_span(join, span, fallback, strategy, cover);
}

/// Under `Strategy::FirstOnly` the span of a node is that of its first token
/// with a real location, whatever the join is: the later spans are ignored.
pub proof fn lemma_first_only<F: Fn(Span, Span) -> Option<Span>>(
    join: F,
    trees: Seq<TokenTree>,
    fallback: Span,
    cover: Span,
)
    requires
        is_span_of(join, trees, fallback, Strategy::FirstOnly, cover),
    ensures
        cover == first_or(located(spans_of(trees)), fallback),
{
}

/// A token with a degenerate span changes nothing, wherever it stands among
/// the others: it is not among the spans that are handed to the join, the
/// spans on either side of it are joined as if they were neighbours, and the
/// node has the same spans with the token as without.
pub proof fn lemma_degenerate_token_ignored<F: Fn(Span, Span) -> Option<Span>>(
    join: F,
    trees: Seq<TokenTree>,
    at: int,
    tree: TokenTree,
    fallback: Span,
    strategy: Strategy,
    cover: Span,
)
    requires
        0 <= at <= trees.len(),
        degenerate(tree_span(tree)),
    ensures
        located(spans_of(trees.insert(at, tree))) == located(spans_of(trees)),
        is_span_of(join, trees.insert(at, tree), fallback, strategy, cover) == is_span_of(
            join,
            trees,
            fallback,
            strategy,
            cover,
        ),
{
    let keep = |span: Span| !degenerate(span);
    let front = spans_of(trees.subrange(0, at));
    let back = spans_of(trees.subrange(at, trees.len() as int));
    assert(spans_of(trees.insert(at, tree)) =~= front.push(tree_span(tree)) + back);
    assert(spans_of(trees) =~= front + back);
    Seq::filter_distributes_over_add(front.push(tree_span(tree)), back, keep);
    Seq::filter_distributes_over_add(front, back, keep);
    front.lemma_filter_push(tree_span(tree), keep);
}

/// The join is a function of its two spans: whatever `join` gives for two
/// spans is what `model` says of them.
pub open spec fn joins_as<F: Fn(Span, Span) -> Option<Span>>(
    join: F,
    model: spec_fn(Span, Span) -> Option<Span>,
) -> bool {
    forall|a: Span, b: Span, outcome: Option<Span>| #[trigger]
        call_ensures(join, (a, b), outcome) ==> outcome == model(a, b)
}

/// The fold's step where the join of two spans is what `model` gives.
pub open spec fn step_with(
    model: spec_fn(Span, Span) -> Option<Span>,
    running: Span,
    next: Span,
) -> Span {
    absorbed(running, model(running, next))
}

/// The running span after `rest` has been taken in front to back, starting
/// from `first`, where the join of two spans is what `model` gives.
pub open spec fn fold_with(
    model: spec_fn(Span, Span) -> Option<Span>,
    first: Span,
    rest: Seq<Span>,
) -> Span {
    rest.fold_left(first, |running: Span, next: Span| step_with(model, running, next))
}

/// The span that covers `spans` under `Strategy::Join` where the join of two
/// spans is what `model` gives, or `fallback` where there is no span.
pub open spec fn cover_with(
    model: spec_fn(Span, Span) -> Option<Span>,
    spans: Seq<Span>,
    fallback: Span,
) -> Span {
    if spans.len() == 0 {
        fallback
    } else {
        fold_with(model, spans[0], spans.skip(1))
    }
}

/// Where the join is a function, the outcomes of the joins that the fold
/// made are those of the left fold with that function.
proof fn lemma_outcomes_follow<F: Fn(Span, Span) -> Option<Span>>(
    join: F,
    model: spec_fn(Span, Span) -> Option<Span>,
    spans: Seq<Span>,
    outcomes: Seq<Option<Span>>,
    k: int,
)
    requires
        joins_as(join, model),
        spans.len() > 0,
        joins_made(join, spans, outcomes),
        0 <= k <= outcomes.len(),
    ensures
        fold_outcomes(spans[0], outcomes.take(k)) == fold_with(
            model,
            spans[0],
            spans.skip(1).take(k),
        ),
    decreases k,
{
    if k > 0 {
        lemma_outcomes_follow(join, model, spans, outcomes, k - 1);
        let before = fold_outcomes(spans[0], outcomes.take(k - 1));
        assert(call_ensures(join, (before, spans[k - 1 + 1]), outcomes[k - 1]));
        assert(outcomes[k - 1] == model(before, spans[k]));
        assert(outcomes.take(k).drop_last() =~= outcomes.take(k - 1));
        assert(outcomes.take(k).last() == outcomes[k - 1]);
        assert(spans.skip(1).take(k).drop_last() =~= spans.skip(1).take(k - 1));
        assert(spans.skip(1).take(k).last() == spans[k]);
    } else {
        assert(outcomes.take(0) =~= Seq::<Option<Span>>::empty());
        assert(spans.skip(1).take(0) =~= Seq::<Span>::empty());
    }
}

/// Where the join is a function of its two spans, the result under
/// `Strategy::Join` is the left fold of the spans in the order in which they
/// stand, the running span as first argument of the join and the next span
/// as second. The spans are never reordered.
pub proof fn lemma_cover_determined<F: Fn(Span, Span) -> Option<Span>>(
    join: F,
    model: spec_fn(Span, Span) -> Option<Span>,
    spans: Seq<Span>,
    fallback: Span,
    cover: Span,
)
    requires
        joins_as(join, model),
        is_cover(join, spans, fallback, Strategy::Join, cover),
    ensures
        cover == cover_with(model, spans, fallback),
{
    if spans.len() > 0 {
        let outcomes = choose|outcomes: Seq<Option<Span>>|
            joins_made(join, spans, outcomes) && cover == #[trigger] fold_outcomes(
                spans[0],
                outcomes,
            );
        lemma_outcomes_follow(join, model, spans, outcomes, outcomes.len() as int);
        assert(outcomes.take(outcomes.len() as int) =~= outcomes);
        assert(spans.skip(1).take(outcomes.len() as int) =~= spans.skip(1));
    }
}

/// The span of a node depends on the node only through the spans of its
/// tokens, in their order: two nodes whose tokens carry the same spans have
/// the same span, and asking the same node again gives the same span. Under
/// `Strategy::Join` this needs the join to be a function of its two spans.
pub proof fn lemma_spans_decide<F: Fn(Span, Span) -> Option<Span>>(
    join: F,
    model: spec_fn(Span, Span) -> Option<Span>,
    trees: Seq<TokenTree>,
    others: Seq<TokenTree>,
    fallback: Span,
    strategy: Strategy,
    once: Span,
    again: Span,
)
    requires
        strategy == Strategy::Join ==> joins_as(join, model),
        spans_of(trees) == spans_of(others),
        is_span_of(join, trees, fallback, strategy, once),
        is_span_of(join, others, fallback, strategy, again),
    ensures
        once == again,
{
    if strategy == Strategy::Join {
        lemma_cover_determined(join, model, located(spans_of(trees)), fallback, once);
        lemma_cover_determined(join, model, located(spans_of(others)), fallback, again);
    }
}

/// The fold goes on span by span: the cover of the spans with one more span
/// behind them is one step from the cover of the spans, whether the join of
/// the two was refused or not.
pub proof fn lemma_next_span<F: Fn(Span, Span) -> Option<Span>>(
    join: F,
    model: spec_fn(Span, Span) -> Option<Span>,
    spans: Seq<Span>,
    next: Span,
    fallback: Span,
    before: Span,
    cover: Span,
)
    requires
        joins_as(join, model),
        spans.len() > 0,
        is_cover(join, spans, fallback, Strategy::Join, before),
        is_cover(join, spans.push(next), fallback, Strategy::Join, cover),
    ensures
        cover == absorbed(before, model(before, next)),
{
    lemma_cover_determined(join, model, spans, fallback, before);
    lemma_cover_determined(join, model, spans.push(next), fallback, cover);
    let longer = spans.push(next);
    assert(longer.skip(1).drop_last() =~= spans.skip(1));
    assert(longer.skip(1).last() == next);
}

/// Where the join refuses every later span to the first one, the result is
/// the first span: not the fallback, and not the last span.
pub proof fn lemma_all_refused<F: Fn(Span, Span) -> Option<Span>>(
    join: F,
    model: spec_fn(Span, Span) -> Option<Span>,
    spans: Seq<Span>,
    fallback: Span,
    cover: Span,
)
    requires
        joins_as(join, model),
        spans.len() > 0,
        forall|i: int| 1 <= i < spans.len() ==> model(spans[0], #[trigger] spans[i]) is None,
        is_cover(join, spans, fallback, Strategy::Join, cover),
    ensures
        cover == spans[0],
{
    lemma_cover_determined(join, model, spans, fallback, cover);
    lemma_fold_refused(model, spans[0], spans.skip(1));
}

/// Taking in spans that are all refused leaves the first span.
proof fn lemma_fold_refused(
    model: spec_fn(Span, Span) -> Option<Span>,
    first: Span,
    rest: Seq<Span>,
)
    requires
        forall|i: int| 0 <= i < rest.len() ==> model(first, #[trigger] rest[i]) is None,
    ensures
        fold_with(model, first, rest) == first,
    decreases rest.len(),
{
    if rest.len() > 0 {
        lemma_fold_refused(model, first, rest.drop_last());
        assert(model(first, rest.last()) is None);
    }
}

/// The fold's step, taken on two spans of `family`, gives a span of `family`
/// again.
pub open spec fn stays_within(
    model: spec_fn(Span, Span) -> Option<Span>,
    family: spec_fn(Span) -> bool,
) -> bool {
    forall|a: Span, b: Span| family(a) && family(b) ==> family(#[trigger] step_with(model, a, b))
}

/// On the spans of `family` the fold's step gives the same span whichever of
/// the two comes first. A join that is refused between two different spans
/// breaks this: the step then keeps whichever span it had.
pub open spec fn commutes_within(
    model: spec_fn(Span, Span) -> Option<Span>,
    family: spec_fn(Span) -> bool,
) -> bool {
    forall|a: Span, b: Span|
        family(a) && family(b) ==> #[trigger] step_with(model, a, b) == step_with(model, b, a)
}

/// On the spans of `family`, taking in two spans one after the other gives
/// the same as taking in what the two give together.
pub open spec fn associates_within(
    model: spec_fn(Span, Span) -> Option<Span>,
    family: spec_fn(Span) -> bool,
) -> bool {
    forall|a: Span, b: Span, c: Span|
        family(a) && family(b) && family(c) ==> #[trigger] step_with(
            model,
            step_with(model, a, b),
            c,
        ) == step_with(model, a, step_with(model, b, c))
}

/// Every span of the sequence belongs to `family`.
pub open spec fn all_within(spans: Seq<Span>, family: spec_fn(Span) -> bool) -> bool {
    forall|i: int| 0 <= i < spans.len() ==> family(#[trigger] spans[i])
}

/// Two spans are covered by one step of the fold, taken in the order in
/// which they stand: turning the pair round changes the result exactly when
/// the step does not commute on it. Where the join is refused, the span that
/// stands first is the result.
pub proof fn lemma_pair_in_order<F: Fn(Span, Span) -> Option<Span>>(
    join: F,
    model: spec_fn(Span, Span) -> Option<Span>,
    first: Span,
    second: Span,
    fallback: Span,
    cover: Span,
)
    requires
        joins_as(join, model),
        is_cover(join, seq![first, second], fallback, Strategy::Join, cover),
    ensures
        cover == step_with(model, first, second),
        model(first, second) is None ==> cover == first,
{
    lemma_cover_determined(join, model, seq![first, second], fallback, cover);
    lemma_one_step(model, first, second);
}

/// Taking in a single span is one step.
proof fn lemma_one_step(model: spec_fn(Span, Span) -> Option<Span>, first: Span, second: Span)
    ensures
        fold_with(model, seq![first, second][0], seq![first, second].skip(1)) == step_with(
            model,
            first,
            second,
        ),
{
    let rest = seq![first, second].skip(1);
    assert(rest.drop_last() =~= Seq::<Span>::empty());
    assert(rest.last() == second);
    assert(fold_with(model, first, rest.drop_last()) == first);
}

/// Taking in spans of a family that the step stays within gives a span of
/// the family.
proof fn lemma_fold_within(
    model: spec_fn(Span, Span) -> Option<Span>,
    family: spec_fn(Span) -> bool,
    first: Span,
    rest: Seq<Span>,
)
    requires
        stays_within(model, family),
        family(first),
        all_within(rest, family),
    ensures
        family(fold_with(model, first, rest)),
    decreases rest.len(),
{
    if rest.len() > 0 {
        lemma_fold_within(model, family, first, rest.drop_last());
        assert(family(rest.last()));
    }
}

/// Where the step associates, taking `rest` in after `first` gives what one
/// step gives from `first` and the cover of `rest`.
proof fn lemma_fold_front(
    model: spec_fn(Span, Span) -> Option<Span>,
    family: spec_fn(Span) -> bool,
    first: Span,
    rest: Seq<Span>,
)
    requires
        stays_within(model, family),
        associates_within(model, family),
        family(first),
        all_within(rest, family),
        rest.len() > 0,
    ensures
        fold_with(model, first, rest) == step_with(
            model,
            first,
            fold_with(model, rest[0], rest.skip(1)),
        ),
    decreases rest.len(),
{
    let init = rest.drop_last();
    if rest.len() == 1 {
        assert(fold_with(model, first, init) == first);
        assert(rest.skip(1) =~= Seq::<Span>::empty());
    } else {
        lemma_fold_front(model, family, first, init);
        assert(family(init[0]));
        assert(family(rest.last()));
        lemma_fold_within(model, family, init[0], init.skip(1));
        assert(rest.skip(1).drop_last() =~= init.skip(1));
        assert(rest.skip(1).last() == rest.last());
        assert(fold_with(model, first, rest) == step_with(
            model,
            fold_with(model, first, init),
            rest.last(),
        ));
        assert(fold_with(model, rest[0], rest.skip(1)) == step_with(
            model,
            fold_with(model, init[0], init.skip(1)),
            rest.last(),
        ));
    }
}

/// Where the fold's step commutes and associates on a family of spans that
/// it stays within, spans of that family can be covered back to front: the
/// order in which they stand decides the result only through a step that
/// does not commute or associate.
proof fn lemma_reversed_spans(
    model: spec_fn(Span, Span) -> Option<Span>,
    family: spec_fn(Span) -> bool,
    spans: Seq<Span>,
    fallback: Span,
)
    requires
        stays_within(model, family),
        commutes_within(model, family),
        associates_within(model, family),
        all_within(spans, family),
    ensures
        cover_with(model, spans.reverse(), fallback) == cover_with(model, spans, fallback),
    decreases spans.len(),
{
    if spans.len() <= 1 {
        assert(spans.reverse() =~= spans);
    } else {
        let init = spans.drop_last();
        let last = spans.last();
        let turned = spans.reverse();
        lemma_reversed_spans(model, family, init, fallback);
        assert(turned[0] == last);
        assert(turned.skip(1) =~= init.reverse());
        assert(init.reverse().len() == init.len());
        assert(family(last));
        assert(family(init[0]));
        assert(all_within(init.reverse(), family)) by {
            assert forall|i: int| 0 <= i < init.reverse().len() implies family(
                #[trigger] init.reverse()[i],
            ) by {
                assert(init.reverse()[i] == spans[init.len() - 1 - i]);
            }
        }
        lemma_fold_front(model, family, last, init.reverse());
        lemma_fold_within(model, family, init[0], init.skip(1));
        assert(spans.skip(1).drop_last() =~= init.skip(1));
        assert(spans.skip(1).last() == last);
        assert(fold_with(model, spans[0], spans.skip(1)) == step_with(
            model,
            fold_with(model, init[0], init.skip(1)),
            last,
        ));
    }
}

/// What the filter leaves of spans whose real ones belong to a family
/// belongs to it.
proof fn lemma_located_within(family: spec_fn(Span) -> bool, spans: Seq<Span>)
    requires
        forall|i: int|
            0 <= i < spans.len() && !degenerate(#[trigger] spans[i]) ==> family(spans[i]),
    ensures
        all_within(located(spans), family),
    decreases spans.len(),
{
    reveal(Seq::filter);
    if spans.len() > 0 {
        lemma_located_within(family, spans.drop_last());
        assert(!degenerate(spans.last()) ==> family(spans.last()));
    }
}

/// Filtering a reversed sequence gives the reverse of the filtered one.
proof fn lemma_located_reverse(spans: Seq<Span>)
    ensures
        located(spans.reverse()) == located(spans).reverse(),
    decreases spans.len(),
{
    let keep = |span: Span| !degenerate(span);
    if spans.len() == 0 {
        assert(spans.reverse() =~= spans);
        assert(located(spans) =~= Seq::<Span>::empty()) by {
            reveal(Seq::filter);
        }
        assert(located(spans).reverse() =~= Seq::<Span>::empty());
    } else {
        let init = spans.drop_last();
        let last = spans.last();
        let single = Seq::<Span>::empty().push(last);
        lemma_located_reverse(init);
        assert(spans.reverse() =~= single + init.reverse());
        Seq::filter_distributes_over_add(single, init.reverse(), keep);
        assert(Seq::<Span>::empty().filter(keep) =~= Seq::<Span>::empty()) by {
            reveal(Seq::filter);
        }
        Seq::<Span>::empty().lemma_filter_push(last, keep);
        assert(spans =~= init.push(last));
        init.lemma_filter_push(last, keep);
        if keep(last) {
            assert(located(init).push(last).reverse() =~= single + located(init).reverse());
        } else {
            assert(Seq::<Span>::empty() + located(init).reverse() =~= located(init).reverse());
        }
    }
}

/// Reversing the tokens of a node leaves its span under `Strategy::Join` as
/// it was, provided the join is a function and the real spans of the tokens
/// belong to a family on which the fold's step commutes and associates (spans
/// that can all be joined, say). Without that the order counts: the fold
/// takes the tokens strictly as they stand.
pub proof fn lemma_reversed_tokens<F: Fn(Span, Span) -> Option<Span>>(
    join: F,
    model: spec_fn(Span, Span) -> Option<Span>,
    family: spec_fn(Span) -> bool,
    trees: Seq<TokenTree>,
    fallback: Span,
    cover: Span,
    turned: Span,
)
    requires
        joins_as(join, model),
        stays_within(model, family),
        commutes_within(model, family),
        associates_within(model, family),
        forall|i: int|
            0 <= i < trees.len() && !degenerate(tree_span(#[trigger] trees[i])) ==> family(
                tree_span(trees[i]),
            ),
        is_span_of(join, trees, fallback, Strategy::Join, cover),
        is_span_of(join, trees.reverse(), fallback, Strategy::Join, turned),
    ensures
        cover == turned,
{
    assert(spans_of(trees.reverse()) =~= spans_of(trees).reverse());
    lemma_located_reverse(spans_of(trees));
    lemma_located_within(family, spans_of(trees));
    lemma_reversed_spans(model, family, located(spans_of(trees)), fallback);
    lemma_cover_determined(join, model, located(spans_of(trees)), fallback, cover);
    lemma_cover_determined(join, model, located(spans_of(trees.reverse())), fallback, turned);
}

} // verus!
