use proc_macro2::{Ident, Span, TokenStream, TokenTree};
use spanned::aggregate::{absorb_step, aggregate, cover_trees, join_spans, Strategy};
use spanned::filter::{ends_with, is_degenerate, real_spans};
use spanned::spanned::{Node, Spanned};
use std::cell::RefCell;
use std::str::FromStr;

/// Forgets the spans of earlier parses on this thread, so that the next
/// string parsed starts at offset 1.
fn fresh() {
    proc_macro2::extra::invalidate_current_thread_spans();
}

fn parse(source: &str) -> Vec<TokenTree> {
    TokenStream::from_str(source).unwrap().into_iter().collect()
}

fn stream(trees: &[TokenTree]) -> TokenStream {
    trees.iter().cloned().collect()
}

fn placeholder() -> TokenTree {
    TokenTree::from(Ident::new("made_up", Span::call_site()))
}

/// The join of `proc_macro2`.
fn joined(running: Span, next: Span) -> Option<Span> {
    running.join(next)
}

fn show(span: Span) -> String {
    format!("{:?}", span)
}

/// An identifier at (5,10) and a group at (10,15).
fn two_neighbours() -> (TokenTree, TokenTree) {
    fresh();
    let trees = parse("    abcde(abc)");
    assert_eq!(trees.len(), 2);
    assert_eq!(show(trees[0].span()), "bytes(5..10)");
    assert_eq!(show(trees[1].span()), "bytes(10..15)");
    (trees[0].clone(), trees[1].clone())
}

#[test]
fn empty_stream_gives_call_site() {
    fresh();
    assert_eq!(show(join_spans(TokenStream::new(), Strategy::Join, joined)), show(Span::call_site()));
    assert_eq!(show(join_spans(TokenStream::new(), Strategy::FirstOnly, joined)), show(Span::call_site()));
    assert_eq!(show(join_spans(TokenStream::new(), Strategy::Join, joined)), "bytes(0..0)");
}

#[test]
fn all_degenerate_gives_call_site() {
    fresh();
    let tokens = stream(&[placeholder(), placeholder(), placeholder()]);
    assert_eq!(show(join_spans(tokens.clone(), Strategy::Join, joined)), "bytes(0..0)");
    assert_eq!(show(join_spans(tokens, Strategy::FirstOnly, joined)), "bytes(0..0)");
}

#[test]
fn single_token_gives_its_span() {
    fresh();
    let trees = parse("  hello");
    assert_eq!(trees.len(), 1);
    assert_eq!(show(trees[0].span()), "bytes(3..8)");
    assert_eq!(show(join_spans(stream(&trees), Strategy::Join, joined)), "bytes(3..8)");
    assert_eq!(show(join_spans(stream(&trees), Strategy::FirstOnly, joined)), "bytes(3..8)");
}

#[test]
fn join_covers_from_first_to_last() {
    let (first, second) = two_neighbours();
    let tokens = stream(&[placeholder(), first, second]);
    assert_eq!(show(join_spans(tokens, Strategy::Join, joined)), "bytes(5..15)");
}

#[test]
fn first_only_keeps_first_real_span() {
    let (first, second) = two_neighbours();
    let tokens = stream(&[placeholder(), first, second]);
    assert_eq!(show(join_spans(tokens, Strategy::FirstOnly, joined)), "bytes(5..10)");
}

#[test]
fn repeated_calls_agree() {
    let (first, second) = two_neighbours();
    let tokens = stream(&[placeholder(), first, second]);
    for strategy in [Strategy::Join, Strategy::FirstOnly] {
        let once = show(join_spans(tokens.clone(), strategy, joined));
        let again = show(join_spans(tokens.clone(), strategy, joined));
        assert_eq!(once, again);
    }
}

#[test]
fn tokens_are_taken_in_order() {
    let (first, second) = two_neighbours();
    let forward = stream(&[first.clone(), second.clone()]);
    let backward = stream(&[second, first]);
    assert_eq!(show(join_spans(forward.clone(), Strategy::FirstOnly, joined)), "bytes(5..10)");
    assert_eq!(show(join_spans(backward.clone(), Strategy::FirstOnly, joined)), "bytes(10..15)");
    assert_eq!(show(join_spans(forward, Strategy::Join, joined)), "bytes(5..15)");
    assert_eq!(show(join_spans(backward, Strategy::Join, joined)), "bytes(5..15)");
}

#[test]
fn degenerate_token_between_real_ones_is_skipped() {
    let (first, second) = two_neighbours();
    let tokens = stream(&[first, placeholder(), second]);
    assert_eq!(show(join_spans(tokens.clone(), Strategy::Join, joined)), "bytes(5..15)");
    assert_eq!(show(join_spans(tokens, Strategy::FirstOnly, joined)), "bytes(5..10)");
}

#[test]
fn refused_join_is_passed_over() {
    fresh();
    let here = parse("aaa ccc");
    let elsewhere = parse("bbb");
    assert_eq!(show(here[0].span()), "bytes(1..4)");
    assert_eq!(show(here[1].span()), "bytes(5..8)");
    assert_eq!(show(elsewhere[0].span()), "bytes(9..12)");
    assert!(here[0].span().join(elsewhere[0].span()).is_none());

    let pair = stream(&[here[0].clone(), elsewhere[0].clone()]);
    assert_eq!(show(join_spans(pair, Strategy::Join, joined)), "bytes(1..4)");

    let around = stream(&[here[0].clone(), elsewhere[0].clone(), here[1].clone()]);
    assert_eq!(show(join_spans(around, Strategy::Join, joined)), "bytes(1..8)");

    let swapped = stream(&[elsewhere[0].clone(), here[0].clone(), here[1].clone()]);
    assert_eq!(show(join_spans(swapped, Strategy::Join, joined)), "bytes(9..12)");
}

#[test]
fn group_counts_as_one_token() {
    fresh();
    let trees = parse("f (a + b) g");
    assert_eq!(trees.len(), 3);
    assert_eq!(show(join_spans(stream(&trees[1..2]), Strategy::Join, joined)), "bytes(3..10)");
    assert_eq!(show(join_spans(stream(&trees), Strategy::Join, joined)), "bytes(1..12)");
    assert_eq!(show(join_spans(stream(&trees), Strategy::FirstOnly, joined)), "bytes(1..2)");
}

#[test]
fn ends_with_compares_suffix() {
    assert!(ends_with("bytes(0..0)", "bytes(0..0)"));
    assert!(ends_with("#0 bytes(0..0)", "bytes(0..0)"));
    assert!(!ends_with("bytes(10..0)", "bytes(0..0)"));
    assert!(!ends_with("bytes(0..0) ", "bytes(0..0)"));
    assert!(!ends_with("(0..0)", "bytes(0..0)"));
    assert!(ends_with("anything", ""));
    assert!(ends_with("", ""));
    assert!(!ends_with("", "a"));
    assert!(ends_with("na\u{ef}ve", "\u{ef}ve"));
    assert!(!ends_with("naive", "\u{ef}ve"));
}

#[test]
fn call_site_is_degenerate() {
    fresh();
    assert!(is_degenerate(&Span::call_site()));
    assert!(is_degenerate(&Span::mixed_site()));
    let trees = parse("x");
    assert!(!is_degenerate(&trees[0].span()));
}

#[test]
fn real_spans_keeps_order() {
    fresh();
    let parsed = parse("a bb ccc");
    let trees = vec![
        placeholder(),
        parsed[0].clone(),
        placeholder(),
        parsed[1].clone(),
        parsed[2].clone(),
        placeholder(),
    ];
    let spans: Vec<String> = real_spans(&trees).into_iter().map(show).collect();
    assert_eq!(spans, vec!["bytes(1..2)", "bytes(3..5)", "bytes(6..9)"]);
    assert_eq!(real_spans(&Vec::new()).len(), 0);
    assert_eq!(real_spans(&vec![placeholder()]).len(), 0);
}

#[test]
fn aggregate_folds_given_spans() {
    fresh();
    let parsed = parse("a bb ccc");
    let spans: Vec<Span> = parsed.iter().map(|tree| tree.span()).collect();
    let fallback = parsed[1].span();
    assert_eq!(show(aggregate(&Vec::new(), fallback, Strategy::Join, joined)), "bytes(3..5)");
    assert_eq!(show(aggregate(&Vec::new(), fallback, Strategy::FirstOnly, joined)), "bytes(3..5)");
    assert_eq!(show(aggregate(&spans, fallback, Strategy::Join, joined)), "bytes(1..9)");
    assert_eq!(show(aggregate(&spans, fallback, Strategy::FirstOnly, joined)), "bytes(1..2)");
    let tail: Vec<Span> = spans[1..].to_vec();
    assert_eq!(show(aggregate(&tail, fallback, Strategy::Join, joined)), "bytes(3..9)");
    let call_sites = vec![Span::call_site(), spans[2]];
    assert_eq!(show(aggregate(&call_sites, fallback, Strategy::FirstOnly, joined)), "bytes(0..0)");
}

#[test]
fn cover_trees_filters_then_folds() {
    let (first, second) = two_neighbours();
    let trees = vec![placeholder(), first, placeholder(), second, placeholder()];
    let fallback = trees[3].span();
    assert_eq!(show(cover_trees(&trees, fallback, Strategy::Join, joined)), "bytes(5..15)");
    assert_eq!(show(cover_trees(&trees, fallback, Strategy::FirstOnly, joined)), "bytes(5..10)");
    assert_eq!(show(cover_trees(&Vec::new(), fallback, Strategy::Join, joined)), "bytes(10..15)");
    assert_eq!(show(cover_trees(&Vec::new(), fallback, Strategy::FirstOnly, joined)), "bytes(10..15)");
    let made_up = vec![placeholder(), placeholder()];
    assert_eq!(show(cover_trees(&made_up, fallback, Strategy::Join, joined)), "bytes(10..15)");
    assert_eq!(show(cover_trees(&made_up, fallback, Strategy::FirstOnly, joined)), "bytes(10..15)");
}

#[test]
fn node_has_a_span() {
    let (first, second) = two_neighbours();
    let node = Node::new(stream(&[placeholder(), first, second]));
    assert_eq!(show(node.span()), "bytes(5..10)");
    assert_eq!(show(node.span_with(Strategy::FirstOnly, joined)), "bytes(5..10)");
    assert_eq!(show(node.span_with(Strategy::Join, joined)), "bytes(5..15)");
    assert_eq!(show(node.span_with(Strategy::Join, joined)), "bytes(5..15)");

    let empty = Node::new(TokenStream::new());
    assert_eq!(show(empty.span()), "bytes(0..0)");
    assert_eq!(show(empty.span_with(Strategy::Join, joined)), "bytes(0..0)");
}

#[test]
fn strategies_compare_by_variant() {
    assert_eq!(Strategy::Join, Strategy::Join);
    assert_ne!(Strategy::Join, Strategy::FirstOnly);
    let copy = Strategy::FirstOnly;
    assert_eq!(copy, Strategy::FirstOnly);
}

#[test]
fn absorb_step_keeps_or_replaces() {
    fresh();
    let parsed = parse("a bb");
    let running = parsed[0].span();
    let joined = parsed[1].span();
    assert_eq!(show(absorb_step(running, Some(joined))), "bytes(3..5)");
    assert_eq!(show(absorb_step(running, None)), "bytes(1..2)");
    assert_eq!(show(absorb_step(joined, Some(running))), "bytes(1..2)");
    assert_eq!(show(absorb_step(joined, None)), "bytes(3..5)");
}

#[test]
fn same_offsets_join_in_one_file_only() {
    fresh();
    let together = parse("aaa ccc");
    let spans: Vec<Span> = together.iter().map(|tree| tree.span()).collect();
    assert_eq!(show(spans[0]), "bytes(1..4)");
    assert_eq!(show(spans[1]), "bytes(5..8)");
    assert_eq!(show(aggregate(&spans, Span::call_site(), Strategy::Join, joined)), "bytes(1..8)");

    fresh();
    let left = parse("aaa");
    let right = parse("ccc");
    let apart = vec![left[0].span(), right[0].span()];
    assert_eq!(show(apart[0]), "bytes(1..4)");
    assert_eq!(show(apart[1]), "bytes(5..8)");
    assert_eq!(show(aggregate(&apart, Span::call_site(), Strategy::Join, joined)), "bytes(1..4)");
    assert_eq!(show(aggregate(&apart, Span::call_site(), Strategy::FirstOnly, joined)), "bytes(1..4)");
}

#[test]
fn join_gets_running_span_then_next() {
    fresh();
    let parsed = parse("a bb ccc");
    let trees = vec![
        placeholder(),
        parsed[0].clone(),
        placeholder(),
        parsed[1].clone(),
        placeholder(),
        parsed[2].clone(),
    ];
    let calls: RefCell<Vec<(String, String)>> = RefCell::new(Vec::new());
    let recording = |running: Span, next: Span| {
        calls.borrow_mut().push((show(running), show(next)));
        running.join(next)
    };
    let cover = cover_trees(&trees, Span::call_site(), Strategy::Join, recording);
    assert_eq!(show(cover), "bytes(1..9)");
    assert_eq!(
        *calls.borrow(),
        vec![
            ("bytes(1..2)".to_string(), "bytes(3..5)".to_string()),
            ("bytes(1..5)".to_string(), "bytes(6..9)".to_string()),
        ]
    );
}

#[test]
fn first_only_makes_no_join() {
    fresh();
    let parsed = parse("a bb ccc");
    let spans: Vec<Span> = parsed.iter().map(|tree| tree.span()).collect();
    let never = |_: Span, _: Span| -> Option<Span> { panic!("no join is made") };
    assert_eq!(show(aggregate(&spans, Span::call_site(), Strategy::FirstOnly, never)), "bytes(1..2)");
    let single = vec![spans[1]];
    assert_eq!(show(aggregate(&single, Span::call_site(), Strategy::Join, never)), "bytes(3..5)");
    assert_eq!(show(aggregate(&Vec::new(), spans[2], Strategy::Join, never)), "bytes(6..9)");
}

#[test]
fn every_join_refused_keeps_first_span() {
    fresh();
    let parsed = parse("a bb ccc");
    let spans: Vec<Span> = parsed.iter().map(|tree| tree.span()).collect();
    let refuse = |_: Span, _: Span| -> Option<Span> { None };
    assert_eq!(show(aggregate(&spans, Span::call_site(), Strategy::Join, refuse)), "bytes(1..2)");
}

#[test]
fn fold_goes_on_after_a_refused_join() {
    fresh();
    let parsed = parse("a bb ccc");
    let spans: Vec<Span> = parsed.iter().map(|tree| tree.span()).collect();
    let picky = |running: Span, next: Span| {
        if show(next) == "bytes(3..5)" {
            None
        } else {
            running.join(next)
        }
    };
    assert_eq!(show(aggregate(&spans, Span::call_site(), Strategy::Join, picky)), "bytes(1..9)");
    let calls: RefCell<Vec<(String, String)>> = RefCell::new(Vec::new());
    let recording = |running: Span, next: Span| {
        calls.borrow_mut().push((show(running), show(next)));
        picky(running, next)
    };
    aggregate(&spans, Span::call_site(), Strategy::Join, recording);
    assert_eq!(
        *calls.borrow(),
        vec![
            ("bytes(1..2)".to_string(), "bytes(3..5)".to_string()),
            ("bytes(1..2)".to_string(), "bytes(6..9)".to_string()),
        ]
    );
}

#[test]
fn join_of_the_callers_choosing_decides() {
    fresh();
    let parsed = parse("a bb ccc");
    let spans: Vec<Span> = parsed.iter().map(|tree| tree.span()).collect();
    let latest = |_: Span, next: Span| Some(next);
    assert_eq!(show(aggregate(&spans, Span::call_site(), Strategy::Join, latest)), "bytes(6..9)");
    assert_eq!(show(join_spans(stream(&parsed), Strategy::Join, latest)), "bytes(6..9)");
}

#[test]
fn node_from_trees_has_given_fallback() {
    fresh();
    let parsed = parse("a bb");
    let fallback = parsed[1].span();
    let empty = Node::from_trees(Vec::new(), fallback);
    assert_eq!(show(empty.span()), "bytes(3..5)");
    assert_eq!(show(empty.span_with(Strategy::Join, joined)), "bytes(3..5)");
    let made_up = Node::from_trees(vec![placeholder()], fallback);
    assert_eq!(show(made_up.span()), "bytes(3..5)");
    let node = Node::from_trees(parsed.clone(), Span::call_site());
    assert_eq!(show(node.span()), "bytes(1..2)");
    assert_eq!(show(node.span_with(Strategy::Join, joined)), "bytes(1..5)");
}
