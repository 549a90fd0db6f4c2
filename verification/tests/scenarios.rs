//! End-to-end scenarios over the reference grammar: a file of
//! whitespace, punctuation, words and numbers.

use incparse::document::Document;
use incparse::rules::check_language;
use incparse::rules::CharRange;
use incparse::rules::Language;
use incparse::rules::Rule;
use incparse::rules::Step;

fn r(lo: char, hi: char) -> CharRange {
    CharRange { lo, hi }
}

/// Rule 0 is a file automaton looping over the four token rules:
/// 1 whitespace, 2 punctuation, 3 word, 4 number.
fn scenario_language() -> Language {
    let file = Rule::Automata(vec![Step(vec![(1, 0), (2, 0), (3, 0), (4, 0)], true)]);
    let ws = Rule::Symbol(vec![
        Step(vec![(r('\t', ' '), 1)], false),
        Step(vec![(r('\t', ' '), 1)], true),
    ]);
    let punct = Rule::Symbol(vec![
        Step(vec![(r('!', '/'), 1), (r(':', '@'), 1)], false),
        Step(vec![], true),
    ]);
    let word = Rule::Symbol(vec![
        Step(
            vec![(r('a', 'z'), 1), (r('A', 'Z'), 1), (r('_', '_'), 1), (r('\'', '\''), 1)],
            false,
        ),
        Step(
            vec![
                (r('a', 'z'), 1),
                (r('A', 'Z'), 1),
                (r('0', '9'), 1),
                (r('_', '_'), 1),
                (r('\'', '\''), 1),
            ],
            true,
        ),
    ]);
    let number = Rule::Symbol(vec![
        Step(vec![(r('0', '9'), 1)], false),
        Step(vec![(r('0', '9'), 1), (r('.', '.'), 2)], true),
        Step(vec![(r('0', '9'), 2)], true),
    ]);
    vec![file, ws, punct, word, number]
}

/// Every node of the tree as `(lo, hi, rule)`, root first, pre-order.
fn shape(doc: &Document) -> Vec<(usize, usize, usize)> {
    let mut out = vec![(doc.root.span.0, doc.root.span.1, doc.root.rule)];
    let mut it = doc.node_iter();
    while let Some(n) = it.next() {
        out.push((n.span.0, n.span.1, n.rule));
    }
    out
}

fn children(doc: &Document) -> Vec<(usize, usize, usize)> {
    doc.root.subs.iter().map(|n| (n.span.0, n.span.1, n.rule)).collect()
}

#[test]
fn empty_then_insert_statement() {
    let lang = scenario_language();
    assert!(check_language(&lang));
    let mut doc = Document::new(&lang);
    assert!(doc.edit((0, 0), "let x = 5"));
    assert_eq!(doc.root.span, (0, 9));
    assert_eq!(doc.root.rule, 0);
    assert_eq!(
        children(&doc),
        vec![(0, 3, 3), (3, 4, 1), (4, 5, 3), (5, 6, 1), (6, 7, 2), (7, 8, 1), (8, 9, 4)]
    );
}

#[test]
fn mid_word_insert() {
    let lang = scenario_language();
    let mut doc = Document::new(&lang);
    assert!(doc.edit((0, 0), "let x = 5"));
    assert!(doc.edit((5, 5), "1"));
    assert_eq!(doc.root.span, (0, 10));
    assert_eq!(
        children(&doc),
        vec![(0, 3, 3), (3, 4, 1), (4, 6, 3), (6, 7, 1), (7, 8, 2), (8, 9, 1), (9, 10, 4)]
    );
    // The whitespace node that sat at (3, 4) is still there, unchanged.
    let ws = &doc.root.subs[1];
    assert_eq!((ws.span, ws.rule, ws.subs.len()), ((3, 4), 1, 0));
}

#[test]
fn delete_across_boundary() {
    // Deleting the whitespace between the two words collapses them into
    // one: "letx = 5".
    let lang = scenario_language();
    let mut doc = Document::new(&lang);
    assert!(doc.edit((0, 0), "let x = 5"));
    assert!(doc.edit((3, 4), ""));
    assert_eq!(doc.root.span, (0, 8));
    assert_eq!(
        children(&doc),
        vec![(0, 4, 3), (4, 5, 1), (5, 6, 2), (6, 7, 1), (7, 8, 4)]
    );
}

#[test]
fn delete_whole_token_range() {
    // Deleting " x " leaves "let= 5": the word and the punctuation now
    // touch.
    let lang = scenario_language();
    let mut doc = Document::new(&lang);
    assert!(doc.edit((0, 0), "let x = 5"));
    assert!(doc.edit((3, 6), ""));
    assert_eq!(doc.root.span, (0, 6));
    assert_eq!(
        children(&doc),
        vec![(0, 3, 3), (3, 4, 2), (4, 5, 1), (5, 6, 4)]
    );
}

#[test]
fn replace_with_longer_string() {
    let lang = scenario_language();
    let mut doc = Document::new(&lang);
    assert!(doc.edit((0, 0), "let x = 5"));
    assert!(doc.edit((4, 5), "name"));
    assert_eq!(doc.root.span, (0, 12));
    assert_eq!(
        children(&doc),
        vec![(0, 3, 3), (3, 4, 1), (4, 8, 3), (8, 9, 1), (9, 10, 2), (10, 11, 1), (11, 12, 4)]
    );
}

#[test]
fn replay_equivalence() {
    let lang = scenario_language();
    let text = "let x1 = 5";
    // One byte at a time, appending.
    let mut bywise = Document::new(&lang);
    for (i, c) in text.char_indices() {
        assert!(bywise.edit((i, i), &c.to_string()));
    }
    // All at once.
    let mut once = Document::new(&lang);
    assert!(once.edit((0, 0), text));
    assert_eq!(shape(&bywise), shape(&once));
    assert_eq!(once.root.span, (0, 10));
}

#[test]
fn prefix_typing_matches_direct_insert() {
    let lang = scenario_language();
    let text = "a1 'x_ = 3.25";
    let mut bywise = Document::new(&lang);
    for (i, c) in text.char_indices() {
        assert!(bywise.edit((i, i), &c.to_string()));
    }
    let mut once = Document::new(&lang);
    assert!(once.edit((0, 0), text));
    assert_eq!(shape(&bywise), shape(&once));
}

#[test]
fn different_edit_orders_agree() {
    let lang = scenario_language();
    // Type the text back to front, always inserting at the start.
    let text = "let x = 5";
    let mut backwards = Document::new(&lang);
    for c in text.chars().rev() {
        assert!(backwards.edit((0, 0), &c.to_string()));
    }
    // Replace a middle piece on the way.
    let mut detour = Document::new(&lang);
    assert!(detour.edit((0, 0), "let y = 5"));
    assert!(detour.edit((4, 5), "x"));
    let mut once = Document::new(&lang);
    assert!(once.edit((0, 0), text));
    assert_eq!(shape(&backwards), shape(&once));
    assert_eq!(shape(&detour), shape(&once));
}

#[test]
fn non_advancing_guard() {
    // Rule 0 accepts at step 0 with no edges: any parse of it would
    // consume nothing, so it must be rejected rather than produce an
    // empty root.
    let lang: Language = vec![Rule::Automata(vec![Step(vec![], true)])];
    assert!(check_language(&lang));
    let mut doc = Document::new(&lang);
    assert!(doc.edit((0, 0), "a"));
    assert_eq!(doc.text.byte_len(), 1);
    // The placeholder stayed; no zero-width root was produced.
    assert_eq!(doc.root.span, (0, 0));
    assert!(doc.root.subs.is_empty());
    assert!(incparse::parser::parse(&doc, (0, 1)).is_none());
}

#[test]
fn number_with_dot() {
    let lang = scenario_language();
    let mut doc = Document::new(&lang);
    assert!(doc.edit((0, 0), "3.25"));
    assert_eq!(doc.root.span, (0, 4));
    assert_eq!(children(&doc), vec![(0, 4, 4)]);
}

#[test]
fn edit_extends_existing_tokens() {
    let lang = scenario_language();
    let mut doc = Document::new(&lang);
    assert!(doc.edit((0, 0), "="));
    assert_eq!(children(&doc), vec![(0, 1, 2)]);
    assert!(doc.edit((1, 1), "a"));
    assert_eq!(children(&doc), vec![(0, 1, 2), (1, 2, 3)]);
}

#[test]
fn unmatched_character_keeps_best_effort_prefix() {
    // No rule of the grammar accepts '{', so the root covers only the
    // prefix before it.
    let lang = scenario_language();
    let mut doc = Document::new(&lang);
    assert!(doc.edit((0, 0), "a{"));
    assert_eq!(doc.text.byte_len(), 2);
    assert_eq!(doc.root.span, (0, 1));
    assert_eq!(children(&doc), vec![(0, 1, 3)]);
}

#[test]
fn delete_everything_leaves_placeholder() {
    let lang = scenario_language();
    let mut doc = Document::new(&lang);
    assert!(doc.edit((0, 0), "let x = 5"));
    assert!(doc.edit((0, 9), ""));
    assert_eq!(doc.text.byte_len(), 0);
    assert_eq!(doc.root.span, (0, 0));
}

#[test]
fn rejected_edit_leaves_document_unchanged() {
    let lang = scenario_language();
    let mut doc = Document::new(&lang);
    assert!(doc.edit((0, 0), "let x = 5"));
    let before = shape(&doc);
    // Span end past the text.
    assert!(!doc.edit((0, 99), "x"));
    // Reversed span.
    assert!(!doc.edit((3, 1), "x"));
    assert_eq!(shape(&doc), before);
    assert_eq!(doc.text.byte_len(), 9);
}
