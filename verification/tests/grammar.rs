//! Grammar validation, nested rules, traversal order, and byte spans
//! over multi-byte text.

use incparse::document::Document;
use incparse::node::clone_node;
use incparse::rules::check_language;
use incparse::rules::CharRange;
use incparse::rules::Language;
use incparse::rules::Rule;
use incparse::parser::Parser;
use incparse::rules::Step;

fn r(lo: char, hi: char) -> CharRange {
    CharRange { lo, hi }
}

fn word() -> Rule {
    Rule::Symbol(vec![
        Step(vec![(r('a', 'z'), 1)], false),
        Step(vec![(r('a', 'z'), 1)], true),
    ])
}

#[test]
fn language_checks() {
    // Valid: one automaton over one symbol.
    let ok: Language = vec![Rule::Automata(vec![Step(vec![(1, 0)], true)]), word()];
    assert!(check_language(&ok));
    // Empty table.
    assert!(!check_language(&vec![]));
    // A rule with no steps.
    let no_steps: Language = vec![Rule::Symbol(vec![])];
    assert!(!check_language(&no_steps));
    // An edge leading to a step the rule does not have.
    let bad_step: Language = vec![Rule::Symbol(vec![Step(vec![(r('a', 'z'), 5)], true)])];
    assert!(!check_language(&bad_step));
    // An automaton edge naming a rule the table does not have.
    let bad_rule: Language = vec![Rule::Automata(vec![Step(vec![(3, 0)], true)])];
    assert!(!check_language(&bad_rule));
}

#[test]
fn step_accessors() {
    let s: Step<usize> = Step(vec![(1, 0), (2, 0)], true);
    assert_eq!(s.rules().len(), 2);
    assert!(s.is_final());
    let s2: Step<CharRange> = Step(vec![], false);
    assert!(!s2.is_final());
}

#[test]
fn preorder_visits_parent_before_children() {
    // 0: file looping over 1; 1: an automaton wrapping one word.
    let lang: Language = vec![
        Rule::Automata(vec![Step(vec![(1, 0)], true)]),
        Rule::Automata(vec![Step(vec![(2, 1)], false), Step(vec![], true)]),
        word(),
    ];
    assert!(check_language(&lang));
    let mut doc = Document::new(&lang);
    assert!(doc.edit((0, 0), "ab"));
    assert_eq!(doc.root.span, (0, 2));
    let mut it = doc.node_iter();
    let wrapper = it.next().expect("wrapper node");
    assert_eq!((wrapper.span, wrapper.rule), ((0, 2), 1));
    let leaf = it.next().expect("word node");
    assert_eq!((leaf.span, leaf.rule), ((0, 2), 2));
    assert!(it.next().is_none());
}

#[test]
fn peek_matches_next() {
    let lang: Language = vec![Rule::Automata(vec![Step(vec![(1, 0)], true)]), word()];
    let mut doc = Document::new(&lang);
    assert!(doc.edit((0, 0), "ab"));
    let mut it = doc.node_iter();
    let peeked = it.peek().expect("a node").span;
    let stepped = it.next().expect("a node").span;
    assert_eq!(peeked, stepped);
    assert!(it.peek().is_none());
}

#[test]
fn byte_spans_over_multibyte_text() {
    // 0: file over {1, 2}; 1: ascii word; 2: a run of non-ascii scalars.
    let lang: Language = vec![
        Rule::Automata(vec![Step(vec![(1, 0), (2, 0)], true)]),
        word(),
        Rule::Symbol(vec![
            Step(vec![(r('\u{80}', '\u{10ffff}'), 1)], false),
            Step(vec![(r('\u{80}', '\u{10ffff}'), 1)], true),
        ]),
    ];
    assert!(check_language(&lang));
    let mut doc = Document::new(&lang);
    assert!(doc.edit((0, 0), "a\u{e9}\u{e9}b"));
    // The two-byte scalars give the middle node a four-byte span.
    assert_eq!(doc.root.span, (0, 6));
    let spans: Vec<(usize, usize, usize)> =
        doc.root.subs.iter().map(|n| (n.span.0, n.span.1, n.rule)).collect();
    assert_eq!(spans, vec![(0, 1, 1), (1, 5, 2), (5, 6, 1)]);
}

#[test]
fn empty_document_state() {
    let lang: Language = vec![Rule::Automata(vec![Step(vec![(1, 0)], true)]), word()];
    let doc = Document::new(&lang);
    assert_eq!(doc.root.span, (0, 0));
    assert_eq!(doc.root.rule, 0);
    assert!(doc.root.subs.is_empty());
    assert_eq!(doc.read(0), None);
    let mut it = doc.node_iter();
    assert!(it.next().is_none());
}

#[test]
fn clone_copies_whole_tree() {
    let lang: Language = vec![Rule::Automata(vec![Step(vec![(1, 0)], true)]), word()];
    let mut doc = Document::new(&lang);
    assert!(doc.edit((0, 0), "ab"));
    let copy = clone_node(&doc.root);
    assert_eq!(copy.span, doc.root.span);
    assert_eq!(copy.rule, doc.root.rule);
    assert_eq!(copy.subs.len(), doc.root.subs.len());
    assert_eq!(copy.subs[0].span, doc.root.subs[0].span);
}

#[test]
fn parser_next_if_consumes_in_range() {
    let lang: Language = vec![Rule::Automata(vec![Step(vec![(1, 0)], true)]), word()];
    let mut doc = Document::new(&lang);
    assert!(doc.edit((0, 0), "ab"));
    let mut p = Parser::new(&doc.text, doc.lang, &doc.root, (0, 0));
    assert_eq!(p.offset, 0);
    assert!(!p.next_if('c', 'z'));
    assert_eq!(p.offset, 0);
    assert!(p.next_if('a', 'z'));
    assert_eq!(p.offset, 1);
}
