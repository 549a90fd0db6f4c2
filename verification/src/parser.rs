//! The parse driver.
//!
//! A parser walks the grammar from rule 0, consumes the text, and
//! produces the new tree, consulting a pre-order walk of the previous
//! tree as a memo source.  Every method is proved to return exactly what
//! the model in [`crate::semantics`] says; the well-formedness of what a
//! parse returns then follows from the model alone.

use vstd::prelude::*;

use crate::document::Document;
use crate::node::GNode;
use crate::node::Node;
use crate::node::clone_node;
use crate::node::nodes_view;
use crate::node::opt_view;
use crate::node::pre_list;
use crate::node::tree_wf;
use crate::nodeiter::NodeIter;
use crate::rules::CharRange;
use crate::rules::Language;
use crate::rules::Rule;
use crate::rules::Step;
use crate::rules::edges_in_lang;
use crate::rules::in_range;
use crate::rules::lang_wf;
use crate::rules::rule_wf;
use crate::rules::steps_wf;
use crate::semantics::chars_to;
use crate::semantics::doc_fuel;
use crate::semantics::lemma_chars_to;
use crate::semantics::lemma_parse_wf;
use crate::semantics::memo_hit;
use crate::semantics::memo_scan;
use crate::semantics::ms_wf;
use crate::semantics::sp_auto;
use crate::semantics::sp_edges;
use crate::semantics::sp_parse;
use crate::semantics::sp_sym;
use crate::semantics::sym_match;
use crate::spans::boff;
use crate::spans::char_width;
use crate::spans::lemma_boff_ends;
use crate::spans::lemma_boff_injective;
use crate::spans::lemma_boff_mono;
use crate::spans::lemma_boff_step;
use crate::spans::lemma_boundary_range;
use crate::text::Text;

verus! {

/// The state of one parse over a document.
pub struct Parser<'a> {
    /// The current byte position in the text.
    pub offset: usize,
    /// The scalar index matching `offset`.
    at: usize,
    /// The text being parsed.
    text: &'a Text,
    /// The language being parsed with.
    lang: &'a Language,
    /// The byte span the current edit replaced, in edited coordinates.
    edit: (usize, usize),
    /// The walk over the previous tree that serves as the memo source.
    node: NodeIter<'a>,
}

impl<'a> Parser<'a> {
    /// The language, as a sequence of rules.
    pub closed spec fn grammar(self) -> Seq<Rule> {
        self.lang@
    }

    /// The text, as a sequence of scalars.
    pub closed spec fn chars(self) -> Seq<char> {
        self.text@
    }

    /// The edit span.
    pub closed spec fn edit_span(self) -> (int, int) {
        (self.edit.0 as int, self.edit.1 as int)
    }

    /// The memo state: the previous-tree nodes not yet walked past.
    pub closed spec fn ms(self) -> Seq<GNode> {
        self.node.remaining()
    }

    /// The scalar index of the current position.
    pub closed spec fn idx(self) -> int {
        self.at as int
    }

    /// The parser's invariant: the language and text are valid, the byte
    /// position matches the scalar index, and every memo candidate is a
    /// well-formed tree.
    pub closed spec fn wf(self) -> bool {
        &&& lang_wf(self.lang@)
        &&& self.text.wf()
        &&& self.at <= self.text@.len()
        &&& self.offset as int == boff(self.text@, self.at as int)
        &&& self.node.wf()
        &&& ms_wf(self.node.remaining(), self.lang@, self.text@)
    }

    /// Initializes a parse at offset 0 whose memo source is the walk
    /// over everything below `root`.
    pub fn new(text: &'a Text, lang: &'a Language, root: &'a Node, edit: (usize, usize)) -> (r:
        Parser<'a>)
        requires
            text.wf(),
            lang_wf(lang@),
            tree_wf(root@, lang@, text@),
        ensures
            r.wf(),
            r.grammar() == lang@,
            r.chars() == text@,
            r.edit_span() == (edit.0 as int, edit.1 as int),
            r.ms() == pre_list(root@.subs),
            r.idx() == 0,
    {
        let node = NodeIter::new(root);
        proof {
            lemma_boff_ends(text@);
            crate::node::lemma_trees_wf(root@.subs, lang@, text@);
            crate::node::lemma_pre_list_wf(root@.subs, lang@, text@);
        }
        Parser { offset: 0, at: 0, text, lang, edit, node }
    }

    /// Consumes one scalar if one is present and lies in the inclusive
    /// range `lo..=hi`.
    pub fn next_if(&mut self, lo: char, hi: char) -> (r: bool)
        requires
            old(self).wf(),
        ensures
            final(self).wf(),
            final(self).grammar() == old(self).grammar(),
            final(self).chars() == old(self).chars(),
            final(self).edit_span() == old(self).edit_span(),
            final(self).ms() == old(self).ms(),
            r == (old(self).idx() < old(self).chars().len() && in_range(
                CharRange { lo, hi },
                old(self).chars()[old(self).idx()],
            )),
            r ==> final(self).idx() == old(self).idx() + 1,
            !r ==> final(self).idx() == old(self).idx(),
    {
        if self.at == self.text.char_len() {
            return false;
        }
        let c = self.text.char_at(self.at);
        if (lo as u32) <= (c as u32) && (c as u32) <= (hi as u32) {
            proof {
                lemma_boff_step(self.text@, self.at as int);
                lemma_boff_mono(self.text@, self.at as int + 1, self.text@.len() as int);
                lemma_boff_ends(self.text@);
            }
            let w = char_width(c);
            self.offset = self.offset + w;
            self.at = self.at + 1;
            true
        } else {
            false
        }
    }

    /// Parses rule `rule` at the current position with the given fuel:
    /// a reusable memo candidate is cloned into the result, and
    /// otherwise the rule body runs, its acceptance turned into failure
    /// when it consumed nothing.  Returns exactly what the model's
    /// [`sp_parse`] says.
    pub fn parse(&mut self, rule: usize, fuel: usize) -> (r: Option<Node>)
        requires
            old(self).wf(),
            (rule as int) < old(self).grammar().len(),
        ensures
            final(self).wf(),
            final(self).grammar() == old(self).grammar(),
            final(self).chars() == old(self).chars(),
            final(self).edit_span() == old(self).edit_span(),
            ({
                let m = sp_parse(
                    old(self).grammar(),
                    old(self).chars(),
                    old(self).edit_span(),
                    old(self).ms(),
                    old(self).idx(),
                    rule as int,
                    fuel as nat,
                );
                &&& final(self).ms() == m.ms
                &&& final(self).idx() == m.i
                &&& opt_view(r) == m.node
            }),
        decreases fuel, 2int, 0int,
    {
        let ghost g = self.grammar();
        let ghost t = self.chars();
        let ghost es = self.edit_span();
        let ghost ms0 = self.ms();
        let ghost i0 = self.idx();
        let off = self.offset;
        // Walk the memo past candidates that start before this offset.
        loop
            invariant_except_break
                self.wf(),
                self.grammar() == g,
                self.chars() == t,
                self.edit_span() == es,
                self.idx() == i0,
                self.offset == off,
                memo_scan(ms0, off as int) == memo_scan(self.ms(), off as int),
            ensures
                self.wf(),
                self.grammar() == g,
                self.chars() == t,
                self.edit_span() == es,
                self.idx() == i0,
                self.offset == off,
                self.ms() == memo_scan(ms0, off as int),
            decreases self.ms().len(),
        {
            match self.node.peek() {
                Some(n) => {
                    if n.span.0 < off {
                        let ghost rem = self.ms();
                        let _ = self.node.next();
                        proof {
                            assert(memo_scan(rem, off as int) == memo_scan(
                                rem.drop_first(),
                                off as int,
                            ));
                            assert forall|k: int| 0 <= k < self.ms().len() implies tree_wf(
                                #[trigger] self.ms()[k],
                                g,
                                t,
                            ) by {
                                assert(self.ms()[k] == rem[k + 1]);
                            }
                        }
                    } else {
                        break;
                    }
                },
                None => {
                    break;
                },
            }
        }
        let ghost ms1 = memo_scan(ms0, off as int);
        if fuel == 0 {
            return None;
        }
        // Reuse the front candidate when it starts here, carries this
        // rule, covers at least one byte, and lies outside the edit.
        match self.node.peek() {
            Some(n) => {
                if n.span.0 == off && n.rule == rule && n.span.0 < n.span.1 && (self.edit.1
                    < n.span.0 || self.edit.0 > n.span.1) {
                    proof {
                        assert(n@ == ms1[0]);
                        assert(memo_hit(ms1, off as int, rule as int, es));
                        assert(tree_wf(n@, g, t));
                        lemma_boundary_range(t, n@.span.1);
                        lemma_chars_to(t, i0, n@.span.1);
                    }
                    let cloned = clone_node(n);
                    let target = n.span.1;
                    let ghost j = chars_to(t, i0, n@.span.1);
                    while self.offset < target
                        invariant
                            self.wf(),
                            self.grammar() == g,
                            self.chars() == t,
                            self.edit_span() == es,
                            self.ms() == ms1,
                            self.at as int <= j,
                            j <= t.len(),
                            boff(t, j) == target as int,
                        decreases target - self.offset,
                    {
                        proof {
                            if self.at as int >= j {
                                lemma_boff_mono(t, j, self.at as int);
                                assert(false);
                            }
                            lemma_boff_step(t, self.at as int);
                            lemma_boff_mono(t, self.at as int + 1, j);
                            crate::spans::lemma_blen_bounds(t);
                        }
                        let w = char_width(self.text.char_at(self.at));
                        self.offset = self.offset + w;
                        self.at = self.at + 1;
                    }
                    proof {
                        lemma_boff_mono(t, self.at as int, j);
                        lemma_boff_injective(t, self.at as int, j);
                    }
                    return Some(cloned);
                }
            },
            None => {},
        }
        proof {
            assert(!memo_hit(ms1, off as int, rule as int, es));
        }
        let lang = self.lang;
        let at0 = self.at;
        let off0 = self.offset;
        match &lang[rule] {
            Rule::Symbol(steps) => {
                proof {
                    assert(rule_wf(g[rule as int], g.len() as int));
                }
                let ok = self.parse_symbol(steps, 0);
                if ok {
                    if self.at > at0 {
                        let node = Node { span: (off0, self.offset), rule, subs: Vec::new() };
                        proof {
                            crate::node::lemma_nodes_view(node.subs@);
                            assert(node@ =~= GNode {
                                span: (off0 as int, self.offset as int),
                                rule: rule as int,
                                subs: Seq::empty(),
                            });
                        }
                        return Some(node);
                    }
                }
                self.at = at0;
                self.offset = off0;
                None
            },
            Rule::Automata(steps) => {
                proof {
                    assert(rule_wf(g[rule as int], g.len() as int));
                }
                let subs = self.parse_automaton(steps, 0, Vec::new(), fuel - 1);
                proof {
                    crate::node::lemma_nodes_view(Seq::<Node>::empty());
                    assert(nodes_view(Seq::<Node>::empty()) =~= Seq::<GNode>::empty());
                }
                match subs {
                    Some(subs) => {
                        if self.at > at0 {
                            let node = Node { span: (off0, self.offset), rule, subs };
                            return Some(node);
                        }
                        self.at = at0;
                        self.offset = off0;
                        None
                    },
                    None => {
                        self.at = at0;
                        self.offset = off0;
                        None
                    },
                }
            },
        }
    }

    /// Runs a symbol body from step `s`, consuming matched scalars.
    /// Returns whether the run ended in an accepting step; the model's
    /// [`sp_sym`] says where it ends.
    fn parse_symbol(&mut self, steps: &Vec<Step<CharRange>>, s: usize) -> (ok: bool)
        requires
            old(self).wf(),
            steps_wf(steps@),
            (s as int) < steps@.len(),
        ensures
            final(self).wf(),
            final(self).grammar() == old(self).grammar(),
            final(self).chars() == old(self).chars(),
            final(self).edit_span() == old(self).edit_span(),
            final(self).ms() == old(self).ms(),
            ({
                let res = sp_sym(steps@, old(self).chars(), old(self).idx(), s as int);
                &&& (res matches Some(j) ==> ok && final(self).idx() == j)
                &&& (res is None ==> !ok)
            }),
        decreases self.text@.len() - self.at,
    {
        let ghost t = self.chars();
        let ghost i0 = self.idx();
        if self.at == self.text.char_len() {
            return steps[s].1;
        }
        let c = self.text.char_at(self.at);
        let ghost edges_g = steps@[s as int].0@;
        let edges = &steps[s].0;
        let mut e: usize = 0;
        let mut nxt: usize = 0;
        let mut found = false;
        proof {
            assert(edges_g.skip(0) =~= edges_g);
        }
        loop
            invariant_except_break
                e <= edges_g.len(),
                edges_g == edges@,
                !found,
                sym_match(edges_g, c) == sym_match(edges_g.skip(e as int), c),
            ensures
                edges_g == edges@,
                found ==> e < edges_g.len() && sym_match(edges_g, c) == Some(edges_g[e as int])
                    && nxt == edges_g[e as int].1,
                !found ==> sym_match(edges_g, c) is None,
            decreases edges_g.len() - e,
        {
            if e == edges.len() {
                proof {
                    assert(edges_g.skip(e as int) =~= Seq::<(CharRange, usize)>::empty());
                }
                break;
            }
            let (range, tgt) = edges[e];
            if (range.lo as u32) <= (c as u32) && (c as u32) <= (range.hi as u32) {
                found = true;
                nxt = tgt;
                proof {
                    assert(edges_g.skip(e as int)[0] == edges_g[e as int]);
                    assert(in_range(edges_g[e as int].0, c));
                }
                break;
            }
            proof {
                assert(edges_g.skip(e as int)[0] == edges_g[e as int]);
                assert(!in_range(edges_g[e as int].0, c));
                assert(edges_g.skip(e as int).drop_first() =~= edges_g.skip(e as int + 1));
            }
            e = e + 1;
        }
        if !found {
            return steps[s].1;
        }
        proof {
            lemma_boff_step(t, self.at as int);
            lemma_boff_mono(t, self.at as int + 1, t.len() as int);
            lemma_boff_ends(t);
            assert((steps@[s as int].0@[e as int]).1 < steps@.len());
        }
        let w = char_width(c);
        self.offset = self.offset + w;
        self.at = self.at + 1;
        self.parse_symbol(steps, nxt)
    }

    /// Runs an automata body from step `s` with the children gathered so
    /// far.  Returns the children if the run ends in an accepting step;
    /// the model's [`sp_auto`] says which and where.
    fn parse_automaton(&mut self, steps: &Vec<Step<usize>>, s: usize, subs: Vec<Node>, fuel: usize) -> (r:
        Option<Vec<Node>>)
        requires
            old(self).wf(),
            steps_wf(steps@),
            edges_in_lang(steps@, old(self).grammar().len() as int),
            (s as int) < steps@.len(),
        ensures
            final(self).wf(),
            final(self).grammar() == old(self).grammar(),
            final(self).chars() == old(self).chars(),
            final(self).edit_span() == old(self).edit_span(),
            ({
                let a = sp_auto(
                    old(self).grammar(),
                    old(self).chars(),
                    old(self).edit_span(),
                    old(self).ms(),
                    old(self).idx(),
                    steps@,
                    s as int,
                    nodes_view(subs@),
                    fuel as nat,
                );
                &&& final(self).ms() == a.ms
                &&& final(self).idx() == a.i
                &&& (r is Some <==> a.subs is Some)
                &&& (r matches Some(v) ==> (a.subs matches Some(ss) && nodes_view(v@) == ss))
            }),
        decreases fuel, 1int, 0int,
    {
        if fuel == 0 {
            if steps[s].1 {
                return Some(subs);
            } else {
                return None;
            }
        }
        proof {
            assert forall|k: int| 0 <= k < steps@[s as int].0@.len() implies (((
            #[trigger] steps@[s as int].0@[k]).0 as int) < self.grammar().len() && ((steps@[s
                as int].0@[k]).1 as int) < steps@.len()) by {}
            assert(steps@[s as int].0@.skip(0) =~= steps@[s as int].0@);
        }
        match self.parse_edges(&steps[s].0, 0, fuel, Ghost(steps@.len() as int)) {
            Some((node, nxt)) => {
                let mut subs2 = subs;
                let ghost before = subs2@;
                subs2.push(node);
                proof {
                    crate::node::lemma_nodes_view(before);
                    crate::node::lemma_nodes_view(subs2@);
                    assert(nodes_view(subs2@) =~= nodes_view(before).push(node@));
                }
                self.parse_automaton(steps, nxt, subs2, fuel - 1)
            },
            None => {
                proof {
                    crate::semantics::lemma_edges_wf(
                        old(self).grammar(),
                        old(self).chars(),
                        old(self).edit_span(),
                        old(self).ms(),
                        old(self).idx(),
                        steps@[s as int].0@,
                        fuel as nat,
                        steps@.len() as int,
                    );
                }
                if steps[s].1 {
                    Some(subs)
                } else {
                    None
                }
            },
        }
    }

    /// Tries the edges of one automata step, from position `j` on, in
    /// order.  Returns the first matching edge's child and target step;
    /// the model's [`sp_edges`] says which.
    fn parse_edges(
        &mut self,
        edges: &Vec<(usize, usize)>,
        j: usize,
        fuel: usize,
        Ghost(nb): Ghost<int>,
    ) -> (r: Option<(Node, usize)>)
        requires
            old(self).wf(),
            (j as int) <= edges@.len(),
            forall|k: int|
                j <= k < edges@.len() ==> ((#[trigger] edges@[k]).0 as int)
                    < old(self).grammar().len(),
            forall|k: int| j <= k < edges@.len() ==> ((#[trigger] edges@[k]).1 as int) < nb,
        ensures
            final(self).wf(),
            final(self).grammar() == old(self).grammar(),
            final(self).chars() == old(self).chars(),
            final(self).edit_span() == old(self).edit_span(),
            ({
                let res = sp_edges(
                    old(self).grammar(),
                    old(self).chars(),
                    old(self).edit_span(),
                    old(self).ms(),
                    old(self).idx(),
                    edges@.skip(j as int),
                    fuel as nat,
                );
                &&& final(self).ms() == res.ms
                &&& final(self).idx() == res.i
                &&& (r is Some <==> res.hit is Some)
                &&& (r matches Some(p) ==> (res.hit matches Some(h) && p.0@ == h.0 && p.1 as int
                    == h.1 && (p.1 as int) < nb))
            }),
        decreases fuel, 0int, edges@.len() - j,
    {
        if j == edges.len() || fuel == 0 {
            proof {
                if j == edges@.len() {
                    assert(edges@.skip(j as int) =~= Seq::<(usize, usize)>::empty());
                }
            }
            return None;
        }
        let (rule, nxt) = edges[j];
        proof {
            assert(edges@.skip(j as int)[0] == edges@[j as int]);
        }
        match self.parse(rule, fuel - 1) {
            Some(node) => Some((node, nxt)),
            None => {
                proof {
                    assert(edges@.skip(j as int).drop_first() =~= edges@.skip(j as int + 1));
                }
                self.parse_edges(edges, j + 1, fuel, Ghost(nb))
            },
        }
    }
}

/// The fuel granted to a document's parse.
fn compute_fuel(n: usize, g: usize) -> (r: usize)
    ensures
        r as nat == doc_fuel(n as int, g as int),
{
    if n == usize::MAX || g == usize::MAX {
        proof {
            assert((n + 1) * (g + 1) + 1 > usize::MAX as int) by (nonlinear_arith)
                requires
                    n == usize::MAX as int || g == usize::MAX as int,
                    n >= 0,
                    g >= 0,
            ;
        }
        return usize::MAX;
    }
    let a = n + 1;
    let b = g + 1;
    if a > usize::MAX / b {
        proof {
            assert(a as int * b as int > usize::MAX as int) by (nonlinear_arith)
                requires
                    a as int > usize::MAX as int / b as int,
                    b as int > 0,
                    a as int > 0,
            ;
        }
        return usize::MAX;
    }
    proof {
        assert(a as int * b as int <= usize::MAX as int) by (nonlinear_arith)
            requires
                a as int <= usize::MAX as int / b as int,
                b as int > 0,
                a as int > 0,
        ;
    }
    let p = a * b;
    if p == usize::MAX {
        usize::MAX
    } else {
        p + 1
    }
}

/// Returns a new tree for the document, parsing rule 0 over the whole
/// text and reusing the subtrees of the current root that lie outside
/// the byte span `edit`.  Returns `None` when rule 0 does not match.
pub fn parse(document: &Document<'_>, edit: (usize, usize)) -> (r: Option<Node>)
    requires
        document.wf(),
    ensures
        ({
            let m = sp_parse(
                document.lang@,
                document.text@,
                (edit.0 as int, edit.1 as int),
                pre_list(document.root@.subs),
                0,
                0,
                doc_fuel(document.text@.len() as int, document.lang@.len() as int),
            );
            &&& opt_view(r) == m.node
            &&& (r matches Some(nd) ==> {
                &&& tree_wf(nd@, document.lang@, document.text@)
                &&& nd@.rule == 0
                &&& nd@.span.0 == 0
                &&& nd@.span.1 == boff(document.text@, m.i)
            })
        }),
{
    let fuel = compute_fuel(document.text.char_len(), document.lang.len());
    let mut parser = Parser::new(&document.text, document.lang, &document.root, edit);
    proof {
        lemma_boff_ends(document.text@);
        crate::node::lemma_trees_wf(document.root@.subs, document.lang@, document.text@);
        crate::node::lemma_pre_list_wf(document.root@.subs, document.lang@, document.text@);
        lemma_parse_wf(
            document.lang@,
            document.text@,
            (edit.0 as int, edit.1 as int),
            pre_list(document.root@.subs),
            0,
            0,
            doc_fuel(document.text@.len() as int, document.lang@.len() as int),
        );
    }
    parser.parse(0, fuel)
}

} // verus!
