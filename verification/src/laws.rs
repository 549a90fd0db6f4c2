//! Properties of the library, stated and proved once.

use vstd::prelude::*;

use crate::document::Document;
use crate::node::GNode;
use crate::node::lemma_pre_list_wf;
use crate::node::lemma_trees_wf;
use crate::node::pre_node;
use crate::node::tree_wf;
use crate::rules::Rule;
use crate::rules::Step;
use crate::rules::edges_in_lang;
use crate::rules::lang_wf;
use crate::rules::rule_wf;
use crate::rules::steps_wf;
use crate::semantics::chars_to;
use crate::semantics::doc_fuel;
use crate::semantics::lemma_chars_to;
use crate::semantics::lemma_parse_wf;
use crate::semantics::memo_hit;
use crate::semantics::memo_scan;
use crate::semantics::ms_wf;
use crate::semantics::sp_auto;
use crate::semantics::sp_edges;
use crate::semantics::sp_parse;
use crate::semantics::sp_sym;
use crate::spans::blen;
use crate::spans::boff;
use crate::spans::index_at;
use crate::spans::is_boundary;
use crate::spans::lemma_boff_injective;
use crate::spans::lemma_boff_mono;
use crate::spans::lemma_boundary_range;
use crate::text::lemma_index_at;

verus! {

/// Every node reachable from a well-formed document's root is a
/// well-formed tree: its children are non-empty unless its span is, the
/// first child starts where the node starts, the last child ends where
/// the node ends, neighbouring children meet without gap or overlap,
/// and a symbol node is a leaf.
pub proof fn lemma_document_tree_wf(d: &Document<'_>)
    requires
        d.wf(),
    ensures
        forall|k: int|
            0 <= k < pre_node(d.root@).len() ==> tree_wf(
                #[trigger] pre_node(d.root@)[k],
                d.lang@,
                d.text@,
            ),
{
    lemma_trees_wf(d.root@.subs, d.lang@, d.text@);
    lemma_pre_list_wf(d.root@.subs, d.lang@, d.text@);
    assert forall|k: int| 0 <= k < pre_node(d.root@).len() implies tree_wf(
        #[trigger] pre_node(d.root@)[k],
        d.lang@,
        d.text@,
    ) by {
        if k == 0 {
            assert(pre_node(d.root@)[0] == d.root@);
        } else {
            assert(pre_node(d.root@)[k] == crate::node::pre_list(d.root@.subs)[k - 1]);
        }
    }
}

/// The root of a well-formed document starts at offset 0 and ends at or
/// before the end of the text; when the text is empty, the root carries
/// the placeholder span.
pub proof fn lemma_root_span(d: &Document<'_>)
    requires
        d.wf(),
    ensures
        d.root@.span.0 == 0,
        0 <= d.root@.span.1 <= blen(d.text@),
        blen(d.text@) == 0 ==> d.root@.span == (0int, 0int),
{
    lemma_boundary_range(d.text@, d.root@.span.1);
}

/// A parse never yields a node of empty span: a body acceptance that
/// consumed nothing is turned into failure, and a memo candidate is
/// reused only when it covers at least one byte.
pub proof fn lemma_no_empty_match(
    g: Seq<crate::rules::Rule>,
    t: Seq<char>,
    edit: (int, int),
    ms: Seq<GNode>,
    i: int,
    r: int,
    fuel: nat,
)
    requires
        lang_wf(g),
        0 <= i <= t.len(),
        0 <= r < g.len(),
        ms_wf(ms, g, t),
    ensures
        (sp_parse(g, t, edit, ms, i, r, fuel).node matches Some(n) ==> n.span.0 < n.span.1),
{
    lemma_parse_wf(g, t, edit, ms, i, r, fuel);
    let m = sp_parse(g, t, edit, ms, i, r, fuel);
    match m.node {
        Some(n) => {
            lemma_boff_mono(t, i, m.i);
        },
        None => {},
    }
}

/// A parse that starts with no memo candidates keeps none and never
/// consults the edit span: the tree produced by a single edit applied to
/// an empty document is a function of the grammar, the text and the fuel
/// alone, whatever span that edit replaced.  Together with the shift
/// pass leaving the placeholder root in place, this makes the
/// from-scratch tree of a text canonical.
pub proof fn lemma_fresh_parse_canonical(
    g: Seq<crate::rules::Rule>,
    t: Seq<char>,
    e1: (int, int),
    e2: (int, int),
    i: int,
    r: int,
    fuel: nat,
)
    ensures
        sp_parse(g, t, e1, Seq::empty(), i, r, fuel) == sp_parse(g, t, e2, Seq::empty(), i, r, fuel),
        sp_parse(g, t, e1, Seq::empty(), i, r, fuel).ms == Seq::<GNode>::empty(),
    decreases fuel, 2int, 0int,
{
    if fuel > 0 {
        match g[r] {
            crate::rules::Rule::Symbol(_) => {},
            crate::rules::Rule::Automata(steps) => {
                lemma_fresh_auto_canonical(
                    g,
                    t,
                    e1,
                    e2,
                    i,
                    steps@,
                    0,
                    Seq::empty(),
                    (fuel - 1) as nat,
                );
            },
        }
    }
}

proof fn lemma_fresh_auto_canonical(
    g: Seq<crate::rules::Rule>,
    t: Seq<char>,
    e1: (int, int),
    e2: (int, int),
    i: int,
    steps: Seq<crate::rules::Step<usize>>,
    s: int,
    subs: Seq<GNode>,
    fuel: nat,
)
    ensures
        crate::semantics::sp_auto(g, t, e1, Seq::empty(), i, steps, s, subs, fuel)
            == crate::semantics::sp_auto(g, t, e2, Seq::empty(), i, steps, s, subs, fuel),
        crate::semantics::sp_auto(g, t, e1, Seq::empty(), i, steps, s, subs, fuel).ms == Seq::<
            GNode,
        >::empty(),
    decreases fuel, 1int, 0int,
{
    if fuel > 0 {
        lemma_fresh_edges_canonical(g, t, e1, e2, i, steps[s].0@, fuel);
        let e = crate::semantics::sp_edges(g, t, e1, Seq::empty(), i, steps[s].0@, fuel);
        match e.hit {
            Some((node, next)) => {
                lemma_fresh_auto_canonical(
                    g,
                    t,
                    e1,
                    e2,
                    e.i,
                    steps,
                    next,
                    subs.push(node),
                    (fuel - 1) as nat,
                );
            },
            None => {},
        }
    }
}

proof fn lemma_fresh_edges_canonical(
    g: Seq<crate::rules::Rule>,
    t: Seq<char>,
    e1: (int, int),
    e2: (int, int),
    i: int,
    edges: Seq<(usize, usize)>,
    fuel: nat,
)
    ensures
        crate::semantics::sp_edges(g, t, e1, Seq::empty(), i, edges, fuel)
            == crate::semantics::sp_edges(g, t, e2, Seq::empty(), i, edges, fuel),
        crate::semantics::sp_edges(g, t, e1, Seq::empty(), i, edges, fuel).ms == Seq::<
            GNode,
        >::empty(),
    decreases fuel, 0int, edges.len(),
{
    if edges.len() > 0 && fuel > 0 {
        lemma_fresh_parse_canonical(g, t, e1, e2, i, edges[0].0 as int, (fuel - 1) as nat);
        let c = sp_parse(g, t, e1, Seq::empty(), i, edges[0].0 as int, (fuel - 1) as nat);
        match c.node {
            Some(_) => {},
            None => {
                lemma_fresh_edges_canonical(g, t, e1, e2, i, edges.drop_first(), fuel);
            },
        }
    }
}

/// Shifting the placeholder root leaves it in place: the first edit of
/// an empty document parses with no memo candidates at all.
pub proof fn lemma_placeholder_shift(start: int, removed: int, added: int)
    requires
        0 <= start,
    ensures
        crate::node::gshift(crate::document::placeholder(), start, removed, added)
            == crate::document::placeholder(),
        crate::node::pre_list(crate::document::placeholder().subs) == Seq::<GNode>::empty(),
{
    assert(crate::node::gshift(crate::document::placeholder(), start, removed, added)
        =~= crate::document::placeholder());
}

/// A memo candidate whose reuse cannot change what a parse returns:
/// wherever it lies entirely outside the edit span and covers at least
/// one byte, it is a leaf of a symbol rule, and that rule's body, run at
/// the candidate's start, ends exactly at the candidate's end.
///
/// The shifted previous tree of a document satisfies this when its
/// reusable nodes are symbol leaves that still parse to themselves in
/// the edited text — what the strict outside-the-edit condition gives a
/// grammar whose matches are settled one scalar ahead.  A candidate
/// produced by a rule that looks further ahead than its own span may
/// parse differently once later text changes, and reusing it can then
/// diverge from a from-scratch parse.
pub open spec fn faithful(c: GNode, g: Seq<Rule>, t: Seq<char>, edit: (int, int)) -> bool {
    ((c.span.1 < edit.0 || c.span.0 > edit.1) && c.span.0 < c.span.1) ==> {
        &&& c.subs.len() == 0
        &&& match g[c.rule] {
            Rule::Symbol(steps) => sp_sym(steps@, t, index_at(t, c.span.0), 0) == Some(
                index_at(t, c.span.1),
            ),
            Rule::Automata(_) => false,
        }
    }
}

/// Every memo candidate is faithful.
pub open spec fn all_faithful(ms: Seq<GNode>, g: Seq<Rule>, t: Seq<char>, edit: (int, int)) -> bool {
    forall|k: int| 0 <= k < ms.len() ==> faithful(#[trigger] ms[k], g, t, edit)
}

proof fn lemma_memo_scan_faithful(
    ms: Seq<GNode>,
    off: int,
    g: Seq<Rule>,
    t: Seq<char>,
    edit: (int, int),
)
    requires
        all_faithful(ms, g, t, edit),
    ensures
        all_faithful(memo_scan(ms, off), g, t, edit),
    decreases ms.len(),
{
    if ms.len() > 0 && ms[0].span.0 < off {
        assert forall|k: int| 0 <= k < ms.drop_first().len() implies faithful(
            #[trigger] ms.drop_first()[k],
            g,
            t,
            edit,
        ) by {
            assert(ms.drop_first()[k] == ms[k + 1]);
        }
        lemma_memo_scan_faithful(ms.drop_first(), off, g, t, edit);
    }
}

/// Reuse soundness.  A parse whose memo candidates are all faithful
/// returns the same node as, and stops at the same place as, the parse
/// of the same text with no memo at all.  With
/// [`lemma_fresh_parse_canonical`], this is the incremental-equivalence
/// property: wherever an edited document's shifted tree offers only
/// faithful candidates, the reparse equals the from-scratch parse of
/// the edited text.
pub proof fn lemma_faithful_memo_fresh(
    g: Seq<Rule>,
    t: Seq<char>,
    edit: (int, int),
    ms: Seq<GNode>,
    i: int,
    r: int,
    fuel: nat,
)
    requires
        lang_wf(g),
        0 <= i <= t.len(),
        0 <= r < g.len(),
        ms_wf(ms, g, t),
        all_faithful(ms, g, t, edit),
    ensures
        ({
            let a = sp_parse(g, t, edit, ms, i, r, fuel);
            let b = sp_parse(g, t, edit, Seq::empty(), i, r, fuel);
            &&& a.node == b.node
            &&& a.i == b.i
            &&& ms_wf(a.ms, g, t)
            &&& all_faithful(a.ms, g, t, edit)
        }),
    decreases fuel, 2int, 0int,
{
    let off = boff(t, i);
    let ms1 = memo_scan(ms, off);
    crate::semantics::lemma_memo_scan_wf(ms, off, g, t);
    lemma_memo_scan_faithful(ms, off, g, t, edit);
    if fuel == 0 {
    } else if memo_hit(ms1, off, r, edit) {
        let c = ms1[0];
        assert(faithful(c, g, t, edit));
        assert(tree_wf(c, g, t));
        lemma_boundary_range(t, c.span.1);
        lemma_index_at(t, i);
        let jstar = index_at(t, c.span.1);
        assert(0 <= jstar <= t.len() && boff(t, jstar) == c.span.1);
        lemma_chars_to(t, i, c.span.1);
        lemma_boff_injective(t, chars_to(t, i, c.span.1), jstar);
        if jstar <= i {
            lemma_boff_mono(t, jstar, i);
            assert(false);
        }
        match g[r] {
            Rule::Symbol(steps) => {
                let bnode = GNode { span: (off, boff(t, jstar)), rule: r, subs: Seq::empty() };
                assert(c.subs =~= Seq::<GNode>::empty());
                assert(c.span.0 == off);
                assert(c.span.1 == boff(t, jstar));
                assert(c.rule == r);
                assert(c =~= bnode);
            },
            Rule::Automata(_) => {
                assert(false);
            },
        }
    } else {
        match g[r] {
            Rule::Symbol(_) => {},
            Rule::Automata(steps) => {
                assert(rule_wf(g[r], g.len() as int));
                lemma_faithful_auto(g, t, edit, ms1, i, steps@, 0, Seq::empty(), (fuel - 1) as nat);
            },
        }
    }
}

proof fn lemma_faithful_auto(
    g: Seq<Rule>,
    t: Seq<char>,
    edit: (int, int),
    ms: Seq<GNode>,
    i: int,
    steps: Seq<Step<usize>>,
    s: int,
    subs: Seq<GNode>,
    fuel: nat,
)
    requires
        lang_wf(g),
        0 <= i <= t.len(),
        ms_wf(ms, g, t),
        all_faithful(ms, g, t, edit),
        steps_wf(steps),
        edges_in_lang(steps, g.len() as int),
        0 <= s < steps.len(),
    ensures
        ({
            let a = sp_auto(g, t, edit, ms, i, steps, s, subs, fuel);
            let b = sp_auto(g, t, edit, Seq::empty(), i, steps, s, subs, fuel);
            &&& a.subs == b.subs
            &&& a.i == b.i
            &&& ms_wf(a.ms, g, t)
            &&& all_faithful(a.ms, g, t, edit)
        }),
    decreases fuel, 1int, 0int,
{
    if fuel > 0 {
        assert forall|e: int| 0 <= e < steps[s].0@.len() implies (((#[trigger] steps[s].0@[e]).0
            as int) < g.len() && ((steps[s].0@[e]).1 as int) < steps.len()) by {}
        lemma_faithful_edges(g, t, edit, ms, i, steps[s].0@, fuel);
        crate::semantics::lemma_edges_wf(g, t, edit, ms, i, steps[s].0@, fuel, steps.len() as int);
        lemma_fresh_edges_canonical(g, t, edit, edit, i, steps[s].0@, fuel);
        let e = sp_edges(g, t, edit, ms, i, steps[s].0@, fuel);
        match e.hit {
            Some((node, next)) => {
                lemma_faithful_auto(
                    g,
                    t,
                    edit,
                    e.ms,
                    e.i,
                    steps,
                    next,
                    subs.push(node),
                    (fuel - 1) as nat,
                );
            },
            None => {},
        }
    }
}

proof fn lemma_faithful_edges(
    g: Seq<Rule>,
    t: Seq<char>,
    edit: (int, int),
    ms: Seq<GNode>,
    i: int,
    edges: Seq<(usize, usize)>,
    fuel: nat,
)
    requires
        lang_wf(g),
        0 <= i <= t.len(),
        ms_wf(ms, g, t),
        all_faithful(ms, g, t, edit),
        forall|k: int| 0 <= k < edges.len() ==> ((#[trigger] edges[k]).0 as int) < g.len(),
    ensures
        ({
            let a = sp_edges(g, t, edit, ms, i, edges, fuel);
            let b = sp_edges(g, t, edit, Seq::empty(), i, edges, fuel);
            &&& a.hit == b.hit
            &&& a.i == b.i
            &&& ms_wf(a.ms, g, t)
            &&& all_faithful(a.ms, g, t, edit)
        }),
    decreases fuel, 0int, edges.len(),
{
    if edges.len() > 0 && fuel > 0 {
        lemma_faithful_memo_fresh(g, t, edit, ms, i, edges[0].0 as int, (fuel - 1) as nat);
        lemma_fresh_parse_canonical(g, t, edit, edit, i, edges[0].0 as int, (fuel - 1) as nat);
        let c = sp_parse(g, t, edit, ms, i, edges[0].0 as int, (fuel - 1) as nat);
        match c.node {
            Some(_) => {},
            None => {
                assert forall|k: int| 0 <= k < edges.drop_first().len() implies ((
                #[trigger] edges.drop_first()[k]).0 as int) < g.len() by {
                    assert(edges.drop_first()[k] == edges[k + 1]);
                }
                lemma_faithful_edges(g, t, edit, c.ms, i, edges.drop_first(), fuel);
            },
        }
    }
}

/// A candidate that may be offered to any future parse of text `t`: a
/// leaf of a symbol rule that parses to itself at its own span.
pub open spec fn node_reusable(c: GNode, g: Seq<Rule>, t: Seq<char>) -> bool {
    &&& c.subs.len() == 0
    &&& match g[c.rule] {
        Rule::Symbol(steps) => sp_sym(steps@, t, index_at(t, c.span.0), 0) == Some(
            index_at(t, c.span.1),
        ),
        Rule::Automata(_) => false,
    }
}

/// Every node of the forest is reusable over `t`.
pub open spec fn reusable_forest(ms: Seq<GNode>, g: Seq<Rule>, t: Seq<char>) -> bool {
    forall|k: int| 0 <= k < ms.len() ==> node_reusable(#[trigger] ms[k], g, t)
}

/// A reusable candidate is faithful for every edit span.
pub proof fn lemma_reusable_is_faithful(ms: Seq<GNode>, g: Seq<Rule>, t: Seq<char>, edit: (int, int))
    requires
        reusable_forest(ms, g, t),
    ensures
        all_faithful(ms, g, t, edit),
{
}

/// A grammar whose automata reference only symbol rules; its trees are
/// one automaton node over a row of symbol leaves, so the memo walk of a
/// previous tree offers symbol leaves only.
pub open spec fn rule_flat(rl: Rule, g: Seq<Rule>) -> bool {
    match rl {
        Rule::Symbol(_) => true,
        Rule::Automata(steps) => forall|s: int, e: int|
            0 <= s < steps@.len() && 0 <= e < steps@[s].0@.len() ==> g[(#[trigger] steps@[s].0@[e]).0
                as int] is Symbol,
    }
}

pub open spec fn flat_lang(g: Seq<Rule>) -> bool {
    &&& lang_wf(g)
    &&& forall|r: int| 0 <= r < g.len() ==> rule_flat(#[trigger] g[r], g)
}

/// The pre-order walk of a forest of leaves is the forest itself.
pub proof fn lemma_pre_list_of_leaves(s: Seq<GNode>)
    requires
        forall|k: int| 0 <= k < s.len() ==> (#[trigger] s[k]).subs.len() == 0,
    ensures
        crate::node::pre_list(s) == s,
    decreases s,
{
    if s.len() > 0 {
        assert(s[0].subs =~= Seq::<GNode>::empty());
        assert(crate::node::pre_list(s[0].subs) =~= Seq::<GNode>::empty());
        assert forall|k: int| 0 <= k < s.drop_first().len() implies (
        #[trigger] s.drop_first()[k]).subs.len() == 0 by {
            assert(s.drop_first()[k] == s[k + 1]);
        }
        lemma_pre_list_of_leaves(s.drop_first());
        assert(crate::node::pre_node(s[0]) =~= seq![s[0]]);
        assert(crate::node::pre_list(s) == crate::node::pre_node(s[0]) + crate::node::pre_list(
            s.drop_first(),
        ));
        assert(crate::node::pre_list(s) =~= s);
    }
}

/// Parsing a symbol rule yields a reusable node: a reused candidate is
/// reusable by hypothesis, and a fresh leaf parses to itself because the
/// parse just ran its rule there.
proof fn lemma_reusable_parse_sym(
    g: Seq<Rule>,
    t: Seq<char>,
    edit: (int, int),
    ms: Seq<GNode>,
    i: int,
    r: int,
    fuel: nat,
)
    requires
        lang_wf(g),
        0 <= i <= t.len(),
        0 <= r < g.len(),
        g[r] is Symbol,
        all_faithful(ms, g, t, edit),
    ensures
        ({
            let m = sp_parse(g, t, edit, ms, i, r, fuel);
            &&& all_faithful(m.ms, g, t, edit)
            &&& (m.node matches Some(n) ==> node_reusable(n, g, t))
        }),
{
    let off = boff(t, i);
    let ms1 = memo_scan(ms, off);
    lemma_memo_scan_faithful(ms, off, g, t, edit);
    if fuel > 0 && memo_hit(ms1, off, r, edit) {
        // The reused candidate lies outside the edit and covers at
        // least one byte, so its faithfulness says it is a reusable
        // symbol leaf.
        assert(faithful(ms1[0], g, t, edit));
        assert(node_reusable(ms1[0], g, t));
    } else if fuel > 0 {
        match g[r] {
            Rule::Symbol(steps) => {
                crate::semantics::lemma_sym_bounds(steps@, t, i, 0);
                match sp_sym(steps@, t, i, 0) {
                    Some(j) => {
                        if j > i {
                            lemma_index_at(t, i);
                            lemma_index_at(t, j);
                        }
                    },
                    None => {},
                }
            },
            Rule::Automata(_) => {},
        }
    }
}

proof fn lemma_reusable_edges(
    g: Seq<Rule>,
    t: Seq<char>,
    edit: (int, int),
    ms: Seq<GNode>,
    i: int,
    edges: Seq<(usize, usize)>,
    fuel: nat,
)
    requires
        lang_wf(g),
        0 <= i <= t.len(),
        all_faithful(ms, g, t, edit),
        forall|k: int| 0 <= k < edges.len() ==> ((#[trigger] edges[k]).0 as int) < g.len(),
        forall|k: int| 0 <= k < edges.len() ==> g[(#[trigger] edges[k]).0 as int] is Symbol,
    ensures
        ({
            let res = sp_edges(g, t, edit, ms, i, edges, fuel);
            &&& all_faithful(res.ms, g, t, edit)
            &&& (res.hit matches Some(h) ==> node_reusable(h.0, g, t))
        }),
    decreases fuel, 0int, edges.len(),
{
    if edges.len() > 0 && fuel > 0 {
        lemma_reusable_parse_sym(g, t, edit, ms, i, edges[0].0 as int, (fuel - 1) as nat);
        let c = sp_parse(g, t, edit, ms, i, edges[0].0 as int, (fuel - 1) as nat);
        match c.node {
            Some(_) => {},
            None => {
                assert forall|k: int|
                    0 <= k < edges.drop_first().len() implies (((#[trigger] edges.drop_first()[k]).0
                    as int) < g.len() && g[(edges.drop_first()[k]).0 as int] is Symbol) by {
                    assert(edges.drop_first()[k] == edges[k + 1]);
                }
                lemma_reusable_edges(g, t, edit, c.ms, i, edges.drop_first(), fuel);
            },
        }
    }
}

proof fn lemma_reusable_auto(
    g: Seq<Rule>,
    t: Seq<char>,
    edit: (int, int),
    ms: Seq<GNode>,
    i: int,
    steps: Seq<Step<usize>>,
    s: int,
    subs: Seq<GNode>,
    fuel: nat,
)
    requires
        lang_wf(g),
        0 <= i <= t.len(),
        ms_wf(ms, g, t),
        all_faithful(ms, g, t, edit),
        reusable_forest(subs, g, t),
        steps_wf(steps),
        edges_in_lang(steps, g.len() as int),
        forall|s0: int, e: int|
            0 <= s0 < steps.len() && 0 <= e < steps[s0].0@.len() ==> g[(
            #[trigger] steps[s0].0@[e]).0 as int] is Symbol,
        0 <= s < steps.len(),
    ensures
        ({
            let a = sp_auto(g, t, edit, ms, i, steps, s, subs, fuel);
            &&& all_faithful(a.ms, g, t, edit)
            &&& (a.subs matches Some(ss) ==> reusable_forest(ss, g, t))
        }),
    decreases fuel, 1int, 0int,
{
    if fuel > 0 {
        assert forall|e: int| 0 <= e < steps[s].0@.len() implies ((((#[trigger] steps[s].0@[e]).0
            as int) < g.len()) && g[(steps[s].0@[e]).0 as int] is Symbol) by {}
        lemma_reusable_edges(g, t, edit, ms, i, steps[s].0@, fuel);
        crate::semantics::lemma_edges_wf(g, t, edit, ms, i, steps[s].0@, fuel, steps.len() as int);
        let e = sp_edges(g, t, edit, ms, i, steps[s].0@, fuel);
        match e.hit {
            Some((node, next)) => {
                let pushed = subs.push(node);
                assert forall|k: int| 0 <= k < pushed.len() implies node_reusable(
                    #[trigger] pushed[k],
                    g,
                    t,
                ) by {
                    if k < pushed.len() - 1 {
                        assert(pushed[k] == subs[k]);
                    } else {
                        assert(pushed[k] == node);
                    }
                }
                lemma_reusable_auto(
                    g,
                    t,
                    edit,
                    e.ms,
                    e.i,
                    steps,
                    next,
                    pushed,
                    (fuel - 1) as nat,
                );
            },
            None => {},
        }
    }
}

/// Over a flat grammar, what a parse of rule 0 returns offers only
/// reusable candidates to the next parse: the new root's children are
/// symbol leaves that parse to themselves, whether built fresh or taken
/// over from the previous tree.  Reparsing therefore reestablishes the
/// hypothesis of [`lemma_faithful_memo_fresh`] for the text it ran on.
pub proof fn lemma_flat_parse_reusable(
    g: Seq<Rule>,
    t: Seq<char>,
    edit: (int, int),
    ms: Seq<GNode>,
    fuel: nat,
)
    requires
        flat_lang(g),
        ms_wf(ms, g, t),
        all_faithful(ms, g, t, edit),
    ensures
        ({
            let m = sp_parse(g, t, edit, ms, 0, 0, fuel);
            m.node matches Some(n) ==> {
                &&& reusable_forest(n.subs, g, t)
                &&& crate::node::pre_list(n.subs) == n.subs
            }
        }),
{
    lemma_boff_mono(t, 0, t.len() as int);
    let off = boff(t, 0);
    let ms1 = memo_scan(ms, off);
    lemma_memo_scan_faithful(ms, off, g, t, edit);
    crate::semantics::lemma_memo_scan_wf(ms, off, g, t);
    if fuel > 0 {
        if memo_hit(ms1, off, 0, edit) {
            // A faithful candidate never carries an automata rule, and
            // rule 0 parses only where the placeholder root was shifted
            // away; a symbol candidate for rule 0 is its own leaf row.
            assert(faithful(ms1[0], g, t, edit));
            assert(node_reusable(ms1[0], g, t));
            match g[0] {
                Rule::Symbol(_) => {
                    assert(ms1[0].subs =~= Seq::<GNode>::empty());
                    assert(crate::node::pre_list(ms1[0].subs) =~= Seq::<GNode>::empty());
                },
                Rule::Automata(_) => {},
            }
        } else {
            match g[0] {
                Rule::Symbol(steps) => {
                    lemma_reusable_parse_sym(g, t, edit, ms, 0, 0, fuel);
                    let m = sp_parse(g, t, edit, ms, 0, 0, fuel);
                    match m.node {
                        Some(n) => {
                            assert(n.subs =~= Seq::<GNode>::empty());
                            lemma_pre_list_of_leaves(n.subs);
                        },
                        None => {},
                    }
                },
                Rule::Automata(steps) => {
                    assert(rule_wf(g[0], g.len() as int));
                    assert(rule_flat(g[0], g));
                    lemma_reusable_auto(
                        g,
                        t,
                        edit,
                        ms1,
                        0,
                        steps@,
                        0,
                        Seq::empty(),
                        (fuel - 1) as nat,
                    );
                    let a = sp_auto(g, t, edit, ms1, 0, steps@, 0, Seq::empty(), (fuel - 1) as nat);
                    match a.subs {
                        Some(ss) => {
                            if a.i > 0 {
                                lemma_pre_list_of_leaves(ss);
                            }
                        },
                        None => {},
                    }
                },
            }
        }
    }
}

/// A symbol run reads only the scalars it consumes and the one scalar
/// that stops it.  Wherever two texts agree on that window, the run ends
/// after the same number of scalars.
proof fn lemma_sym_local(
    steps: Seq<Step<crate::rules::CharRange>>,
    t1: Seq<char>,
    i1: int,
    t2: Seq<char>,
    i2: int,
    s: int,
    m: int,
)
    requires
        0 <= i1,
        0 <= i2,
        0 <= m,
        i1 + m <= t1.len(),
        i2 + m <= t2.len(),
        sp_sym(steps, t1, i1, s) == Some(i1 + m),
        forall|d: int| 0 <= d < m ==> #[trigger] t1[i1 + d] == t2[i2 + d],
        (i1 + m < t1.len()) <==> (i2 + m < t2.len()),
        i1 + m < t1.len() ==> t1[i1 + m] == t2[i2 + m],
    ensures
        sp_sym(steps, t2, i2, s) == Some(i2 + m),
    decreases m,
{
    crate::semantics::lemma_sym_bounds(steps, t1, i1, s);
    if i1 < t1.len() {
        match crate::semantics::sym_match(steps[s].0@, t1[i1]) {
            Some(e) => {
                crate::semantics::lemma_sym_bounds(steps, t1, i1 + 1, e.1 as int);
                assert(m >= 1);
                assert(t1[i1 + 0] == t2[i2 + 0]);
                assert forall|d: int| 0 <= d < m - 1 implies #[trigger] t1[i1 + 1 + d] == t2[i2 + 1
                    + d] by {
                    assert(t1[i1 + (d + 1)] == t2[i2 + (d + 1)]);
                }
                lemma_sym_local(steps, t1, i1 + 1, t2, i2 + 1, e.1 as int, m - 1);
            },
            None => {
                assert(m == 0);
            },
        }
    } else {
        assert(m == 0);
    }
}

/// The shift pass carries a reusable leaf that ends up outside the edit
/// span into a faithful candidate for the edited text: its scalars and
/// the scalar that stopped its rule either sit in the unchanged prefix
/// or move as one block with the unchanged suffix.
pub proof fn lemma_shift_keeps_faithful(
    c: GNode,
    g: Seq<Rule>,
    t: Seq<char>,
    span: (int, int),
    ins: Seq<char>,
)
    requires
        0 <= span.0 <= span.1 <= blen(t),
        is_boundary(t, span.0),
        is_boundary(t, span.1),
        tree_wf(c, g, t),
        node_reusable(c, g, t),
    ensures
        ({
            let t2 = crate::text::splice(t, span, ins);
            let sc = crate::node::gshift(c, span.0, span.1 - span.0, blen(ins));
            faithful(sc, g, t2, (span.0, span.0 + blen(ins)))
        }),
{
    let removed = span.1 - span.0;
    let added = blen(ins);
    let t2 = crate::text::splice(t, span, ins);
    let sc = crate::node::gshift(c, span.0, removed, added);
    crate::text::lemma_splice_chars(t, span, ins);
    crate::spans::lemma_blen_bounds(ins);
    let a = index_at(t, span.0);
    let b = index_at(t, span.1);
    let n = ins.len() as int;
    assert(sc.subs =~= Seq::<GNode>::empty());
    if (sc.span.1 < span.0 || sc.span.0 > span.0 + added) && sc.span.0 < sc.span.1 {
        assert(c.span.0 < c.span.1);
        let i1 = index_at(t, c.span.0);
        let j1 = index_at(t, c.span.1);
        assert(0 <= i1 <= t.len() && boff(t, i1) == c.span.0);
        assert(0 <= j1 <= t.len() && boff(t, j1) == c.span.1);
        if j1 <= i1 {
            lemma_boff_mono(t, j1, i1);
            assert(false);
        }
        let m = j1 - i1;
        match g[c.rule] {
            Rule::Symbol(steps) => {
                if sc.span.1 < span.0 {
                    // The leaf sits in the unchanged prefix.
                    assert(c.span.1 < span.0);
                    assert(sc.span.0 == c.span.0 && sc.span.1 == c.span.1);
                    if j1 >= a {
                        lemma_boff_mono(t, a, j1);
                        assert(false);
                    }
                    assert(boff(t2, i1) == c.span.0);
                    assert(boff(t2, j1) == c.span.1);
                    lemma_sym_local(steps@, t, i1, t2, i1, 0, m);
                    lemma_index_at(t2, i1);
                    lemma_index_at(t2, j1);
                } else {
                    // The leaf sits in the suffix, moved as one block.
                    assert(sc.span.0 > span.0 + added);
                    assert(c.span.0 > span.1);
                    assert(sc.span.0 == c.span.0 - removed + added);
                    assert(sc.span.1 == c.span.1 - removed + added);
                    if i1 <= b {
                        lemma_boff_mono(t, i1, b);
                        assert(false);
                    }
                    let i2 = a + n + (i1 - b);
                    let j2 = a + n + (j1 - b);
                    assert(boff(t2, i2) == sc.span.0);
                    assert(boff(t2, j2) == sc.span.1);
                    assert forall|d: int| 0 <= d < m implies #[trigger] t[i1 + d] == t2[i2 + d] by {
                        assert(t2[a + n + ((i1 + d) - b)] == t[i1 + d]);
                    }
                    assert((j1 < t.len()) <==> (j2 < t2.len()));
                    if j1 < t.len() {
                        assert(t2[a + n + (j1 - b)] == t[j1]);
                    }
                    lemma_sym_local(steps@, t, i1, t2, i2, 0, m);
                    lemma_index_at(t2, i2);
                    lemma_index_at(t2, j2);
                }
            },
            Rule::Automata(_) => {
                assert(false);
            },
        }
    }
}

/// After an accepted edit of a document whose previous tree is one
/// automaton over reusable symbol leaves, the shifted tree offers only
/// faithful candidates, so the reparse returns exactly what a
/// from-scratch parse of the edited text returns: the incremental and
/// the direct tree agree, edit by edit.
pub proof fn lemma_edit_equivalence(
    root: GNode,
    g: Seq<Rule>,
    t: Seq<char>,
    span: (int, int),
    ins: Seq<char>,
    fuel: nat,
)
    requires
        lang_wf(g),
        0 <= span.0 <= span.1 <= blen(t),
        is_boundary(t, span.0),
        is_boundary(t, span.1),
        tree_wf(root, g, t),
        reusable_forest(root.subs, g, t),
    ensures
        ({
            let t2 = crate::text::splice(t, span, ins);
            let sh = crate::node::gshift(root, span.0, span.1 - span.0, blen(ins));
            let espan = (span.0, span.0 + blen(ins));
            let a = sp_parse(g, t2, espan, crate::node::pre_list(sh.subs), 0, 0, fuel);
            let b = sp_parse(g, t2, espan, Seq::empty(), 0, 0, fuel);
            a.node == b.node && a.i == b.i
        }),
{
    let removed = span.1 - span.0;
    let added = blen(ins);
    crate::spans::lemma_blen_bounds(ins);
    let t2 = crate::text::splice(t, span, ins);
    let sh = crate::node::gshift(root, span.0, removed, added);
    let espan = (span.0, span.0 + added);
    crate::node::lemma_gshift_list(root.subs, span.0, removed, added);
    crate::text::lemma_splice_props(t, span, ins);
    crate::node::lemma_gshift_wf(root, g, t, t2, span.0, removed, added);
    lemma_trees_wf(root.subs, g, t);
    lemma_trees_wf(sh.subs, g, t2);
    // The shifted children are still leaves, and each is faithful.
    assert forall|k: int| 0 <= k < sh.subs.len() implies (#[trigger] sh.subs[k]).subs.len()
        == 0 by {
        assert(sh.subs[k] == crate::node::gshift(root.subs[k], span.0, removed, added));
        assert(node_reusable(root.subs[k], g, t));
        assert(root.subs[k].subs =~= Seq::<GNode>::empty());
    }
    lemma_pre_list_of_leaves(sh.subs);
    assert forall|k: int| 0 <= k < sh.subs.len() implies faithful(
        #[trigger] sh.subs[k],
        g,
        t2,
        espan,
    ) by {
        assert(sh.subs[k] == crate::node::gshift(root.subs[k], span.0, removed, added));
        lemma_shift_keeps_faithful(root.subs[k], g, t, span, ins);
    }
    crate::spans::lemma_blen_bounds(t2);
    lemma_faithful_memo_fresh(g, t2, espan, sh.subs, 0, 0, fuel);
}

/// One full step of editing, over a flat grammar: an accepted edit of a
/// document whose tree is built of reusable symbol leaves installs the
/// canonical from-scratch tree of the edited text whenever rule 0
/// matches, and that tree is again built of reusable symbol leaves, so
/// the next edit starts from the same hypothesis.  Step by step from
/// the empty document — whose placeholder root offers no candidates at
/// all — every sequence of matching edits yields the tree of a single
/// direct insertion of the final text.
pub proof fn lemma_edit_keeps_canonical(
    root: GNode,
    g: Seq<Rule>,
    t: Seq<char>,
    span: (int, int),
    ins: Seq<char>,
    fuel: nat,
)
    requires
        flat_lang(g),
        0 <= span.0 <= span.1 <= blen(t),
        is_boundary(t, span.0),
        is_boundary(t, span.1),
        tree_wf(root, g, t),
        reusable_forest(root.subs, g, t),
    ensures
        ({
            let t2 = crate::text::splice(t, span, ins);
            let sh = crate::node::gshift(root, span.0, span.1 - span.0, blen(ins));
            let espan = (span.0, span.0 + blen(ins));
            let a = sp_parse(g, t2, espan, crate::node::pre_list(sh.subs), 0, 0, fuel);
            let b = sp_parse(g, t2, espan, Seq::empty(), 0, 0, fuel);
            &&& a.node == b.node
            &&& (a.node matches Some(n) ==> reusable_forest(n.subs, g, t2)
                && crate::node::pre_list(n.subs) == n.subs)
        }),
{
    lemma_edit_equivalence(root, g, t, span, ins, fuel);
    let removed = span.1 - span.0;
    let added = blen(ins);
    crate::spans::lemma_blen_bounds(ins);
    let t2 = crate::text::splice(t, span, ins);
    let sh = crate::node::gshift(root, span.0, removed, added);
    let espan = (span.0, span.0 + added);
    crate::node::lemma_gshift_list(root.subs, span.0, removed, added);
    crate::text::lemma_splice_props(t, span, ins);
    crate::node::lemma_gshift_wf(root, g, t, t2, span.0, removed, added);
    lemma_trees_wf(root.subs, g, t);
    lemma_trees_wf(sh.subs, g, t2);
    assert forall|k: int| 0 <= k < sh.subs.len() implies (#[trigger] sh.subs[k]).subs.len()
        == 0 by {
        assert(sh.subs[k] == crate::node::gshift(root.subs[k], span.0, removed, added));
        assert(node_reusable(root.subs[k], g, t));
        assert(root.subs[k].subs =~= Seq::<GNode>::empty());
    }
    lemma_pre_list_of_leaves(sh.subs);
    assert forall|k: int| 0 <= k < sh.subs.len() implies faithful(
        #[trigger] sh.subs[k],
        g,
        t2,
        espan,
    ) by {
        assert(sh.subs[k] == crate::node::gshift(root.subs[k], span.0, removed, added));
        lemma_shift_keeps_faithful(root.subs[k], g, t, span, ins);
    }
    lemma_flat_parse_reusable(g, t2, espan, sh.subs, fuel);
}

/// An edit operation: the byte span it replaces and the scalars of its
/// replacement.
pub ghost struct Edit {
    pub span: (int, int),
    pub ins: Seq<char>,
}

/// What one accepted edit leaves behind, as the document computes it:
/// the spliced text, and the parsed tree — or the shifted tree when the
/// text emptied or rule 0 failed.
pub open spec fn doc_step(g: Seq<Rule>, t: Seq<char>, root: GNode, e: Edit) -> (Seq<char>, GNode) {
    let t2 = crate::text::splice(t, e.span, e.ins);
    let sh = crate::node::gshift(root, e.span.0, e.span.1 - e.span.0, blen(e.ins));
    let espan = (e.span.0, e.span.0 + blen(e.ins));
    let m = sp_parse(
        g,
        t2,
        espan,
        crate::node::pre_list(sh.subs),
        0,
        0,
        doc_fuel(t2.len() as int, g.len() as int),
    );
    (
        t2,
        if blen(t2) == 0 {
            sh
        } else {
            match m.node {
                Some(n) => n,
                None => sh,
            }
        },
    )
}

/// The state a sequence of edits leaves an initially empty document in.
pub open spec fn doc_run(g: Seq<Rule>, es: Seq<Edit>) -> (Seq<char>, GNode)
    decreases es.len(),
{
    if es.len() == 0 {
        (Seq::empty(), crate::document::placeholder())
    } else {
        let p = doc_run(g, es.drop_last());
        doc_step(g, p.0, p.1, es.last())
    }
}

/// An edit the equivalence can follow: its span is a valid pair of
/// boundaries, the edited text is non-empty, and rule 0 matches it.  A
/// failed parse keeps the previous tree in place — deliberately — and a
/// tree kept that way is no longer the from-scratch tree of anything.
pub open spec fn step_ok(g: Seq<Rule>, t: Seq<char>, root: GNode, e: Edit) -> bool {
    let t2 = crate::text::splice(t, e.span, e.ins);
    let sh = crate::node::gshift(root, e.span.0, e.span.1 - e.span.0, blen(e.ins));
    let espan = (e.span.0, e.span.0 + blen(e.ins));
    let m = sp_parse(
        g,
        t2,
        espan,
        crate::node::pre_list(sh.subs),
        0,
        0,
        doc_fuel(t2.len() as int, g.len() as int),
    );
    &&& 0 <= e.span.0 <= e.span.1 <= blen(t)
    &&& is_boundary(t, e.span.0)
    &&& is_boundary(t, e.span.1)
    &&& blen(t2) > 0
    &&& m.node is Some
}

/// Every edit of the sequence is accepted and matches.
pub open spec fn run_ok(g: Seq<Rule>, es: Seq<Edit>) -> bool
    decreases es.len(),
{
    if es.len() == 0 {
        true
    } else {
        let p = doc_run(g, es.drop_last());
        run_ok(g, es.drop_last()) && step_ok(g, p.0, p.1, es.last())
    }
}

/// The canonical tree of a text: what parsing rule 0 over it from
/// scratch returns.  By [`lemma_fresh_parse_canonical`] the edit span
/// passed here does not matter.
pub open spec fn fresh_tree(g: Seq<Rule>, t: Seq<char>) -> Option<GNode> {
    sp_parse(g, t, (0, 0), Seq::empty(), 0, 0, doc_fuel(t.len() as int, g.len() as int)).node
}

/// Along a sequence of accepted, matching edits over a flat grammar,
/// the document always holds the canonical tree of its text, and that
/// tree is built of reusable symbol leaves, ready for the next edit.
pub proof fn lemma_run_state(g: Seq<Rule>, es: Seq<Edit>)
    requires
        flat_lang(g),
        run_ok(g, es),
    ensures
        ({
            let p = doc_run(g, es);
            &&& tree_wf(p.1, g, p.0)
            &&& reusable_forest(p.1.subs, g, p.0)
            &&& (es.len() > 0 ==> fresh_tree(g, p.0) == Some(p.1))
        }),
    decreases es.len(),
{
    if es.len() == 0 {
        let root = crate::document::placeholder();
        let t = Seq::<char>::empty();
        crate::spans::lemma_boff_ends(t);
        assert(is_boundary(t, 0));
        assert(crate::node::trees_wf(root.subs, g, t));
        assert(tree_wf(root, g, t));
    } else {
        let es0 = es.drop_last();
        let e = es.last();
        lemma_run_state(g, es0);
        let p = doc_run(g, es0);
        let t2 = crate::text::splice(p.0, e.span, e.ins);
        let espan = (e.span.0, e.span.0 + blen(e.ins));
        let fuel = doc_fuel(t2.len() as int, g.len() as int);
        lemma_edit_keeps_canonical(p.1, g, p.0, e.span, e.ins, fuel);
        lemma_fresh_parse_canonical(g, t2, espan, (0, 0), 0, 0, fuel);
        crate::spans::lemma_blen_bounds(t2);
        lemma_parse_wf(g, t2, espan, Seq::empty(), 0, 0, fuel);
    }
}

/// Incremental equivalence.  Over a flat grammar, any two sequences of
/// accepted, matching edits that produce the same text from the empty
/// document produce the same tree: the canonical tree of that text,
/// which a single direct insertion of it also produces.
pub proof fn lemma_sequences_agree(g: Seq<Rule>, es1: Seq<Edit>, es2: Seq<Edit>)
    requires
        flat_lang(g),
        run_ok(g, es1),
        run_ok(g, es2),
        es1.len() > 0,
        es2.len() > 0,
        doc_run(g, es1).0 == doc_run(g, es2).0,
    ensures
        doc_run(g, es1).1 == doc_run(g, es2).1,
{
    lemma_run_state(g, es1);
    lemma_run_state(g, es2);
}

/// A reusable memo candidate is taken over into the result unchanged,
/// children and all: sharing is by value in this tree representation.
pub proof fn lemma_memo_reuse(
    g: Seq<crate::rules::Rule>,
    t: Seq<char>,
    edit: (int, int),
    ms: Seq<GNode>,
    i: int,
    r: int,
    fuel: nat,
)
    requires
        fuel >= 1,
        memo_hit(memo_scan(ms, boff(t, i)), boff(t, i), r, edit),
    ensures
        sp_parse(g, t, edit, ms, i, r, fuel).node == Some(memo_scan(ms, boff(t, i))[0]),
{
}

} // verus!
