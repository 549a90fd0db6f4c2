//! The mathematical model of a parse.
//!
//! Parsing a rule at a byte offset is a deterministic function of the
//! grammar, the text, the edit span, and the memo state.  The functions
//! here define that model; the executable parser is proved to return
//! exactly what the model says.
//!
//! The memo state is the sequence of previous-tree nodes, in pre-order,
//! that the parse has not yet walked past.  A parse consults it before
//! running a rule body: the candidates that start before the current
//! offset are dropped, and the front node is reused when it starts here,
//! carries the wanted rule, covers at least one byte, and lies entirely
//! outside the edit span.
//!
//! Rule bodies are run with a fuel bound.  A grammar whose rules can
//! recurse without consuming a scalar (left recursion) has no terminating
//! parse; the fuel makes the model total and the parser terminating, and
//! a document supplies enough fuel (see [`doc_fuel`]) that any
//! derivation whose nesting is bounded by the grammar size runs to
//! completion.

use vstd::prelude::*;

use crate::node::GNode;
use crate::node::tree_wf;
use crate::rules::CharRange;
use crate::rules::Rule;
use crate::rules::Step;
use crate::rules::edges_in_lang;
use crate::rules::in_range;
use crate::rules::lang_wf;
use crate::rules::rule_wf;
use crate::rules::steps_wf;
use crate::spans::boff;
use crate::spans::is_boundary;
use crate::spans::lemma_boff_ends;
use crate::spans::lemma_boff_injective;
use crate::spans::lemma_boff_mono;
use crate::spans::lemma_boff_step;

verus! {

/// Outcome of parsing one rule: the memo state and scalar index after the
/// attempt, and the produced node, if any.  On failure the scalar index
/// is restored, but the memo state keeps whatever was walked past.
pub ghost struct PRes {
    pub ms: Seq<GNode>,
    pub i: int,
    pub node: Option<GNode>,
}

/// Outcome of running an automata body from one step: the children
/// gathered so far when the run ends in an accepting step, or `None`.
pub ghost struct ARes {
    pub ms: Seq<GNode>,
    pub i: int,
    pub subs: Option<Seq<GNode>>,
}

/// Outcome of trying the edges of one step in order: the child node and
/// the target step of the first edge whose rule matched, or `None`.
pub ghost struct ERes {
    pub ms: Seq<GNode>,
    pub i: int,
    pub hit: Option<(GNode, int)>,
}

/// Drops memo candidates that start before byte offset `off`.
pub open spec fn memo_scan(ms: Seq<GNode>, off: int) -> Seq<GNode>
    decreases ms.len(),
{
    if ms.len() > 0 && ms[0].span.0 < off {
        memo_scan(ms.drop_first(), off)
    } else {
        ms
    }
}

/// Whether the front memo candidate is reusable for rule `r` at byte
/// offset `off`: it starts here, was produced by the same rule, covers at
/// least one byte, and lies entirely outside the edit span.
pub open spec fn memo_hit(ms: Seq<GNode>, off: int, r: int, edit: (int, int)) -> bool {
    &&& ms.len() > 0
    &&& ms[0].span.0 == off
    &&& ms[0].rule == r
    &&& ms[0].span.0 < ms[0].span.1
    &&& (ms[0].span.1 < edit.0 || ms[0].span.0 > edit.1)
}

/// The scalar index reached by walking forward from `i` until byte
/// offset `target`.
pub open spec fn chars_to(t: Seq<char>, i: int, target: int) -> int
    decreases t.len() - i,
{
    if i < t.len() && boff(t, i) < target {
        chars_to(t, i + 1, target)
    } else {
        i
    }
}

/// The first edge of a symbol step whose range contains `c`.
pub open spec fn sym_match(edges: Seq<(CharRange, usize)>, c: char) -> Option<(CharRange, usize)>
    decreases edges.len(),
{
    if edges.len() == 0 {
        None
    } else if in_range(edges[0].0, c) {
        Some(edges[0])
    } else {
        sym_match(edges.drop_first(), c)
    }
}

/// Runs a symbol rule from step `s` at scalar index `i`: at each step the
/// first edge whose range contains the next scalar is taken and consumes
/// it; when no edge matches, the run ends, at index `i` if step `s`
/// accepts and with failure otherwise.
pub open spec fn sp_sym(steps: Seq<Step<CharRange>>, t: Seq<char>, i: int, s: int) -> Option<int>
    decreases t.len() - i,
{
    if i < 0 || i >= t.len() {
        if steps[s].1 {
            Some(i)
        } else {
            None
        }
    } else {
        match sym_match(steps[s].0@, t[i]) {
            Some(e) => sp_sym(steps, t, i + 1, e.1 as int),
            None => if steps[s].1 {
                Some(i)
            } else {
                None
            },
        }
    }
}

/// Parses rule `r` at scalar index `i`: first the memo candidates that
/// start before the current byte offset are walked past and the front
/// candidate is reused if [`memo_hit`] allows; otherwise the rule body
/// runs, and a body acceptance that consumed nothing is turned into
/// failure.
pub open spec fn sp_parse(
    g: Seq<Rule>,
    t: Seq<char>,
    edit: (int, int),
    ms: Seq<GNode>,
    i: int,
    r: int,
    fuel: nat,
) -> PRes
    decreases fuel, 2int, 0int,
{
    let off = boff(t, i);
    let ms1 = memo_scan(ms, off);
    if fuel == 0 {
        PRes { ms: ms1, i, node: None }
    } else if memo_hit(ms1, off, r, edit) {
        PRes { ms: ms1, i: chars_to(t, i, ms1[0].span.1), node: Some(ms1[0]) }
    } else {
        match g[r] {
            Rule::Symbol(steps) => match sp_sym(steps@, t, i, 0) {
                Some(j) => if j > i {
                    PRes {
                        ms: ms1,
                        i: j,
                        node: Some(GNode { span: (off, boff(t, j)), rule: r, subs: Seq::empty() }),
                    }
                } else {
                    PRes { ms: ms1, i, node: None }
                },
                None => PRes { ms: ms1, i, node: None },
            },
            Rule::Automata(steps) => {
                let a = sp_auto(g, t, edit, ms1, i, steps@, 0, Seq::empty(), (fuel - 1) as nat);
                match a.subs {
                    Some(subs) => if a.i > i {
                        PRes {
                            ms: a.ms,
                            i: a.i,
                            node: Some(GNode { span: (off, boff(t, a.i)), rule: r, subs }),
                        }
                    } else {
                        PRes { ms: a.ms, i, node: None }
                    },
                    None => PRes { ms: a.ms, i, node: None },
                }
            },
        }
    }
}

/// Runs an automata body from step `s`, having gathered `subs` so far:
/// while an edge of the current step matches, its child is appended and
/// the run moves to that edge's target step; when no edge matches (or
/// the fuel is spent), the run ends, with the children if the current
/// step accepts and with failure otherwise.
pub open spec fn sp_auto(
    g: Seq<Rule>,
    t: Seq<char>,
    edit: (int, int),
    ms: Seq<GNode>,
    i: int,
    steps: Seq<Step<usize>>,
    s: int,
    subs: Seq<GNode>,
    fuel: nat,
) -> ARes
    decreases fuel, 1int, 0int,
{
    if fuel == 0 {
        ARes { ms, i, subs: if steps[s].1 { Some(subs) } else { None } }
    } else {
        let e = sp_edges(g, t, edit, ms, i, steps[s].0@, fuel);
        match e.hit {
            Some((node, next)) => sp_auto(
                g,
                t,
                edit,
                e.ms,
                e.i,
                steps,
                next,
                subs.push(node),
                (fuel - 1) as nat,
            ),
            None => ARes { ms: e.ms, i, subs: if steps[s].1 { Some(subs) } else { None } },
        }
    }
}

/// Tries the edges of one automata step in order: the first edge whose
/// rule parses yields the child and the edge's target step.  A failed
/// attempt restores the scalar index but keeps the memo state it walked.
pub open spec fn sp_edges(
    g: Seq<Rule>,
    t: Seq<char>,
    edit: (int, int),
    ms: Seq<GNode>,
    i: int,
    edges: Seq<(usize, usize)>,
    fuel: nat,
) -> ERes
    decreases fuel, 0int, edges.len(),
{
    if edges.len() == 0 || fuel == 0 {
        ERes { ms, i, hit: None }
    } else {
        let c = sp_parse(g, t, edit, ms, i, edges[0].0 as int, (fuel - 1) as nat);
        match c.node {
            Some(node) => ERes { ms: c.ms, i: c.i, hit: Some((node, edges[0].1 as int)) },
            None => sp_edges(g, t, edit, c.ms, i, edges.drop_first(), fuel),
        }
    }
}

/// Every memo candidate is a well-formed tree.
pub open spec fn ms_wf(ms: Seq<GNode>, g: Seq<Rule>, t: Seq<char>) -> bool {
    forall|k: int| 0 <= k < ms.len() ==> tree_wf(#[trigger] ms[k], g, t)
}

/// The children gathered by an automata run: well-formed trees covering
/// `[lo, hi)` contiguously, in order.
pub open spec fn subs_linked(subs: Seq<GNode>, lo: int, hi: int, g: Seq<Rule>, t: Seq<char>) -> bool {
    &&& (subs.len() == 0 ==> lo == hi)
    &&& (subs.len() > 0 ==> subs[0].span.0 == lo && subs[subs.len() - 1].span.1 == hi)
    &&& (forall|k: int| 0 <= k < subs.len() - 1 ==> (#[trigger] subs[k]).span.1 == subs[k + 1].span.0)
    &&& (forall|k: int| 0 <= k < subs.len() ==> tree_wf(#[trigger] subs[k], g, t))
}

pub proof fn lemma_memo_scan_wf(ms: Seq<GNode>, off: int, g: Seq<Rule>, t: Seq<char>)
    requires
        ms_wf(ms, g, t),
    ensures
        ms_wf(memo_scan(ms, off), g, t),
    decreases ms.len(),
{
    if ms.len() > 0 && ms[0].span.0 < off {
        assert forall|k: int| 0 <= k < ms.drop_first().len() implies tree_wf(
            #[trigger] ms.drop_first()[k],
            g,
            t,
        ) by {
            assert(ms.drop_first()[k] == ms[k + 1]);
        }
        lemma_memo_scan_wf(ms.drop_first(), off, g, t);
    }
}

/// Walking to a boundary at or past the current offset reaches exactly
/// the scalar index of that boundary.
pub proof fn lemma_chars_to(t: Seq<char>, i: int, target: int)
    requires
        0 <= i <= t.len(),
        boff(t, i) <= target,
        is_boundary(t, target),
    ensures
        ({
            let j = chars_to(t, i, target);
            &&& i <= j <= t.len()
            &&& boff(t, j) == target
            &&& (boff(t, i) < target ==> i < j)
        }),
    decreases t.len() - i,
{
    let w = choose|w: int| 0 <= w <= t.len() && boff(t, w) == target;
    if boff(t, i) < target {
        if i >= w {
            lemma_boff_mono(t, w, i);
            assert(false);
        }
        assert(i < t.len());
        lemma_boff_step(t, i);
        if boff(t, i + 1) > target {
            lemma_boff_mono(t, i + 1, w);
            assert(false);
        }
        lemma_chars_to(t, i + 1, target);
    }
}

pub proof fn lemma_sym_bounds(steps: Seq<Step<CharRange>>, t: Seq<char>, i: int, s: int)
    requires
        0 <= i <= t.len(),
    ensures
        (sp_sym(steps, t, i, s) matches Some(j) ==> i <= j <= t.len()),
    decreases t.len() - i,
{
    if 0 <= i < t.len() {
        match sym_match(steps[s].0@, t[i]) {
            Some(e) => {
                lemma_sym_bounds(steps, t, i + 1, e.1 as int);
            },
            None => {},
        }
    }
}

/// Well-formedness of what a parse returns: the memo state stays
/// well-formed, the scalar index never moves backwards, a failure leaves
/// it in place, and a produced node is a well-formed tree of the parsed
/// rule whose span runs from the offset where the parse began to the
/// offset where it ended, covering at least one byte.
pub proof fn lemma_parse_wf(
    g: Seq<Rule>,
    t: Seq<char>,
    edit: (int, int),
    ms: Seq<GNode>,
    i: int,
    r: int,
    fuel: nat,
)
    requires
        lang_wf(g),
        0 <= i <= t.len(),
        0 <= r < g.len(),
        ms_wf(ms, g, t),
    ensures
        ({
            let m = sp_parse(g, t, edit, ms, i, r, fuel);
            &&& ms_wf(m.ms, g, t)
            &&& i <= m.i <= t.len()
            &&& (m.node is None ==> m.i == i)
            &&& (m.node matches Some(n) ==> {
                &&& tree_wf(n, g, t)
                &&& n.rule == r
                &&& n.span.0 == boff(t, i)
                &&& n.span.1 == boff(t, m.i)
                &&& i < m.i
            })
        }),
    decreases fuel, 2int, 0int,
{
    let off = boff(t, i);
    let ms1 = memo_scan(ms, off);
    lemma_memo_scan_wf(ms, off, g, t);
    lemma_boff_ends(t);
    lemma_boff_mono(t, 0, i);
    lemma_boff_mono(t, i, t.len() as int);
    if fuel == 0 {
    } else if memo_hit(ms1, off, r, edit) {
        let n = ms1[0];
        assert(tree_wf(n, g, t));
        crate::spans::lemma_boundary_range(t, n.span.1);
        lemma_chars_to(t, i, n.span.1);
    } else {
        match g[r] {
            Rule::Symbol(steps) => {
                lemma_sym_bounds(steps@, t, i, 0);
                match sp_sym(steps@, t, i, 0) {
                    Some(j) => {
                        if j > i {
                            lemma_boff_mono(t, i, j);
                            lemma_boff_mono(t, j, t.len() as int);
                            let n = GNode {
                                span: (off, boff(t, j)),
                                rule: r,
                                subs: Seq::empty(),
                            };
                            assert(tree_wf(n, g, t));
                        }
                    },
                    None => {},
                }
            },
            Rule::Automata(steps) => {
                assert(rule_wf(g[r], g.len() as int));
                lemma_auto_wf(g, t, edit, ms1, i, steps@, 0, Seq::empty(), (fuel - 1) as nat, off);
                let a = sp_auto(g, t, edit, ms1, i, steps@, 0, Seq::empty(), (fuel - 1) as nat);
                match a.subs {
                    Some(ss) => {
                        if a.i > i {
                            lemma_boff_mono(t, i, a.i);
                            lemma_boff_mono(t, a.i, t.len() as int);
                            if ss.len() == 0 {
                                lemma_boff_injective(t, i, a.i);
                                assert(false);
                            }
                            let n = GNode { span: (off, boff(t, a.i)), rule: r, subs: ss };
                            crate::node::lemma_trees_wf(ss, g, t);
                            assert(tree_wf(n, g, t));
                        }
                    },
                    None => {},
                }
            },
        }
    }
}

pub proof fn lemma_auto_wf(
    g: Seq<Rule>,
    t: Seq<char>,
    edit: (int, int),
    ms: Seq<GNode>,
    i: int,
    steps: Seq<Step<usize>>,
    s: int,
    subs: Seq<GNode>,
    fuel: nat,
    lo0: int,
)
    requires
        lang_wf(g),
        0 <= i <= t.len(),
        ms_wf(ms, g, t),
        steps_wf(steps),
        edges_in_lang(steps, g.len() as int),
        0 <= s < steps.len(),
        subs_linked(subs, lo0, boff(t, i), g, t),
    ensures
        ({
            let a = sp_auto(g, t, edit, ms, i, steps, s, subs, fuel);
            &&& ms_wf(a.ms, g, t)
            &&& i <= a.i <= t.len()
            &&& (a.subs matches Some(ss) ==> subs_linked(ss, lo0, boff(t, a.i), g, t))
        }),
    decreases fuel, 1int, 0int,
{
    if fuel == 0 {
    } else {
        assert forall|e: int| 0 <= e < steps[s].0@.len() implies (((#[trigger] steps[s].0@[e]).0
            as int) < g.len() && ((steps[s].0@[e]).1 as int) < steps.len()) by {}
        lemma_edges_wf(g, t, edit, ms, i, steps[s].0@, fuel, steps.len() as int);
        let e = sp_edges(g, t, edit, ms, i, steps[s].0@, fuel);
        match e.hit {
            Some((node, next)) => {
                let pushed = subs.push(node);
                assert(subs_linked(pushed, lo0, boff(t, e.i), g, t)) by {
                    assert(pushed[pushed.len() - 1] == node);
                    assert forall|k: int| 0 <= k < pushed.len() - 1 implies (
                    #[trigger] pushed[k]).span.1 == pushed[k + 1].span.0 by {
                        assert(pushed[k] == subs[k]);
                        if k < pushed.len() - 2 {
                            assert(pushed[k + 1] == subs[k + 1]);
                        } else {
                            assert(pushed[k + 1] == node);
                            assert(subs[subs.len() - 1].span.1 == boff(t, i));
                        }
                    }
                    assert forall|k: int| 0 <= k < pushed.len() implies tree_wf(
                        #[trigger] pushed[k],
                        g,
                        t,
                    ) by {
                        if k < pushed.len() - 1 {
                            assert(pushed[k] == subs[k]);
                        }
                    }
                }
                lemma_auto_wf(g, t, edit, e.ms, e.i, steps, next, pushed, (fuel - 1) as nat, lo0);
            },
            None => {},
        }
    }
}

pub proof fn lemma_edges_wf(
    g: Seq<Rule>,
    t: Seq<char>,
    edit: (int, int),
    ms: Seq<GNode>,
    i: int,
    edges: Seq<(usize, usize)>,
    fuel: nat,
    nb: int,
)
    requires
        lang_wf(g),
        0 <= i <= t.len(),
        ms_wf(ms, g, t),
        forall|e: int| 0 <= e < edges.len() ==> ((#[trigger] edges[e]).0 as int) < g.len(),
        forall|e: int| 0 <= e < edges.len() ==> ((#[trigger] edges[e]).1 as int) < nb,
    ensures
        ({
            let res = sp_edges(g, t, edit, ms, i, edges, fuel);
            &&& ms_wf(res.ms, g, t)
            &&& i <= res.i <= t.len()
            &&& (res.hit is None ==> res.i == i)
            &&& (res.hit matches Some((node, next)) ==> {
                &&& tree_wf(node, g, t)
                &&& node.span.0 == boff(t, i)
                &&& node.span.1 == boff(t, res.i)
                &&& i < res.i
                &&& 0 <= next < nb
            })
        }),
    decreases fuel, 0int, edges.len(),
{
    if edges.len() == 0 || fuel == 0 {
    } else {
        lemma_parse_wf(g, t, edit, ms, i, edges[0].0 as int, (fuel - 1) as nat);
        let c = sp_parse(g, t, edit, ms, i, edges[0].0 as int, (fuel - 1) as nat);
        match c.node {
            Some(_) => {},
            None => {
                assert forall|e: int| 0 <= e < edges.drop_first().len() implies ((
                #[trigger] edges.drop_first()[e]).0 as int) < g.len() && ((edges.drop_first()[e]).1
                    as int) < nb by {
                    assert(edges.drop_first()[e] == edges[e + 1]);
                }
                lemma_edges_wf(g, t, edit, c.ms, i, edges.drop_first(), fuel, nb);
            },
        }
    }
}

/// The fuel a document grants a parse: enough for any derivation whose
/// rule nesting at one offset is bounded by the grammar size, capped at
/// the machine limit.
pub open spec fn doc_fuel(n_chars: int, n_rules: int) -> nat {
    if (n_chars + 1) * (n_rules + 1) + 1 <= usize::MAX as int {
        (((n_chars + 1) * (n_rules + 1) + 1) as nat)
    } else {
        usize::MAX as nat
    }
}

} // verus!
