//! The grammar: an indexed table of rules.
//!
//! A rule is a small deterministic state machine.  Each of its steps holds
//! an ordered edge list and an accepting flag.  A `Symbol` rule labels its
//! edges with scalar ranges and produces a leaf node; an `Automata` rule
//! labels its edges with rule indices and produces an internal node with
//! one child per matched edge.  Rule identity is index equality within the
//! language, and rule 0 is the document root.

use vstd::prelude::*;

verus! {

/// An inclusive range of scalar values: the label of a symbol-rule edge.
#[derive(Clone, Copy)]
pub struct CharRange {
    pub lo: char,
    pub hi: char,
}

/// Whether `c` lies in the inclusive range `r`.
pub open spec fn in_range(r: CharRange, c: char) -> bool {
    r.lo as u32 <= c as u32 && c as u32 <= r.hi as u32
}

/// One state of a rule's machine: an ordered edge list, each edge a label
/// paired with the index of the step it leads to, and an accepting flag.
pub struct Step<T>(pub Vec<(T, usize)>, pub bool);

impl<T> Step<T> {
    /// The edges of this step, in the order they are tried.
    pub fn rules(&self) -> (r: &Vec<(T, usize)>)
        ensures
            r == &self.0,
    {
        &self.0
    }

    /// Whether a match may end at this step.
    pub fn is_final(&self) -> (r: bool)
        ensures
            r == self.1,
    {
        self.1
    }
}

/// A rule of the grammar.
pub enum Rule {
    /// A machine over scalar ranges; a match produces a leaf node.
    Symbol(Vec<Step<CharRange>>),
    /// A machine over rule indices; a match produces an internal node.
    Automata(Vec<Step<usize>>),
}

/// A language is a table of rules, fixed before any parse.  Rule 0 is the
/// rule the document root is parsed with.
pub type Language = Vec<Rule>;

/// Every edge of every step leads to a step of the same rule.
pub open spec fn steps_wf<T>(steps: Seq<Step<T>>) -> bool {
    &&& steps.len() > 0
    &&& forall|s: int, e: int|
        0 <= s < steps.len() && 0 <= e < steps[s].0@.len() ==> (#[trigger] steps[s].0@[e]).1
            < steps.len()
}

/// Every automata edge names a rule of the language.
pub open spec fn edges_in_lang(steps: Seq<Step<usize>>, n_rules: int) -> bool {
    forall|s: int, e: int|
        0 <= s < steps.len() && 0 <= e < steps[s].0@.len() ==> (#[trigger] steps[s].0@[e]).0
            < n_rules
}

/// Structural validity of one rule within a language of `n_rules` rules.
pub open spec fn rule_wf(r: Rule, n_rules: int) -> bool {
    match r {
        Rule::Symbol(steps) => steps_wf(steps@),
        Rule::Automata(steps) => steps_wf(steps@) && edges_in_lang(steps@, n_rules),
    }
}

/// Structural validity of a language: it is non-empty, every step has a
/// step 0 to start from, every edge target is a step of its rule, and
/// every automata edge names a rule of the table.
pub open spec fn lang_wf(g: Seq<Rule>) -> bool {
    &&& g.len() > 0
    &&& forall|r: int| 0 <= r < g.len() ==> rule_wf(#[trigger] g[r], g.len() as int)
}

fn check_steps<T>(steps: &Vec<Step<T>>) -> (ok: bool)
    ensures
        ok == steps_wf(steps@),
{
    if steps.len() == 0 {
        return false;
    }
    let mut s: usize = 0;
    while s < steps.len()
        invariant
            0 <= s <= steps.len(),
            forall|s0: int, e0: int|
                0 <= s0 < s && 0 <= e0 < steps@[s0].0@.len() ==> (#[trigger] steps@[s0].0@[e0]).1
                    < steps@.len(),
        decreases steps.len() - s,
    {
        let edges = &steps[s].0;
        let mut e: usize = 0;
        while e < edges.len()
            invariant
                0 <= e <= edges.len(),
                0 <= s < steps.len(),
                edges == &steps@[s as int].0,
                forall|e0: int| 0 <= e0 < e ==> (#[trigger] edges@[e0]).1 < steps@.len(),
            decreases edges.len() - e,
        {
            if edges[e].1 >= steps.len() {
                return false;
            }
            e = e + 1;
        }
        s = s + 1;
    }
    true
}

fn check_edges_in_lang(steps: &Vec<Step<usize>>, n_rules: usize) -> (ok: bool)
    ensures
        ok == edges_in_lang(steps@, n_rules as int),
{
    let mut s: usize = 0;
    while s < steps.len()
        invariant
            0 <= s <= steps.len(),
            forall|s0: int, e0: int|
                0 <= s0 < s && 0 <= e0 < steps@[s0].0@.len() ==> (#[trigger] steps@[s0].0@[e0]).0
                    < n_rules,
        decreases steps.len() - s,
    {
        let edges = &steps[s].0;
        let mut e: usize = 0;
        while e < edges.len()
            invariant
                0 <= e <= edges.len(),
                0 <= s < steps.len(),
                edges == &steps@[s as int].0,
                forall|e0: int| 0 <= e0 < e ==> (#[trigger] edges@[e0]).0 < n_rules,
            decreases edges.len() - e,
        {
            if edges[e].0 >= n_rules {
                return false;
            }
            e = e + 1;
        }
        s = s + 1;
    }
    true
}

/// Whether `lang` is structurally valid.  A document may only be built
/// over a language this function accepts.
pub fn check_language(lang: &Language) -> (ok: bool)
    ensures
        ok == lang_wf(lang@),
{
    if lang.len() == 0 {
        return false;
    }
    let mut r: usize = 0;
    while r < lang.len()
        invariant
            0 <= r <= lang.len(),
            lang@.len() > 0,
            forall|r0: int| 0 <= r0 < r ==> rule_wf(#[trigger] lang@[r0], lang@.len() as int),
        decreases lang.len() - r,
    {
        let ok = match &lang[r] {
            Rule::Symbol(steps) => check_steps(steps),
            Rule::Automata(steps) => check_steps(steps) && check_edges_in_lang(steps, lang.len()),
        };
        if !ok {
            return false;
        }
        r = r + 1;
    }
    true
}

} // verus!
