//! Parse-tree nodes.
//!
//! A node carries a half-open byte span, the index of the rule that
//! produced it, and its ordered children.  Trees are owned values: an
//! edit shifts the previous tree by rebuilding it, and the parser reuses
//! an untouched subtree by cloning it into the new tree.
//!
//! The mathematical mirror of a node is [`GNode`], whose children form a
//! `Seq`; every contract about trees is stated over that mirror.

use vstd::prelude::*;

use crate::rules::Rule;
use crate::spans::blen;
use crate::spans::is_boundary;

verus! {

/// A node in the document tree.
pub struct Node {
    /// The half-open byte span of the node in the document.
    pub span: (usize, usize),
    /// The index of the grammar rule that created the node.
    pub rule: usize,
    /// The child nodes, in textual order.
    pub subs: Vec<Node>,
}

/// The mathematical value of a node.
#[verifier::ext_equal]
pub ghost struct GNode {
    pub span: (int, int),
    pub rule: int,
    pub subs: Seq<GNode>,
}

pub open spec fn node_view(n: Node) -> GNode
    decreases n,
{
    GNode {
        span: (n.span.0 as int, n.span.1 as int),
        rule: n.rule as int,
        subs: nodes_view(n.subs@),
    }
}

pub open spec fn nodes_view(s: Seq<Node>) -> Seq<GNode>
    decreases s,
{
    if s.len() == 0 {
        Seq::empty()
    } else {
        seq![node_view(s[0])] + nodes_view(s.drop_first())
    }
}

impl View for Node {
    type V = GNode;

    open spec fn view(&self) -> GNode {
        node_view(*self)
    }
}

/// `nodes_view` maps `node_view` over the sequence.
pub proof fn lemma_nodes_view(s: Seq<Node>)
    ensures
        nodes_view(s).len() == s.len(),
        forall|k: int| 0 <= k < s.len() ==> #[trigger] nodes_view(s)[k] == node_view(s[k]),
    decreases s,
{
    if s.len() > 0 {
        lemma_nodes_view(s.drop_first());
        assert forall|k: int| 0 <= k < s.len() implies #[trigger] nodes_view(s)[k] == node_view(
            s[k],
        ) by {
            if k > 0 {
                assert(nodes_view(s)[k] == nodes_view(s.drop_first())[k - 1]);
                assert(s.drop_first()[k - 1] == s[k]);
            }
        }
    }
}

/// Structural and positional validity of a tree over language `g` and
/// text `t`: rule indices name rules of `g`, spans are ordered and end on
/// scalar boundaries of `t`, a symbol node is a leaf, and an automata
/// node's children cover its span contiguously.
pub open spec fn tree_wf(n: GNode, g: Seq<Rule>, t: Seq<char>) -> bool
    decreases n,
{
    &&& 0 <= n.rule < g.len()
    &&& 0 <= n.span.0 <= n.span.1
    &&& is_boundary(t, n.span.0)
    &&& is_boundary(t, n.span.1)
    &&& match g[n.rule] {
        Rule::Symbol(_) => n.subs.len() == 0,
        Rule::Automata(_) => {
            // An automata node covers its span contiguously with its
            // children.  Only a node of empty span may be a childless
            // automata node: the placeholder root of an empty document,
            // or a span emptied by the shift pass.
            if n.subs.len() == 0 {
                n.span.0 == n.span.1
            } else {
                &&& n.subs[0].span.0 == n.span.0
                &&& n.subs[n.subs.len() - 1].span.1 == n.span.1
                &&& forall|k: int|
                    0 <= k < n.subs.len() - 1 ==> (#[trigger] n.subs[k]).span.1 == n.subs[k
                        + 1].span.0
            }
        },
    }
    &&& trees_wf(n.subs, g, t)
}

pub open spec fn trees_wf(s: Seq<GNode>, g: Seq<Rule>, t: Seq<char>) -> bool
    decreases s,
{
    if s.len() == 0 {
        true
    } else {
        tree_wf(s[0], g, t) && trees_wf(s.drop_first(), g, t)
    }
}

/// `trees_wf` holds of each element.
pub proof fn lemma_trees_wf(s: Seq<GNode>, g: Seq<Rule>, t: Seq<char>)
    ensures
        trees_wf(s, g, t) <==> (forall|k: int| 0 <= k < s.len() ==> tree_wf(#[trigger] s[k], g, t)),
    decreases s,
{
    if s.len() > 0 {
        lemma_trees_wf(s.drop_first(), g, t);
        if trees_wf(s, g, t) {
            assert forall|k: int| 0 <= k < s.len() implies tree_wf(#[trigger] s[k], g, t) by {
                if k > 0 {
                    assert(s.drop_first()[k - 1] == s[k]);
                    assert(tree_wf(s.drop_first()[k - 1], g, t));
                }
            }
        }
        if forall|k: int| 0 <= k < s.len() ==> tree_wf(#[trigger] s[k], g, t) {
            assert forall|k: int| 0 <= k < s.drop_first().len() implies tree_wf(
                #[trigger] s.drop_first()[k],
                g,
                t,
            ) by {
                assert(s.drop_first()[k] == s[k + 1]);
            }
        }
    }
}

/// The descendants of `n` in pre-order: the node itself, then its
/// children's flattenings, left to right.
pub open spec fn pre_node(n: GNode) -> Seq<GNode>
    decreases n,
{
    seq![n] + pre_list(n.subs)
}

/// The pre-order flattening of a forest.
pub open spec fn pre_list(s: Seq<GNode>) -> Seq<GNode>
    decreases s,
{
    if s.len() == 0 {
        Seq::empty()
    } else {
        pre_node(s[0]) + pre_list(s.drop_first())
    }
}

/// The mathematical value of an optional node.
pub open spec fn opt_view(o: Option<Node>) -> Option<GNode> {
    match o {
        Some(n) => Some(n@),
        None => None,
    }
}

/// Every node of the pre-order flattening of a forest of well-formed
/// trees is well-formed.
pub proof fn lemma_pre_list_wf(s: Seq<GNode>, g: Seq<Rule>, t: Seq<char>)
    requires
        forall|k: int| 0 <= k < s.len() ==> tree_wf(#[trigger] s[k], g, t),
    ensures
        forall|k: int| 0 <= k < pre_list(s).len() ==> tree_wf(#[trigger] pre_list(s)[k], g, t),
    decreases s,
{
    if s.len() > 0 {
        lemma_trees_wf(s[0].subs, g, t);
        assert(trees_wf(s[0].subs, g, t));
        lemma_pre_list_wf(s[0].subs, g, t);
        assert forall|k: int| 0 <= k < s.drop_first().len() implies tree_wf(
            #[trigger] s.drop_first()[k],
            g,
            t,
        ) by {
            assert(s.drop_first()[k] == s[k + 1]);
        }
        lemma_pre_list_wf(s.drop_first(), g, t);
        assert forall|k: int| 0 <= k < pre_list(s).len() implies tree_wf(
            #[trigger] pre_list(s)[k],
            g,
            t,
        ) by {
            let head = pre_node(s[0]);
            if k < head.len() {
                assert(pre_list(s)[k] == head[k]);
                if k == 0 {
                    assert(head[0] == s[0]);
                } else {
                    assert(head[k] == pre_list(s[0].subs)[k - 1]);
                }
            } else {
                assert(pre_list(s)[k] == pre_list(s.drop_first())[k - head.len()]);
            }
        }
    }
}

/// Where a byte position of the previous text stands after an edit that
/// replaced the byte range `[start, start + removed)` with `added` bytes.
/// A position inside the replaced range collapses to the end of the
/// replacement; the map is monotone and total.
pub open spec fn shift_pos(x: int, start: int, removed: int, added: int) -> int {
    if x <= start {
        x
    } else if x >= start + removed {
        x - removed + added
    } else {
        start + added
    }
}

/// The previous tree with every span endpoint moved by [`shift_pos`].
pub open spec fn gshift(n: GNode, start: int, removed: int, added: int) -> GNode
    decreases n,
{
    GNode {
        span: (
            shift_pos(n.span.0, start, removed, added),
            shift_pos(n.span.1, start, removed, added),
        ),
        rule: n.rule,
        subs: gshift_list(n.subs, start, removed, added),
    }
}

pub open spec fn gshift_list(s: Seq<GNode>, start: int, removed: int, added: int) -> Seq<GNode>
    decreases s,
{
    if s.len() == 0 {
        Seq::empty()
    } else {
        seq![gshift(s[0], start, removed, added)] + gshift_list(s.drop_first(), start, removed, added)
    }
}

/// `gshift_list` maps `gshift` over the sequence.
pub proof fn lemma_gshift_list(s: Seq<GNode>, start: int, removed: int, added: int)
    ensures
        gshift_list(s, start, removed, added).len() == s.len(),
        forall|k: int|
            0 <= k < s.len() ==> #[trigger] gshift_list(s, start, removed, added)[k] == gshift(
                s[k],
                start,
                removed,
                added,
            ),
    decreases s,
{
    if s.len() > 0 {
        lemma_gshift_list(s.drop_first(), start, removed, added);
        assert forall|k: int|
            0 <= k < s.len() implies #[trigger] gshift_list(s, start, removed, added)[k] == gshift(
            s[k],
            start,
            removed,
            added,
        ) by {
            if k > 0 {
                assert(gshift_list(s, start, removed, added)[k] == gshift_list(
                    s.drop_first(),
                    start,
                    removed,
                    added,
                )[k - 1]);
                assert(s.drop_first()[k - 1] == s[k]);
            }
        }
    }
}

/// The shift map keeps the order of positions.
pub proof fn lemma_shift_pos_mono(a: int, b: int, start: int, removed: int, added: int)
    requires
        a <= b,
        0 <= removed,
        0 <= added,
    ensures
        shift_pos(a, start, removed, added) <= shift_pos(b, start, removed, added),
{
}

/// Shifting preserves well-formedness, given that the shift map carries
/// scalar boundaries of the previous text to scalar boundaries of the
/// edited text.
pub proof fn lemma_gshift_wf(
    n: GNode,
    g: Seq<Rule>,
    told: Seq<char>,
    tnew: Seq<char>,
    start: int,
    removed: int,
    added: int,
)
    requires
        tree_wf(n, g, told),
        0 <= start,
        0 <= removed,
        0 <= added,
        forall|x: int|
            is_boundary(told, x) ==> is_boundary(tnew, #[trigger] shift_pos(x, start, removed, added)),
    ensures
        tree_wf(gshift(n, start, removed, added), g, tnew),
    decreases n,
{
    let m = gshift(n, start, removed, added);
    lemma_gshift_list(n.subs, start, removed, added);
    lemma_trees_wf(n.subs, g, told);
    lemma_shift_pos_mono(n.span.0, n.span.1, start, removed, added);
    assert forall|k: int| 0 <= k < m.subs.len() implies tree_wf(#[trigger] m.subs[k], g, tnew) by {
        lemma_gshift_wf(n.subs[k], g, told, tnew, start, removed, added);
    }
    lemma_trees_wf(m.subs, g, tnew);
    if m.subs.len() > 0 {
        assert(m.subs[0].span.0 == m.span.0);
        assert(m.subs[m.subs.len() - 1].span.1 == m.span.1);
        assert forall|k: int|
            0 <= k < m.subs.len() - 1 implies (#[trigger] m.subs[k]).span.1 == m.subs[k
            + 1].span.0 by {
            assert(n.subs[k].span.1 == n.subs[k + 1].span.0);
        }
    }
}

fn shift_pos_exec(
    x: usize,
    start: usize,
    removed: usize,
    added: usize,
    Ghost(bound): Ghost<int>,
) -> (r: usize)
    requires
        x <= bound,
        removed <= bound,
        bound - removed + added <= usize::MAX,
        start + added <= usize::MAX,
    ensures
        r as int == shift_pos(x as int, start as int, removed as int, added as int),
{
    if x <= start {
        x
    } else if x - start >= removed {
        x - removed + added
    } else {
        start + added
    }
}

/// Rebuilds a tree with every span endpoint moved by the shift map of an
/// edit that replaced `removed` bytes at `start` with `added` bytes.
#[verifier::rlimit(50)]
pub(crate) fn shift_tree(
    n: &Node,
    start: usize,
    removed: usize,
    added: usize,
    Ghost(g): Ghost<Seq<Rule>>,
    Ghost(t): Ghost<Seq<char>>,
) -> (r: Node)
    requires
        tree_wf(n@, g, t),
        removed <= blen(t),
        blen(t) - removed + added <= usize::MAX,
        start + added <= usize::MAX,
    ensures
        r@ == gshift(n@, start as int, removed as int, added as int),
    decreases *n,
{
    proof {
        crate::spans::lemma_boundary_range(t, n@.span.0);
        crate::spans::lemma_boundary_range(t, n@.span.1);
        lemma_nodes_view(n.subs@);
        lemma_trees_wf(n@.subs, g, t);
    }
    let lo = shift_pos_exec(n.span.0, start, removed, added, Ghost(blen(t)));
    let hi = shift_pos_exec(n.span.1, start, removed, added, Ghost(blen(t)));
    let mut subs: Vec<Node> = Vec::new();
    let mut k: usize = 0;
    while k < n.subs.len()
        invariant
            0 <= k <= n.subs.len(),
            subs@.len() == k,
            removed <= blen(t),
            blen(t) - removed + added <= usize::MAX,
            start + added <= usize::MAX,
            n@.subs.len() == n.subs@.len(),
            forall|j: int| 0 <= j < n.subs@.len() ==> (#[trigger] n.subs@[j])@ == n@.subs[j],
            forall|j: int| 0 <= j < n.subs@.len() ==> tree_wf(#[trigger] n@.subs[j], g, t),
            forall|j: int|
                0 <= j < k ==> (#[trigger] subs@[j])@ == gshift(
                    n@.subs[j],
                    start as int,
                    removed as int,
                    added as int,
                ),
        decreases n.subs.len() - k,
    {
        let c = shift_tree(&n.subs[k], start, removed, added, Ghost(g), Ghost(t));
        subs.push(c);
        k = k + 1;
    }
    let r = Node { span: (lo, hi), rule: n.rule, subs };
    proof {
        lemma_nodes_view(r.subs@);
        lemma_gshift_list(n@.subs, start as int, removed as int, added as int);
        assert(r@.subs =~= gshift_list(n@.subs, start as int, removed as int, added as int));
        assert(r@ =~= gshift(n@, start as int, removed as int, added as int));
    }
    r
}

/// A structural copy of a tree: the copy has the same mathematical value.
#[verifier::loop_isolation(false)]
pub fn clone_node(n: &Node) -> (r: Node)
    ensures
        r@ == n@,
    decreases *n,
{
    proof {
        lemma_nodes_view(n.subs@);
    }
    let mut subs: Vec<Node> = Vec::new();
    let mut k: usize = 0;
    while k < n.subs.len()
        invariant
            0 <= k <= n.subs.len(),
            subs@.len() == k,
            forall|j: int| 0 <= j < k ==> (#[trigger] subs@[j])@ == n.subs@[j]@,
        decreases n.subs.len() - k,
    {
        let c = clone_node(&n.subs[k]);
        subs.push(c);
        k = k + 1;
    }
    let r = Node { span: n.span, rule: n.rule, subs };
    proof {
        lemma_nodes_view(r.subs@);
        assert(r@.subs =~= n@.subs);
        assert(r@ =~= n@);
    }
    r
}

} // verus!
