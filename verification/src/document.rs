//! A parsed document: a text buffer and the syntax tree of its content.
//!
//! A document is created empty over a borrowed language and is changed
//! only through [`Document::edit`], which replaces a byte span of the
//! text, shifts the spans of the previous tree, and reparses, reusing
//! the subtrees the edit did not touch.

use vstd::prelude::*;

use crate::node::GNode;
use crate::node::Node;
use crate::node::gshift;
use crate::node::lemma_gshift_wf;
use crate::node::pre_list;
use crate::node::shift_tree;
use crate::node::tree_wf;
use crate::nodeiter::NodeIter;
use crate::rules::Language;
use crate::rules::lang_wf;
use crate::semantics::doc_fuel;
use crate::semantics::sp_parse;
use crate::spans::blen;
use crate::text::Text;
use crate::text::edit_valid;
use crate::text::lemma_splice_props;
use crate::text::read_at;
use crate::text::splice;

verus! {

/// A code document.
pub struct Document<'a> {
    /// The language the document is parsed with.
    pub lang: &'a Language,
    /// The root node of the document's tree.
    pub root: Node,
    /// The document's text.
    pub text: Text,
}

/// The root node of an empty document: an empty span at the start of the
/// text, carrying rule 0, with no children.
pub open spec fn placeholder() -> GNode {
    GNode { span: (0, 0), rule: 0, subs: Seq::empty() }
}

impl<'a> Document<'a> {
    /// A document's invariant: its language is structurally valid, its
    /// text fits the machine limit, and its root is a well-formed tree
    /// over both, carrying rule 0 and starting at offset 0.
    pub open spec fn wf(&self) -> bool {
        &&& lang_wf(self.lang@)
        &&& self.text.wf()
        &&& tree_wf(self.root@, self.lang@, self.text@)
        &&& self.root@.span.0 == 0
        &&& self.root@.rule == 0
    }

    /// Initializes an empty document of the given language.
    pub fn new(language: &'a Language) -> (r: Document<'a>)
        requires
            lang_wf(language@),
        ensures
            r.wf(),
            r.lang == language,
            r.text@ == Seq::<char>::empty(),
            r.root@ == placeholder(),
    {
        let root = Node { span: (0, 0), rule: 0, subs: Vec::new() };
        let text = Text::new();
        proof {
            crate::node::lemma_nodes_view(root.subs@);
            crate::spans::lemma_boff_ends(text@);
            assert(root@ =~= placeholder());
        }
        Document { lang: language, root, text }
    }

    /// Replaces the byte range `span` of the text with `edit` and
    /// reparses.  The previous tree's spans are first shifted by the
    /// edit's map; if the edited text is empty the shifted tree stays,
    /// otherwise rule 0 is parsed with the shifted tree as memo source
    /// and the produced node becomes the root.  When rule 0 does not
    /// match at all, the shifted tree stays in place.  Returns whether
    /// the edit was accepted; a rejected edit leaves the document
    /// unchanged.
    pub fn edit(&mut self, span: (usize, usize), edit: &str) -> (ok: bool)
        requires
            old(self).wf(),
        ensures
            final(self).wf(),
            final(self).lang == old(self).lang,
            ok == edit_valid(old(self).text@, (span.0 as int, span.1 as int), edit@),
            !ok ==> final(self).text@ == old(self).text@ && final(self).root@ == old(self).root@,
            ok ==> ({
                let t2 = splice(old(self).text@, (span.0 as int, span.1 as int), edit@);
                let sh = gshift(
                    old(self).root@,
                    span.0 as int,
                    span.1 as int - span.0 as int,
                    blen(edit@),
                );
                let m = sp_parse(
                    old(self).lang@,
                    t2,
                    (span.0 as int, span.0 as int + blen(edit@)),
                    pre_list(sh.subs),
                    0,
                    0,
                    doc_fuel(t2.len() as int, old(self).lang@.len() as int),
                );
                &&& final(self).text@ == t2
                &&& (blen(t2) == 0 ==> final(self).root@ == sh)
                &&& (blen(t2) != 0 ==> (m.node matches Some(nd) ==> final(self).root@ == nd))
                &&& (blen(t2) != 0 && m.node is None ==> final(self).root@ == sh)
            }),
    {
        let ghost t1 = self.text@;
        let ghost r1 = self.root@;
        let ghost g = self.lang@;
        let old_len = self.text.byte_len();
        let accepted = self.text.edit(span, edit);
        if !accepted {
            return false;
        }
        proof {
            lemma_splice_props(t1, (span.0 as int, span.1 as int), edit@);
            crate::spans::lemma_blen_bounds(edit@);
        }
        let new_len = self.text.byte_len();
        let removed = span.1 - span.0;
        let added = new_len - (old_len - removed);
        proof {
            // `added` is the byte length of the replacement, and the
            // shift pass cannot overflow: every shifted position is a
            // boundary of the edited text.
            assert(added as int == blen(edit@));
            assert(span.0 as int + added as int <= blen(self.text@));
        }
        let shifted = shift_tree(&self.root, span.0, removed, added, Ghost(g), Ghost(t1));
        self.root = shifted;
        proof {
            lemma_gshift_wf(r1, g, t1, self.text@, span.0 as int, removed as int, added as int);
        }
        if new_len == 0 {
            return true;
        }
        let espan = (span.0, span.0 + added);
        let new_root = crate::parser::parse(self, espan);
        match new_root {
            Some(n) => {
                self.root = n;
            },
            None => {},
        }
        true
    }

    /// The scalar at byte offset `offset` of the text.
    pub fn read(&self, offset: usize) -> (r: Option<char>)
        requires
            self.wf(),
        ensures
            r == read_at(self.text@, offset as int),
    {
        self.text.read(offset)
    }

    /// A pre-order walk over the nodes of the document's tree.
    pub fn node_iter(&self) -> (r: NodeIter<'_>)
        ensures
            r.wf(),
            r.remaining() == pre_list(self.root@.subs),
    {
        NodeIter::new(&self.root)
    }
}

} // verus!
