//! The document's text buffer.
//!
//! The buffer holds a sequence of Unicode scalar values and is addressed
//! by byte offsets into its UTF-8 encoding.  An edit replaces a half-open
//! byte range by the scalars of a replacement string; an edit whose span
//! is not a pair of scalar boundaries in range, or that would grow the
//! buffer past the machine limit, is rejected and leaves the buffer
//! unchanged.

use vstd::prelude::*;
use vstd::string::StrSliceExecFns;

use crate::node::shift_pos;
use crate::spans::blen;
use crate::spans::boff;
use crate::spans::char_width;
use crate::spans::index_at;
use crate::spans::is_boundary;
use crate::spans::lemma_blen_concat;
use crate::spans::lemma_boff_ends;
use crate::spans::lemma_boff_injective;
use crate::spans::lemma_boff_mono;
use crate::spans::lemma_boff_step;
use crate::spans::lemma_boundary_range;

verus! {

/// The source text of a document.
pub struct Text(Vec<char>);

impl View for Text {
    type V = Seq<char>;

    closed spec fn view(&self) -> Seq<char> {
        self.0@
    }
}

/// `index_at` names the unique scalar index of a known boundary.
pub proof fn lemma_index_at(t: Seq<char>, ci: int)
    requires
        0 <= ci <= t.len(),
    ensures
        index_at(t, boff(t, ci)) == ci,
        is_boundary(t, boff(t, ci)),
{
    assert(is_boundary(t, boff(t, ci)));
    let w = index_at(t, boff(t, ci));
    lemma_boff_injective(t, w, ci);
}

/// Whether an edit that replaces the byte range `span` with the scalars
/// `ins` is accepted: the span is an ordered pair of scalar boundaries
/// within the text, and the edited text still fits the machine limit.
pub open spec fn edit_valid(t: Seq<char>, span: (int, int), ins: Seq<char>) -> bool {
    &&& 0 <= span.0 <= span.1 <= blen(t)
    &&& is_boundary(t, span.0)
    &&& is_boundary(t, span.1)
    &&& blen(t) - (span.1 - span.0) + blen(ins) <= usize::MAX
}

/// The text after an accepted edit: the scalars before the span, the
/// replacement, and the scalars after the span.
pub open spec fn splice(t: Seq<char>, span: (int, int), ins: Seq<char>) -> Seq<char> {
    t.subrange(0, index_at(t, span.0)) + ins + t.subrange(index_at(t, span.1), t.len() as int)
}

/// The scalar at byte offset `off`, if `off` is the boundary of a scalar
/// of the text.
pub open spec fn read_at(t: Seq<char>, off: int) -> Option<char> {
    if is_boundary(t, off) && index_at(t, off) < t.len() {
        Some(t[index_at(t, off)])
    } else {
        None
    }
}

/// The scalars of a string slice, in order.
fn str_chars(s: &str) -> (v: Vec<char>)
    ensures
        v@ == s@,
{
    let n = s.unicode_len();
    let mut v: Vec<char> = Vec::new();
    let mut i: usize = 0;
    while i < n
        invariant
            n == s@.len(),
            0 <= i <= n,
            v@.len() == i,
            forall|j: int| 0 <= j < i ==> v@[j] == s@[j],
        decreases n - i,
    {
        let c = s.get_char(i);
        v.push(c);
        i = i + 1;
    }
    proof {
        assert(v@ =~= s@);
    }
    v
}

/// The byte length of a scalar sequence, or `None` past the machine
/// limit.
fn blen_checked(v: &Vec<char>) -> (r: Option<usize>)
    ensures
        (r matches Some(n) ==> n as int == blen(v@)),
        (r is None ==> blen(v@) > usize::MAX),
{
    let mut acc: usize = 0;
    let mut i: usize = 0;
    proof {
        lemma_boff_ends(v@);
    }
    while i < v.len()
        invariant
            0 <= i <= v@.len(),
            acc as int == boff(v@, i as int),
        decreases v@.len() - i,
    {
        let w = char_width(v[i]);
        proof {
            lemma_boff_step(v@, i as int);
        }
        if acc > usize::MAX - w {
            proof {
                lemma_boff_mono(v@, i as int + 1, v@.len() as int);
                lemma_boff_ends(v@);
            }
            return None;
        }
        acc = acc + w;
        i = i + 1;
    }
    proof {
        lemma_boff_ends(v@);
    }
    Some(acc)
}

/// What an accepted edit does to byte lengths and scalar boundaries: the
/// text shrinks by the replaced bytes and grows by the replacement, and
/// the shift map of the edit carries every boundary of the previous text
/// to a boundary of the edited text.
pub proof fn lemma_splice_props(t: Seq<char>, span: (int, int), ins: Seq<char>)
    requires
        0 <= span.0 <= span.1 <= blen(t),
        is_boundary(t, span.0),
        is_boundary(t, span.1),
    ensures
        blen(splice(t, span, ins)) == blen(t) - (span.1 - span.0) + blen(ins),
        forall|x: int|
            is_boundary(t, x) ==> is_boundary(
                splice(t, span, ins),
                #[trigger] shift_pos(x, span.0, span.1 - span.0, blen(ins)),
            ),
{
    let a = index_at(t, span.0);
    let b = index_at(t, span.1);
    assert(0 <= a <= t.len() && boff(t, a) == span.0);
    assert(0 <= b <= t.len() && boff(t, b) == span.1);
    if b < a {
        lemma_boff_mono(t, b, a);
    }
    let t2 = splice(t, span, ins);
    let n = ins.len() as int;
    // Byte offsets of the edited text, by region.
    assert forall|j: int| 0 <= j <= a implies boff(t2, j) == boff(t, j) by {
        assert(t2.subrange(0, j) =~= t.subrange(0, j));
    }
    assert(boff(t2, a + n) == span.0 + blen(ins)) by {
        assert(t2.subrange(0, a + n) =~= t.subrange(0, a) + ins);
        lemma_blen_concat(t.subrange(0, a), ins);
    }
    assert forall|j: int| b <= j <= t.len() implies boff(t2, a + n + (j - b)) == span.0 + blen(ins)
        + (boff(t, j) - span.1) by {
        assert(t2.subrange(0, a + n + (j - b)) =~= (t.subrange(0, a) + ins) + t.subrange(b, j));
        lemma_blen_concat(t.subrange(0, a), ins);
        lemma_blen_concat(t.subrange(0, a) + ins, t.subrange(b, j));
        assert(t.subrange(0, j) =~= t.subrange(0, b) + t.subrange(b, j));
        lemma_blen_concat(t.subrange(0, b), t.subrange(b, j));
    }
    assert(blen(t2) == blen(t) - (span.1 - span.0) + blen(ins)) by {
        lemma_boff_ends(t2);
        lemma_boff_ends(t);
        assert(t2.len() == a + n + (t.len() - b));
        assert(boff(t2, a + n + (t.len() as int - b)) == span.0 + blen(ins) + (boff(
            t,
            t.len() as int,
        ) - span.1));
    }
    assert forall|x: int| is_boundary(t, x) implies is_boundary(
        t2,
        #[trigger] shift_pos(x, span.0, span.1 - span.0, blen(ins)),
    ) by {
        let w = choose|w: int| 0 <= w <= t.len() && boff(t, w) == x;
        let removed = span.1 - span.0;
        let added = blen(ins);
        if x <= span.0 {
            if w > a {
                lemma_boff_mono(t, a, w);
                lemma_boff_injective(t, a, w);
            }
            assert(boff(t2, w) == x);
            assert(w <= t2.len());
        } else if x >= span.1 {
            if w < b {
                lemma_boff_mono(t, w, b);
            }
            assert(boff(t2, a + n + (w - b)) == x - removed + added);
            assert(shift_pos(x, span.0, removed, added) == x - removed + added);
        } else {
            assert(boff(t2, a + n) == span.0 + added);
            assert(shift_pos(x, span.0, removed, added) == span.0 + added);
        }
    }
}

/// How the scalars and byte offsets of the edited text correspond to
/// those of the previous text: the prefix before the span is unchanged,
/// and the suffix after it moves as one block.
pub proof fn lemma_splice_chars(t: Seq<char>, span: (int, int), ins: Seq<char>)
    requires
        0 <= span.0 <= span.1 <= blen(t),
        is_boundary(t, span.0),
        is_boundary(t, span.1),
    ensures
        ({
            let a = index_at(t, span.0);
            let b = index_at(t, span.1);
            let t2 = splice(t, span, ins);
            let n = ins.len() as int;
            &&& 0 <= a <= b <= t.len()
            &&& boff(t, a) == span.0
            &&& boff(t, b) == span.1
            &&& t2.len() == a + n + (t.len() - b)
            &&& (forall|d: int| 0 <= d < a ==> t2[d] == t[d])
            &&& (forall|d: int| b <= d < t.len() ==> t2[a + n + (d - b)] == #[trigger] t[d])
            &&& (forall|j: int| 0 <= j <= a ==> #[trigger] boff(t2, j) == boff(t, j))
            &&& (forall|j: int|
                b <= j <= t.len() ==> #[trigger] boff(t2, a + n + (j - b)) == span.0 + blen(ins) + (
                boff(t, j) - span.1))
        }),
{
    let a = index_at(t, span.0);
    let b = index_at(t, span.1);
    assert(0 <= a <= t.len() && boff(t, a) == span.0);
    assert(0 <= b <= t.len() && boff(t, b) == span.1);
    if b < a {
        lemma_boff_mono(t, b, a);
    }
    let t2 = splice(t, span, ins);
    let n = ins.len() as int;
    assert forall|j: int| 0 <= j <= a implies #[trigger] boff(t2, j) == boff(t, j) by {
        assert(t2.subrange(0, j) =~= t.subrange(0, j));
    }
    assert forall|j: int| b <= j <= t.len() implies #[trigger] boff(t2, a + n + (j - b)) == span.0
        + blen(ins) + (boff(t, j) - span.1) by {
        assert(t2.subrange(0, a + n + (j - b)) =~= (t.subrange(0, a) + ins) + t.subrange(b, j));
        lemma_blen_concat(t.subrange(0, a), ins);
        lemma_blen_concat(t.subrange(0, a) + ins, t.subrange(b, j));
        assert(t.subrange(0, j) =~= t.subrange(0, b) + t.subrange(b, j));
        lemma_blen_concat(t.subrange(0, b), t.subrange(b, j));
    }
}

impl Text {
    /// The buffer's byte length stays within the machine limit.
    pub open spec fn wf(&self) -> bool {
        blen(self@) <= usize::MAX
    }

    /// An empty buffer.
    pub fn new() -> (r: Text)
        ensures
            r@ == Seq::<char>::empty(),
            r.wf(),
    {
        Text(Vec::new())
    }

    /// The scalar index sitting at byte offset `off`, or `None` when
    /// `off` is not a scalar boundary of the buffer.
    fn scan_to(&self, off: usize) -> (r: Option<usize>)
        requires
            self.wf(),
        ensures
            (r matches Some(ci) ==> ci <= self@.len() && boff(self@, ci as int) == off as int),
            (r is None ==> !is_boundary(self@, off as int)),
    {
        let t = Ghost(self@);
        let mut acc: usize = 0;
        let mut i: usize = 0;
        proof {
            lemma_boff_ends(t@);
        }
        while acc < off && i < self.0.len()
            invariant
                0 <= i <= t@.len(),
                t@ == self@,
                self.wf(),
                acc as int == boff(t@, i as int),
                i > 0 ==> boff(t@, i - 1) < off as int,
            decreases t@.len() - i,
        {
            let w = char_width(self.0[i]);
            proof {
                lemma_boff_step(t@, i as int);
                lemma_boff_mono(t@, i as int + 1, t@.len() as int);
                lemma_boff_ends(t@);
            }
            acc = acc + w;
            i = i + 1;
        }
        if acc == off {
            Some(i)
        } else {
            proof {
                // Either the walk stepped over `off`, or the buffer ended
                // before it; in both cases no scalar sits at `off`.
                assert forall|w: int| 0 <= w <= t@.len() implies boff(t@, w) != off as int by {
                    if acc > off {
                        if w < i {
                            lemma_boff_mono(t@, w, i - 1);
                        } else {
                            lemma_boff_mono(t@, i as int, w);
                        }
                    } else {
                        lemma_boff_mono(t@, w, t@.len() as int);
                        lemma_boff_ends(t@);
                    }
                }
            }
            None
        }
    }

    /// Replaces the byte range `span` with the scalars of `edit`.
    /// Returns whether the edit was accepted; a rejected edit leaves the
    /// buffer unchanged.
    pub fn edit(&mut self, span: (usize, usize), edit: &str) -> (ok: bool)
        requires
            old(self).wf(),
        ensures
            final(self).wf(),
            ok == edit_valid(old(self)@, (span.0 as int, span.1 as int), edit@),
            ok ==> final(self)@ == splice(old(self)@, (span.0 as int, span.1 as int), edit@),
            !ok ==> final(self)@ == old(self)@,
    {
        let ghost t = self@;
        if span.0 > span.1 {
            return false;
        }
        let a = match self.scan_to(span.0) {
            Some(a) => a,
            None => {
                return false;
            },
        };
        let b = match self.scan_to(span.1) {
            Some(b) => b,
            None => {
                return false;
            },
        };
        proof {
            lemma_index_at(t, a as int);
            lemma_index_at(t, b as int);
            lemma_boundary_range(t, span.1 as int);
            if b < a {
                lemma_boff_mono(t, b as int, a as int);
            }
        }
        let ins = str_chars(edit);
        let added = match blen_checked(&ins) {
            Some(n) => n,
            None => {
                return false;
            },
        };
        let total = self.byte_len();
        let removed = span.1 - span.0;
        if added > usize::MAX - (total - removed) {
            return false;
        }
        // Build the edited buffer: prefix, replacement, suffix.
        let mut out: Vec<char> = Vec::new();
        let mut i: usize = 0;
        while i < a
            invariant
                0 <= i <= a <= b <= self@.len(),
                t == self@,
                out@.len() == i,
                forall|j: int| 0 <= j < i ==> out@[j] == self@[j],
            decreases a - i,
        {
            out.push(self.0[i]);
            i = i + 1;
        }
        let mut k: usize = 0;
        while k < ins.len()
            invariant
                0 <= k <= ins@.len(),
                out@.len() == a + k,
                a <= b <= self@.len(),
                t == self@,
                forall|j: int| 0 <= j < a ==> out@[j] == self@[j],
                forall|j: int| a <= j < a + k ==> out@[j] == ins@[j - a],
            decreases ins@.len() - k,
        {
            out.push(ins[k]);
            k = k + 1;
        }
        let mut m: usize = b;
        while m < self.0.len()
            invariant
                b <= m <= self@.len(),
                a <= b,
                t == self@,
                out@.len() == a + ins@.len() + m - b,
                forall|j: int| 0 <= j < a ==> out@[j] == self@[j],
                forall|j: int| a <= j < a + ins@.len() ==> out@[j] == ins@[j - a],
                forall|j: int|
                    a + ins@.len() <= j < out@.len() ==> out@[j] == self@[j - a - ins@.len() + b],
            decreases self@.len() - m,
        {
            out.push(self.0[m]);
            m = m + 1;
        }
        proof {
            assert(out@ =~= splice(t, (span.0 as int, span.1 as int), edit@));
            // The edited buffer still fits the machine limit.
            assert(t =~= t.subrange(0, a as int) + t.subrange(a as int, t.len() as int));
            lemma_blen_concat(t.subrange(0, a as int), t.subrange(a as int, t.len() as int));
            assert(t.subrange(a as int, t.len() as int) =~= t.subrange(a as int, b as int)
                + t.subrange(b as int, t.len() as int));
            lemma_blen_concat(t.subrange(a as int, b as int), t.subrange(b as int, t.len() as int));
            assert(t.subrange(0, b as int) =~= t.subrange(0, a as int) + t.subrange(
                a as int,
                b as int,
            ));
            lemma_blen_concat(t.subrange(0, a as int), t.subrange(a as int, b as int));
            lemma_blen_concat(t.subrange(0, a as int), edit@);
            lemma_blen_concat(
                t.subrange(0, a as int) + edit@,
                t.subrange(b as int, t.len() as int),
            );
            lemma_boff_ends(t);
        }
        self.0 = out;
        true
    }

    /// The number of scalars in the buffer.
    pub fn char_len(&self) -> (r: usize)
        ensures
            r == self@.len(),
    {
        self.0.len()
    }

    /// The scalar at scalar index `i`.
    pub fn char_at(&self, i: usize) -> (c: char)
        requires
            i < self@.len(),
        ensures
            c == self@[i as int],
    {
        self.0[i]
    }

    /// The scalar at byte offset `offset`, or `None` when no scalar
    /// boundary sits there.
    pub fn read(&self, offset: usize) -> (r: Option<char>)
        requires
            self.wf(),
        ensures
            r == read_at(self@, offset as int),
    {
        match self.scan_to(offset) {
            Some(ci) => {
                proof {
                    lemma_index_at(self@, ci as int);
                }
                if ci < self.0.len() {
                    Some(self.0[ci])
                } else {
                    None
                }
            },
            None => None,
        }
    }

    /// Whether the scalar at `offset` is a line break; offsets that hold
    /// no scalar count as breaks, so the end of the buffer ends a line.
    pub fn is_newline(&self, offset: usize) -> (r: bool)
        requires
            self.wf(),
        ensures
            r == (read_at(self@, offset as int) matches Some(c) ==> c == '\n'),
    {
        match self.read(offset) {
            Some(c) => c == '\n',
            None => true,
        }
    }

    /// The byte length of the buffer: the length of the UTF-8 encoding
    /// of its scalars.
    pub fn byte_len(&self) -> (r: usize)
        requires
            self.wf(),
        ensures
            r as int == blen(self@),
            r == vstd::utf8::encode_utf8(self@).len(),
    {
        proof {
            crate::spans::lemma_blen_is_utf8(self@);
        }
        let mut acc: usize = 0;
        let mut i: usize = 0;
        proof {
            lemma_boff_ends(self@);
        }
        while i < self.0.len()
            invariant
                0 <= i <= self@.len(),
                self.wf(),
                acc as int == boff(self@, i as int),
            decreases self@.len() - i,
        {
            let w = char_width(self.0[i]);
            proof {
                lemma_boff_step(self@, i as int);
                lemma_boff_mono(self@, i as int + 1, self@.len() as int);
                lemma_boff_ends(self@);
            }
            acc = acc + w;
            i = i + 1;
        }
        proof {
            lemma_boff_ends(self@);
        }
        acc
    }
}

} // verus!
