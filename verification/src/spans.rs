//! Byte offsets over a buffer of Unicode scalar values.
//!
//! The text buffer stores a sequence of scalar values, but every span in
//! the public interface is a half-open range of *byte* offsets into the
//! UTF-8 encoding of that sequence.  This module defines the byte length
//! of a scalar and of a sequence, the byte offset of each scalar index,
//! and the facts about them that the rest of the crate needs.

use vstd::prelude::*;

verus! {

/// Number of bytes in the UTF-8 encoding of one scalar value:
/// 1 through 0x7f, 2 through 0x7ff, 3 through 0xffff, 4 beyond.
pub open spec fn char_bytes(c: char) -> int {
    if c as u32 <= 0x7f {
        1
    } else if c as u32 <= 0x7ff {
        2
    } else if c as u32 <= 0xffff {
        3
    } else {
        4
    }
}

/// Byte length of the UTF-8 encoding of a sequence of scalar values.
pub open spec fn blen(s: Seq<char>) -> int
    decreases s.len(),
{
    if s.len() == 0 {
        0
    } else {
        char_bytes(s[0]) + blen(s.drop_first())
    }
}

/// Byte offset of the scalar at index `i`; `boff(s, s.len())` is the
/// byte length of the whole sequence.
pub open spec fn boff(s: Seq<char>, i: int) -> int
    recommends
        0 <= i <= s.len(),
{
    blen(s.subrange(0, i))
}

/// A byte offset that falls on a scalar boundary of `s`.
pub open spec fn is_boundary(s: Seq<char>, off: int) -> bool {
    exists|i: int| 0 <= i <= s.len() && boff(s, i) == off
}

/// The scalar index whose byte offset is `off`, when `off` is a boundary.
pub open spec fn index_at(s: Seq<char>, off: int) -> int {
    choose|i: int| 0 <= i <= s.len() && boff(s, i) == off
}

pub proof fn lemma_blen_bounds(s: Seq<char>)
    ensures
        s.len() <= blen(s) <= 4 * s.len(),
    decreases s.len(),
{
    if s.len() > 0 {
        lemma_blen_bounds(s.drop_first());
    }
}

pub proof fn lemma_blen_concat(a: Seq<char>, b: Seq<char>)
    ensures
        blen(a + b) == blen(a) + blen(b),
    decreases a.len(),
{
    if a.len() == 0 {
        assert(a + b =~= b);
    } else {
        assert((a + b).drop_first() =~= a.drop_first() + b);
        lemma_blen_concat(a.drop_first(), b);
    }
}

pub proof fn lemma_boff_step(s: Seq<char>, i: int)
    requires
        0 <= i < s.len(),
    ensures
        boff(s, i + 1) == boff(s, i) + char_bytes(s[i]),
{
    assert(s.subrange(0, i + 1) =~= s.subrange(0, i) + seq![s[i]]);
    lemma_blen_concat(s.subrange(0, i), seq![s[i]]);
    assert(blen(seq![s[i]]) == char_bytes(s[i]) + blen(seq![s[i]].drop_first()));
    assert(seq![s[i]].drop_first() =~= Seq::<char>::empty());
}

/// Byte offsets grow strictly with the scalar index: each scalar takes at
/// least one byte.
pub proof fn lemma_boff_mono(s: Seq<char>, i: int, j: int)
    requires
        0 <= i <= j <= s.len(),
    ensures
        boff(s, i) + (j - i) <= boff(s, j),
        boff(s, j) <= boff(s, i) + 4 * (j - i),
    decreases j - i,
{
    if i < j {
        lemma_boff_step(s, i);
        lemma_boff_mono(s, i + 1, j);
    }
}

pub proof fn lemma_boff_ends(s: Seq<char>)
    ensures
        boff(s, 0) == 0,
        boff(s, s.len() as int) == blen(s),
{
    assert(s.subrange(0, 0) =~= Seq::<char>::empty());
    assert(s.subrange(0, s.len() as int) =~= s);
}

/// Two scalar indices with the same byte offset are the same index.
pub proof fn lemma_boff_injective(s: Seq<char>, i: int, j: int)
    requires
        0 <= i <= s.len(),
        0 <= j <= s.len(),
        boff(s, i) == boff(s, j),
    ensures
        i == j,
{
    if i < j {
        lemma_boff_mono(s, i, j);
    }
    if j < i {
        lemma_boff_mono(s, j, i);
    }
}

/// The byte length defined here is the length of the UTF-8 encoding of
/// the sequence, as vstd defines that encoding.
pub proof fn lemma_blen_is_utf8(s: Seq<char>)
    ensures
        blen(s) == vstd::utf8::encode_utf8(s).len(),
    decreases s.len(),
{
    if s.len() > 0 {
        vstd::utf8::char_is_scalar(s[0]);
        assert(vstd::utf8::encode_scalar(s[0] as u32).len() == char_bytes(s[0]));
        lemma_blen_is_utf8(s.drop_first());
    }
}

/// A boundary lies between 0 and the byte length of the text.
pub proof fn lemma_boundary_range(s: Seq<char>, off: int)
    requires
        is_boundary(s, off),
    ensures
        0 <= off <= blen(s),
{
    let i = choose|i: int| 0 <= i <= s.len() && boff(s, i) == off;
    lemma_boff_mono(s, 0, i);
    lemma_boff_mono(s, i, s.len() as int);
    lemma_boff_ends(s);
}

/// Number of bytes in the UTF-8 encoding of `c`.
pub fn char_width(c: char) -> (n: usize)
    ensures
        n as int == char_bytes(c),
{
    let u = c as u32;
    if u <= 0x7f {
        1
    } else if u <= 0x7ff {
        2
    } else if u <= 0xffff {
        3
    } else {
        4
    }
}

} // verus!
