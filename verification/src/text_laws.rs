use vstd::prelude::*;
use crate::text::is_bracket;
use crate::text::is_break;
use crate::text::is_space;
use crate::text::lemma_word_end;
use crate::text::tokens_from;
use crate::text::tokens_of;
use crate::text::word_end;

verus! {

/// Whether a text is one token that is no bracket: it is not empty and
/// holds no white space and no bracket.
pub open spec fn is_token(w: Seq<char>) -> bool {
    w.len() > 0 && forall|k: int| 0 <= k < w.len() ==> !is_break(#[trigger] w[k])
}

/// Whether two texts meet at the border of a token: one of them is empty,
/// or the first ends in a break, or the second begins with one.
pub open spec fn meet(a: Seq<char>, b: Seq<char>) -> bool {
    a.len() == 0 || b.len() == 0 || is_break(a.last()) || is_break(b[0])
}

/// Behind a text, the tokens of what follows are found as in what follows
/// alone.
pub proof fn lemma_word_end_shift(a: Seq<char>, b: Seq<char>, j: int)
    requires
        0 <= j <= b.len(),
    ensures
        word_end(a + b, a.len() + j) == a.len() + word_end(b, j),
    decreases b.len() - j,
{
    if j < b.len() {
        assert((a + b)[a.len() + j] == b[j]);
        if !is_break(b[j]) {
            lemma_word_end_shift(a, b, j + 1);
        }
    }
}

/// Behind a text, the tokens of what follows are the tokens of what
/// follows alone.
pub proof fn lemma_tokens_shift(a: Seq<char>, b: Seq<char>, j: int)
    requires
        0 <= j <= b.len(),
    ensures
        tokens_from(a + b, a.len() + j) == tokens_from(b, j),
    decreases b.len() - j,
{
    if j < b.len() {
        assert((a + b)[a.len() + j] == b[j]);
        if is_space(b[j]) {
            lemma_tokens_shift(a, b, j + 1);
        } else if is_bracket(b[j]) {
            lemma_tokens_shift(a, b, j + 1);
            assert((a + b).subrange(a.len() + j, a.len() + j + 1) =~= b.subrange(j, j + 1));
        } else {
            lemma_word_end_shift(a, b, j + 1);
            lemma_word_end(b, j + 1);
            let e = word_end(b, j + 1);
            lemma_tokens_shift(a, b, e);
            assert((a + b).subrange(a.len() + j, a.len() + e) =~= b.subrange(j, e));
        }
    }
}

/// A token that ends within a text, or at its end where the next text
/// begins with a break, ends at the same place when the next text follows.
pub proof fn lemma_word_end_left(a: Seq<char>, b: Seq<char>, i: int)
    requires
        0 <= i <= a.len(),
        word_end(a, i) < a.len() || b.len() == 0 || is_break(b[0]),
    ensures
        word_end(a + b, i) == word_end(a, i),
    decreases a.len() - i,
{
    if i < a.len() {
        assert((a + b)[i] == a[i]);
        if !is_break(a[i]) {
            lemma_word_end_left(a, b, i + 1);
        }
    } else {
        if b.len() > 0 {
            assert((a + b)[i] == b[0]);
        }
    }
}

/// The tokens of two texts that meet at the border of a token are the
/// tokens of the first followed by the tokens of the second.
pub proof fn lemma_tokens_from_add(a: Seq<char>, b: Seq<char>, i: int)
    requires
        0 <= i <= a.len(),
        meet(a, b),
    ensures
        tokens_from(a + b, i) == tokens_from(a, i) + tokens_of(b),
    decreases a.len() - i,
{
    if i == a.len() {
        lemma_tokens_shift(a, b, 0);
        assert(tokens_from(a, i) + tokens_of(b) =~= tokens_of(b));
    } else {
        assert((a + b)[i] == a[i]);
        if is_space(a[i]) {
            lemma_tokens_from_add(a, b, i + 1);
        } else if is_bracket(a[i]) {
            lemma_tokens_from_add(a, b, i + 1);
            assert((a + b).subrange(i, i + 1) =~= a.subrange(i, i + 1));
            assert(seq![a.subrange(i, i + 1)] + (tokens_from(a, i + 1) + tokens_of(b)) =~= (seq![
                a.subrange(i, i + 1),
            ] + tokens_from(a, i + 1)) + tokens_of(b));
        } else {
            lemma_word_end(a, i + 1);
            let e = word_end(a, i + 1);
            if e == a.len() {
                assert(!is_break(a[a.len() - 1])) by {
                    if a.len() - 1 > i {
                        assert(!is_break(a[a.len() - 1]));
                    }
                }
            }
            lemma_word_end_left(a, b, i + 1);
            lemma_tokens_from_add(a, b, e);
            assert((a + b).subrange(i, e) =~= a.subrange(i, e));
            assert(seq![a.subrange(i, e)] + (tokens_from(a, e) + tokens_of(b)) =~= (seq![
                a.subrange(i, e),
            ] + tokens_from(a, e)) + tokens_of(b));
        }
    }
}

/// The tokens of two texts that meet at the border of a token are the
/// tokens of the first followed by the tokens of the second.
pub proof fn lemma_tokens_add(a: Seq<char>, b: Seq<char>)
    requires
        meet(a, b),
    ensures
        tokens_of(a + b) == tokens_of(a) + tokens_of(b),
{
    lemma_tokens_from_add(a, b, 0);
}

/// A text that is one token has itself as its only token.
pub proof fn lemma_tokens_one(w: Seq<char>)
    requires
        is_token(w),
    ensures
        tokens_of(w) == seq![w],
{
    lemma_word_end_all(w, 1);
    assert(!is_break(w[0]));
    assert(w.subrange(0, w.len() as int) =~= w);
    assert(tokens_from(w, w.len() as int) =~= Seq::<Seq<char>>::empty());
    assert(seq![w] + Seq::<Seq<char>>::empty() =~= seq![w]);
}

/// In a text without breaks a token runs to the end.
pub proof fn lemma_word_end_all(w: Seq<char>, i: int)
    requires
        0 <= i <= w.len(),
        forall|k: int| 0 <= k < w.len() ==> !is_break(#[trigger] w[k]),
    ensures
        word_end(w, i) == w.len(),
    decreases w.len() - i,
{
    if i < w.len() {
        assert(!is_break(w[i]));
        lemma_word_end_all(w, i + 1);
    }
}

/// The empty text has no tokens, a space has none, and a bracket is its
/// own token.
pub proof fn lemma_tokens_small(c: char)
    ensures
        tokens_of(Seq::<char>::empty()) == Seq::<Seq<char>>::empty(),
        is_space(c) ==> tokens_of(seq![c]) == Seq::<Seq<char>>::empty(),
        is_bracket(c) ==> tokens_of(seq![c]) == seq![seq![c]],
{
    let s = seq![c];
    assert(tokens_from(s, 1) =~= Seq::<Seq<char>>::empty());
    if is_space(c) {
        assert(tokens_from(s, 0) == tokens_from(s, 1));
    }
    if is_bracket(c) {
        assert(!is_space(c));
        assert(s.subrange(0, 1) =~= s);
        assert(tokens_from(s, 0) =~= seq![s] + tokens_from(s, 1));
        assert(seq![s] + Seq::<Seq<char>>::empty() =~= seq![s]);
    }
}

/// Every token of a text is a bracket or a token that is no bracket.
pub proof fn lemma_tokens_are_tokens(s: Seq<char>, i: int, k: int)
    requires
        0 <= i <= s.len(),
        0 <= k < tokens_from(s, i).len(),
    ensures
        is_token(tokens_from(s, i)[k]) || (tokens_from(s, i)[k].len() == 1 && is_bracket(
            tokens_from(s, i)[k][0],
        )),
    decreases s.len() - i,
{
    if i < s.len() {
        if is_space(s[i]) {
            lemma_tokens_are_tokens(s, i + 1, k);
        } else if is_bracket(s[i]) {
            if k > 0 {
                lemma_tokens_are_tokens(s, i + 1, k - 1);
            }
        } else {
            lemma_word_end(s, i + 1);
            let e = word_end(s, i + 1);
            if k > 0 {
                lemma_tokens_are_tokens(s, e, k - 1);
            } else {
                let w = s.subrange(i, e);
                assert forall|j: int| 0 <= j < w.len() implies !is_break(#[trigger] w[j]) by {
                    assert(w[j] == s[i + j]);
                    if j > 0 {
                        assert(!is_break(s[i + j]));
                    }
                }
            }
        }
    }
}

} // verus!
