//! Splitting a command line at ASCII whitespace.

use vstd::prelude::*;
use vstd::string::*;
use crate::text::push_char;
use crate::model::texts;

verus! {

/// The ASCII whitespace characters: space, tab, line feed, form feed and
/// carriage return.
pub open spec fn is_space(c: char) -> bool {
    c == ' ' || c == '\t' || c == '\n' || c == '\x0C' || c == '\r'
}

/// The run of characters without whitespace that `s` ends with.
pub open spec fn open_token(s: Seq<char>) -> Seq<char>
    decreases s.len(),
{
    if s.len() == 0 || is_space(s.last()) {
        Seq::empty()
    } else {
        open_token(s.drop_last()).push(s.last())
    }
}

/// The runs of characters without whitespace in `s` that whitespace
/// follows, in order.
pub open spec fn closed_tokens(s: Seq<char>) -> Seq<Seq<char>>
    decreases s.len(),
{
    if s.len() == 0 {
        Seq::empty()
    } else if is_space(s.last()) && open_token(s.drop_last()).len() > 0 {
        closed_tokens(s.drop_last()).push(open_token(s.drop_last()))
    } else {
        closed_tokens(s.drop_last())
    }
}

/// The tokens of `s`: its maximal runs of characters without whitespace.
pub open spec fn tokens_of(s: Seq<char>) -> Seq<Seq<char>> {
    if open_token(s).len() > 0 {
        closed_tokens(s).push(open_token(s))
    } else {
        closed_tokens(s)
    }
}

/// Whether a text is not empty and holds no whitespace.
pub open spec fn is_token(t: Seq<char>) -> bool {
    t.len() > 0 && forall|i: int| 0 <= i < t.len() ==> !is_space(#[trigger] t[i])
}

/// Whether a character is ASCII whitespace.
pub fn is_space_char(c: char) -> (r: bool)
    ensures
        r == is_space(c),
{
    c == ' ' || c == '\t' || c == '\n' || c == '\x0C' || c == '\r'
}

/// The tokens of a command line.
pub fn tokens(s: &str) -> (list: Vec<String>)
    ensures
        texts(list@) == tokens_of(s@),
{
    let mut list: Vec<String> = Vec::new();
    let mut current = String::new();
    proof {
        assert(s@.take(0) =~= Seq::<char>::empty());
        assert(texts(list@) =~= closed_tokens(s@.take(0)));
    }
    for c in it: s.chars()
        invariant
            it.seq() == s@,
            texts(list@) == closed_tokens(s@.take(it.index() as int)),
            current@ == open_token(s@.take(it.index() as int)),
    {
        let ghost seen = s@.take(it.index() as int);
        let ghost more = s@.take(it.index() + 1);
        proof {
            assert(more.drop_last() =~= seen);
            assert(more.last() == c);
        }
        if is_space_char(c) {
            if !current.as_str().is_empty() {
                let ghost held = texts(list@);
                let ghost token = current@;
                list.push(current);
                current = String::new();
                proof {
                    assert(texts(list@) =~= held.push(token));
                }
            }
        } else {
            push_char(&mut current, c);
        }
    }
    proof {
        assert(s@.take(s@.len() as int) =~= s@);
    }
    if !current.as_str().is_empty() {
        let ghost held = texts(list@);
        let ghost token = current@;
        list.push(current);
        proof {
            assert(texts(list@) =~= held.push(token));
        }
    }
    list
}

/// The open run holds no whitespace.
proof fn lemma_open_token(s: Seq<char>)
    ensures
        forall|i: int| 0 <= i < open_token(s).len() ==> !is_space(#[trigger] open_token(s)[i]),
    decreases s.len(),
{
    if s.len() > 0 && !is_space(s.last()) {
        lemma_open_token(s.drop_last());
        let rest = open_token(s.drop_last());
        assert forall|i: int| 0 <= i < open_token(s).len() implies !is_space(
            #[trigger] open_token(s)[i],
        ) by {
            if i < rest.len() {
                assert(open_token(s)[i] == rest[i]);
            }
        }
    }
}

/// Each closed run is a token.
proof fn lemma_closed_tokens(s: Seq<char>)
    ensures
        forall|k: int| 0 <= k < closed_tokens(s).len() ==> is_token(#[trigger] closed_tokens(s)[k]),
    decreases s.len(),
{
    if s.len() > 0 {
        lemma_closed_tokens(s.drop_last());
        lemma_open_token(s.drop_last());
        let rest = closed_tokens(s.drop_last());
        assert forall|k: int| 0 <= k < closed_tokens(s).len() implies is_token(
            #[trigger] closed_tokens(s)[k],
        ) by {
            if k < rest.len() {
                assert(closed_tokens(s)[k] == rest[k]);
            }
        }
    }
}

/// Every token is a non-empty text without whitespace.
pub proof fn lemma_tokens_are_tokens(s: Seq<char>)
    ensures
        forall|k: int| 0 <= k < tokens_of(s).len() ==> is_token(#[trigger] tokens_of(s)[k]),
{
    lemma_closed_tokens(s);
    lemma_open_token(s);
    let rest = closed_tokens(s);
    assert forall|k: int| 0 <= k < tokens_of(s).len() implies is_token(#[trigger] tokens_of(s)[k]) by {
        if k < rest.len() {
            assert(tokens_of(s)[k] == rest[k]);
        }
    }
}

/// A text without whitespace is its own open run.
proof fn lemma_open_token_whole(t: Seq<char>)
    requires
        forall|i: int| 0 <= i < t.len() ==> !is_space(#[trigger] t[i]),
    ensures
        open_token(t) == t,
        closed_tokens(t) == Seq::<Seq<char>>::empty(),
    decreases t.len(),
{
    if t.len() > 0 {
        lemma_open_token_whole(t.drop_last());
        assert(t.drop_last().push(t.last()) =~= t);
    }
}

/// A token is the only token of itself, and the empty text has none.
pub proof fn lemma_tokens_of_token(t: Seq<char>)
    requires
        forall|i: int| 0 <= i < t.len() ==> !is_space(#[trigger] t[i]),
    ensures
        tokens_of(t) == if t.len() > 0 {
            seq![t]
        } else {
            Seq::<Seq<char>>::empty()
        },
{
    lemma_open_token_whole(t);
    if t.len() > 0 {
        assert(closed_tokens(t).push(t) =~= seq![t]);
    }
}

/// The tokens of two texts joined by a whitespace character are the
/// tokens of the first followed by the tokens of the second.
pub proof fn lemma_tokens_join(a: Seq<char>, w: char, b: Seq<char>)
    requires
        is_space(w),
    ensures
        tokens_of(a + seq![w] + b) == tokens_of(a) + tokens_of(b),
{
    let head = a + seq![w];
    assert(head.drop_last() =~= a);
    assert(closed_tokens(head) =~= tokens_of(a));
    assert(open_token(head) =~= Seq::<char>::empty());
    lemma_tokens_after(head, b);
    assert(tokens_of(a) + closed_tokens(b) + seq![open_token(b)] =~= tokens_of(a) + (
    closed_tokens(b) + seq![open_token(b)]));
    assert(closed_tokens(b).push(open_token(b)) =~= closed_tokens(b) + seq![open_token(b)]);
    assert(closed_tokens(head + b).push(open_token(head + b)) =~= closed_tokens(head + b)
        + seq![open_token(head + b)]);
}

/// After a text that ends a run, what follows is scanned as if it stood
/// alone.
proof fn lemma_tokens_after(head: Seq<char>, b: Seq<char>)
    requires
        open_token(head).len() == 0,
    ensures
        open_token(head + b) == open_token(b),
        closed_tokens(head + b) == closed_tokens(head) + closed_tokens(b),
    decreases b.len(),
{
    if b.len() == 0 {
        assert(head + b =~= head);
        assert(open_token(head) =~= Seq::<char>::empty());
        assert(closed_tokens(head) + closed_tokens(b) =~= closed_tokens(head));
    } else {
        lemma_tokens_after(head, b.drop_last());
        assert((head + b).drop_last() =~= head + b.drop_last());
        assert((head + b).last() == b.last());
        assert(closed_tokens(head + b) =~= closed_tokens(head) + closed_tokens(b));
    }
}

} // verus!
