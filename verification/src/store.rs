//! Paths into the artifact store, and the order in which they are listed.

use vstd::prelude::*;
use vstd::string::*;
use vstd::utf8::*;
use crate::escape::{artifact_key, key_injective, key_of};
use crate::model::texts;

verus! {

/// Where the artifact of `path` lies under the store directory `dir`.
pub open spec fn store_path_of(dir: Seq<char>, path: Seq<char>) -> Seq<char> {
    dir + seq!['/'] + key_of(path)
}

/// The path of the artifact for `path` in the store directory `dir`.
pub fn store_path(dir: &str, path: &str) -> (full: String)
    ensures
        full@ == store_path_of(dir@, path@),
{
    let key = artifact_key(path);
    let mut full = dir.to_owned();
    proof {
        reveal_strlit("/");
        assert("/"@ =~= seq!['/']);
    }
    full.append("/");
    full.append(key.as_str());
    full
}

/// Under one store directory, distinct paths have distinct store paths:
/// no two artifacts share a file.
pub proof fn lemma_store_paths_distinct(dir: Seq<char>, p: Seq<char>, q: Seq<char>)
    requires
        p != q,
    ensures
        store_path_of(dir, p) != store_path_of(dir, q),
{
    key_injective(p, q);
    let head = dir + seq!['/'];
    if store_path_of(dir, p) == store_path_of(dir, q) {
        assert((head + key_of(p)).skip(head.len() as int) =~= key_of(p));
        assert((head + key_of(q)).skip(head.len() as int) =~= key_of(q));
    }
}

/// Whether `a` comes before `b` when compared byte by byte, a proper
/// prefix coming before what it is a prefix of.
pub open spec fn lex_less(a: Seq<u8>, b: Seq<u8>) -> bool
    decreases a.len(),
{
    if b.len() == 0 {
        false
    } else if a.len() == 0 {
        true
    } else if a[0] != b[0] {
        a[0] < b[0]
    } else {
        lex_less(a.drop_first(), b.drop_first())
    }
}

/// Whether text `a` comes before text `b` in the order of their UTF-8
/// encodings.
pub open spec fn precedes(a: Seq<char>, b: Seq<char>) -> bool {
    lex_less(encode_utf8(a), encode_utf8(b))
}

/// Whether each text comes before all that follow it.
pub open spec fn strictly_ascending(s: Seq<Seq<char>>) -> bool {
    forall|i: int, j: int| 0 <= i < j < s.len() ==> precedes(#[trigger] s[i], #[trigger] s[j])
}

/// Nothing comes before itself.
pub proof fn lemma_lex_irreflexive(a: Seq<u8>)
    ensures
        !lex_less(a, a),
    decreases a.len(),
{
    if a.len() > 0 {
        lemma_lex_irreflexive(a.drop_first());
    }
}

/// The order is transitive.
pub proof fn lemma_lex_transitive(a: Seq<u8>, b: Seq<u8>, c: Seq<u8>)
    requires
        lex_less(a, b),
        lex_less(b, c),
    ensures
        lex_less(a, c),
    decreases a.len(),
{
    if a.len() > 0 && a[0] == b[0] && b[0] == c[0] {
        lemma_lex_transitive(a.drop_first(), b.drop_first(), c.drop_first());
    }
}

/// Byte strings that agree on their first `i` bytes compare as what
/// follows those bytes.
pub proof fn lemma_lex_skip(a: Seq<u8>, b: Seq<u8>, i: int)
    requires
        0 <= i <= a.len(),
        i <= b.len(),
        forall|j: int| 0 <= j < i ==> a[j] == b[j],
    ensures
        lex_less(a, b) == lex_less(a.skip(i), b.skip(i)),
    decreases i,
{
    if i == 0 {
        assert(a.skip(0) =~= a);
        assert(b.skip(0) =~= b);
    } else {
        assert(a[0] == b[0]);
        lemma_lex_skip(a.drop_first(), b.drop_first(), i - 1);
        assert(a.drop_first().skip(i - 1) =~= a.skip(i));
        assert(b.drop_first().skip(i - 1) =~= b.skip(i));
    }
}

/// How one text stands to another in the order of their encodings.
#[derive(Clone, Copy, Debug, PartialEq, Eq, Structural)]
pub enum Rank {
    /// The first text comes before the second.
    Before,
    /// The two texts are the same.
    Same,
    /// The first text comes after the second.
    After,
}

/// Compares two texts byte by byte.
pub fn rank_of(a: &str, b: &str) -> (r: Rank)
    ensures
        r == Rank::Before <==> precedes(a@, b@),
        r == Rank::Same <==> a@ == b@,
        r == Rank::After <==> precedes(b@, a@),
{
    let x = a.as_bytes();
    let y = b.as_bytes();
    let mut i: usize = 0;
    proof {
        lemma_lex_irreflexive(x@);
        if precedes(a@, b@) && precedes(b@, a@) {
            lemma_lex_transitive(x@, y@, x@);
        }
    }
    while i < x.len() && i < y.len()
        invariant
            i <= x@.len(),
            i <= y@.len(),
            forall|j: int| 0 <= j < i ==> x@[j] == y@[j],
            x@ == encode_utf8(a@),
            y@ == encode_utf8(b@),
            !(precedes(a@, b@) && precedes(b@, a@)),
            !lex_less(x@, x@),
        decreases x@.len() - i,
    {
        if x[i] < y[i] {
            proof {
                lemma_lex_skip(x@, y@, i as int);
            }
            return Rank::Before;
        }
        if x[i] > y[i] {
            proof {
                lemma_lex_skip(y@, x@, i as int);
            }
            return Rank::After;
        }
        i += 1;
    }
    proof {
        lemma_lex_skip(x@, y@, i as int);
        lemma_lex_skip(y@, x@, i as int);
    }
    if i < y.len() {
        Rank::Before
    } else if i < x.len() {
        Rank::After
    } else {
        proof {
            assert(x@ =~= y@);
            encode_utf8_decode_utf8(a@);
            encode_utf8_decode_utf8(b@);
        }
        Rank::Same
    }
}

/// Puts a text at its place in an ascending list, unless the list holds
/// it already.
pub(crate) fn insert_ascending(list: &mut Vec<String>, text: String)
    requires
        strictly_ascending(texts(old(list)@)),
    ensures
        strictly_ascending(texts(final(list)@)),
        forall|x: Seq<char>|
            texts(final(list)@).contains(x) <==> (texts(old(list)@).contains(x) || x == text@),
{
    let ghost before = texts(list@);
    let mut i: usize = 0;
    let mut placed = false;
    while i < list.len() && !placed
        invariant
            i <= list@.len(),
            list@ == old(list)@,
            before == texts(list@),
            strictly_ascending(before),
            forall|j: int| 0 <= j < i ==> precedes(#[trigger] before[j], text@),
            placed ==> i < list@.len() && precedes(text@, before[i as int]),
        decreases list@.len() - i + if placed { 0int } else { 1int },
    {
        match rank_of(list[i].as_str(), text.as_str()) {
            Rank::Before => {
                i += 1;
            },
            Rank::Same => {
                proof {
                    assert(before[i as int] == text@);
                    assert(before.contains(text@));
                }
                return ;
            },
            Rank::After => {
                placed = true;
            },
        }
    }
    let ghost t = text@;
    list.insert(i, text);
    proof {
        let after = texts(list@);
        assert(after =~= before.insert(i as int, t));
        assert forall|p: int, q: int| 0 <= p < q < after.len() implies precedes(
            #[trigger] after[p],
            #[trigger] after[q],
        ) by {
            if q == i {
                assert(after[p] == before[p]);
            } else if p == i {
                assert(after[q] == before[q - 1]);
                if q - 1 > i {
                    assert(precedes(before[i as int], before[q - 1]));
                    lemma_lex_transitive(
                        encode_utf8(t),
                        encode_utf8(before[i as int]),
                        encode_utf8(before[q - 1]),
                    );
                }
            } else {
                let p0 = if p < i { p } else { p - 1 };
                let q0 = if q < i { q } else { q - 1 };
                assert(after[p] == before[p0]);
                assert(after[q] == before[q0]);
            }
        }
        assert forall|x: Seq<char>| after.contains(x) <==> (before.contains(x) || x == t) by {
            if after.contains(x) {
                let p = choose|p: int| 0 <= p < after.len() && after[p] == x;
                if p < i {
                    assert(before[p] == x);
                } else if p > i {
                    assert(before[p - 1] == x);
                }
            }
            if before.contains(x) {
                let p = choose|p: int| 0 <= p < before.len() && before[p] == x;
                if p < i {
                    assert(after[p] == x);
                } else {
                    assert(after[p + 1] == x);
                }
            }
            if x == t {
                assert(after[i as int] == x);
            }
        }
    }
}

/// An ascending list is determined by what it holds: two ascending lists
/// with the same members are the same list.
pub proof fn lemma_ascending_unique(s: Seq<Seq<char>>, t: Seq<Seq<char>>)
    requires
        strictly_ascending(s),
        strictly_ascending(t),
        forall|x: Seq<char>| s.contains(x) <==> t.contains(x),
    ensures
        s == t,
    decreases s.len(),
{
    if s.len() == 0 {
        if t.len() > 0 {
            assert(t.contains(t[0]));
        }
        assert(s =~= t);
    } else {
        assert(s.contains(s[0]));
        assert(t.contains(s[0]));
        let j = choose|j: int| 0 <= j < t.len() && t[j] == s[0];
        assert(t.contains(t[0]));
        assert(s.contains(t[0]));
        let i = choose|i: int| 0 <= i < s.len() && s[i] == t[0];
        if i > 0 && j > 0 {
            assert(precedes(s[0], s[i]));
            assert(precedes(t[0], t[j]));
            lemma_lex_transitive(encode_utf8(s[0]), encode_utf8(t[0]), encode_utf8(s[0]));
            lemma_lex_irreflexive(encode_utf8(s[0]));
        }
        assert(s[0] == t[0]);
        let s1 = s.drop_first();
        let t1 = t.drop_first();
        lemma_lex_irreflexive(encode_utf8(s[0]));
        assert forall|x: Seq<char>| s1.contains(x) <==> t1.contains(x) by {
            if s1.contains(x) {
                let p = choose|p: int| 0 <= p < s1.len() && s1[p] == x;
                assert(s[p + 1] == x);
                assert(precedes(s[0], s[p + 1]));
                assert(s.contains(x));
                let q = choose|q: int| 0 <= q < t.len() && t[q] == x;
                assert(q > 0);
                assert(t1[q - 1] == x);
            }
            if t1.contains(x) {
                let p = choose|p: int| 0 <= p < t1.len() && t1[p] == x;
                assert(t[p + 1] == x);
                assert(precedes(t[0], t[p + 1]));
                assert(t.contains(x));
                let q = choose|q: int| 0 <= q < s.len() && s[q] == x;
                assert(q > 0);
                assert(s1[q - 1] == x);
            }
        }
        assert(strictly_ascending(s1)) by {
            assert forall|p: int, q: int| 0 <= p < q < s1.len() implies precedes(
                #[trigger] s1[p],
                #[trigger] s1[q],
            ) by {
                assert(precedes(s[p + 1], s[q + 1]));
            }
        }
        assert(strictly_ascending(t1)) by {
            assert forall|p: int, q: int| 0 <= p < q < t1.len() implies precedes(
                #[trigger] t1[p],
                #[trigger] t1[q],
            ) by {
                assert(precedes(t[p + 1], t[q + 1]));
            }
        }
        lemma_ascending_unique(s1, t1);
        assert(s =~= seq![s[0]] + s1);
        assert(t =~= seq![t[0]] + t1);
    }
}

} // verus!
