//! Texts as sequences of characters: trimming, searching, splitting and
//! reading numbers.

use vstd::prelude::*;
use vstd::string::*;

verus! {

/// `String::push` appends one character to the end of the string.
#[verifier::external_body]
pub(crate) fn push_char(s: &mut String, c: char)
    ensures
        final(s)@ == old(s)@.push(c),
{
    s.push(c)
}

/// The characters with the Unicode property `White_Space`.
pub open spec fn is_white(c: char) -> bool {
    let u = c as u32;
    (0x09 <= u && u <= 0x0d) || u == 0x20 || u == 0x85 || u == 0xa0 || u == 0x1680 || (0x2000 <= u
        && u <= 0x200a) || u == 0x2028 || u == 0x2029 || u == 0x202f || u == 0x205f || u == 0x3000
}

/// A kind of character to strip from the ends of a text.
#[derive(Clone, Copy, Debug, PartialEq, Eq, Structural)]
pub enum Class {
    /// Whitespace.
    White,
    /// One character.
    Only(char),
}

/// Whether a character is of a class.
pub open spec fn in_class(class: Class, c: char) -> bool {
    match class {
        Class::White => is_white(c),
        Class::Only(x) => c == x,
    }
}

/// How many characters of the class a text begins with.
pub open spec fn leading(s: Seq<char>, class: Class) -> nat
    decreases s.len(),
{
    if s.len() > 0 && in_class(class, s[0]) {
        1 + leading(s.drop_first(), class)
    } else {
        0
    }
}

/// How many characters of the class a text ends with.
pub open spec fn trailing(s: Seq<char>, class: Class) -> nat
    decreases s.len(),
{
    if s.len() > 0 && in_class(class, s.last()) {
        1 + trailing(s.drop_last(), class)
    } else {
        0
    }
}

/// The text without the characters of the class that it begins with.
pub open spec fn without_leading(s: Seq<char>, class: Class) -> Seq<char> {
    s.skip(leading(s, class) as int)
}

/// The text without the characters of the class that it ends with.
pub open spec fn without_trailing(s: Seq<char>, class: Class) -> Seq<char> {
    s.take(s.len() - trailing(s, class))
}

/// The text without the characters of the class at either end.
pub open spec fn stripped(s: Seq<char>, class: Class) -> Seq<char> {
    without_trailing(without_leading(s, class), class)
}

/// Whether `pattern` stands in `s` at position `i`.
pub open spec fn matches_at(s: Seq<char>, pattern: Seq<char>, i: int) -> bool {
    0 <= i && i + pattern.len() <= s.len() && s.subrange(i, i + pattern.len()) == pattern
}

/// The first position at or after `i` at which `pattern` stands in `s`.
pub open spec fn find_from(s: Seq<char>, pattern: Seq<char>, i: int) -> Option<int>
    decreases s.len() + 1 - i,
{
    if i < 0 || i + pattern.len() > s.len() {
        None
    } else if matches_at(s, pattern, i) {
        Some(i)
    } else {
        find_from(s, pattern, i + 1)
    }
}

/// The text without every copy of `pattern` that it begins with.
pub open spec fn without_prefixes(s: Seq<char>, pattern: Seq<char>) -> Seq<char>
    decreases s.len(),
{
    if pattern.len() > 0 && matches_at(s, pattern, 0) {
        without_prefixes(s.skip(pattern.len() as int), pattern)
    } else {
        s
    }
}

/// What follows the last separator of a text: the whole text if it has
/// none.
pub open spec fn last_piece(s: Seq<char>, sep: char) -> Seq<char>
    decreases s.len(),
{
    if s.len() == 0 || s.last() == sep {
        Seq::empty()
    } else {
        last_piece(s.drop_last(), sep).push(s.last())
    }
}

/// The parts of a text between its separators, in order. A text without
/// a separator is its only part; two separators in a row have an empty
/// part between them.
pub open spec fn pieces(s: Seq<char>, sep: char) -> Seq<Seq<char>>
    decreases s.len(),
{
    if s.len() == 0 {
        seq![Seq::empty()]
    } else if s.last() == sep {
        pieces(s.drop_last(), sep).push(Seq::empty())
    } else {
        pieces(s.drop_last(), sep).drop_last().push(last_piece(s, sep))
    }
}

/// The value of a digit: `0`..`9`, then the letters of either case from
/// ten on.
pub open spec fn digit_value(c: char) -> Option<nat> {
    let u = c as u32;
    if 0x30 <= u && u <= 0x39 {
        Some((u - 0x30) as nat)
    } else if 0x61 <= u && u <= 0x7a {
        Some((u - 0x61 + 10) as nat)
    } else if 0x41 <= u && u <= 0x5a {
        Some((u - 0x41 + 10) as nat)
    } else {
        None
    }
}

/// The number that a run of digits denotes in a radix, if each character
/// is a digit of the radix. The empty run denotes zero.
pub open spec fn digits_value(s: Seq<char>, radix: nat) -> Option<nat>
    decreases s.len(),
{
    if s.len() == 0 {
        Some(0)
    } else {
        match (digits_value(s.drop_last(), radix), digit_value(s.last())) {
            (Some(high), Some(low)) => if low < radix {
                Some(high * radix + low)
            } else {
                None
            },
            _ => None,
        }
    }
}

/// The unsigned number that a text denotes: an optional `+`, then at
/// least one digit, the whole no greater than `usize::MAX`.
pub open spec fn unsigned_of(s: Seq<char>, radix: nat) -> Option<usize> {
    let body = if s.len() > 0 && s[0] == '+' {
        s.drop_first()
    } else {
        s
    };
    if body.len() == 0 {
        None
    } else {
        match digits_value(body, radix) {
            Some(v) => if v <= usize::MAX {
                Some(v as usize)
            } else {
                None
            },
            None => None,
        }
    }
}

/// The characters of a text.
pub fn chars_of(s: &str) -> (v: Vec<char>)
    ensures
        v@ == s@,
{
    let mut v: Vec<char> = Vec::new();
    for c in it: s.chars()
        invariant
            it.seq() == s@,
            v@ == s@.take(it.index() as int),
    {
        v.push(c);
        proof {
            assert(s@.take(it.index() + 1) =~= s@.take(it.index() as int).push(c));
        }
    }
    proof {
        assert(s@.take(s@.len() as int) =~= s@);
    }
    v
}

/// The text with the given characters.
pub fn text_of(v: &Vec<char>) -> (s: String)
    ensures
        s@ == v@,
{
    let mut s = String::new();
    let mut i: usize = 0;
    while i < v.len()
        invariant
            i <= v@.len(),
            s@ == v@.take(i as int),
        decreases v@.len() - i,
    {
        push_char(&mut s, v[i]);
        proof {
            assert(v@.take(i + 1) =~= v@.take(i as int).push(v@[i as int]));
        }
        i += 1;
    }
    proof {
        assert(v@.take(v@.len() as int) =~= v@);
    }
    s
}

/// The characters from position `from` up to position `to`.
pub(crate) fn part(v: &Vec<char>, from: usize, to: usize) -> (r: Vec<char>)
    requires
        from <= to <= v@.len(),
    ensures
        r@ == v@.subrange(from as int, to as int),
{
    let mut r: Vec<char> = Vec::new();
    let mut i: usize = from;
    while i < to
        invariant
            from <= i <= to,
            to <= v@.len(),
            r@ == v@.subrange(from as int, i as int),
        decreases to - i,
    {
        r.push(v[i]);
        proof {
            assert(v@.subrange(from as int, i + 1) =~= v@.subrange(from as int, i as int).push(
                v@[i as int],
            ));
        }
        i += 1;
    }
    r
}

/// Whether a character is whitespace.
pub fn is_white_char(c: char) -> (r: bool)
    ensures
        r == is_white(c),
{
    let u = c as u32;
    (0x09 <= u && u <= 0x0d) || u == 0x20 || u == 0x85 || u == 0xa0 || u == 0x1680 || (0x2000 <= u
        && u <= 0x200a) || u == 0x2028 || u == 0x2029 || u == 0x202f || u == 0x205f || u == 0x3000
}

/// Whether a character is of a class.
pub fn belongs(class: Class, c: char) -> (r: bool)
    ensures
        r == in_class(class, c),
{
    match class {
        Class::White => is_white_char(c),
        Class::Only(x) => c == x,
    }
}

/// After `k` characters of the class, the count goes on with the rest.
proof fn lemma_leading_skip(s: Seq<char>, class: Class, k: int)
    requires
        0 <= k <= s.len(),
        forall|j: int| 0 <= j < k ==> in_class(class, #[trigger] s[j]),
    ensures
        leading(s, class) == k + leading(s.skip(k), class),
    decreases k,
{
    if k == 0 {
        assert(s.skip(0) =~= s);
    } else {
        assert(in_class(class, s[0]));
        assert forall|j: int| 0 <= j < k - 1 implies in_class(
            class,
            #[trigger] s.drop_first()[j],
        ) by {
            assert(s.drop_first()[j] == s[j + 1]);
        }
        lemma_leading_skip(s.drop_first(), class, k - 1);
        assert(s.drop_first().skip(k - 1) =~= s.skip(k));
    }
}

/// Before a tail of characters of the class, the count goes on with
/// what precedes it.
proof fn lemma_trailing_take(s: Seq<char>, class: Class, k: int)
    requires
        0 <= k <= s.len(),
        forall|j: int| k <= j < s.len() ==> in_class(class, #[trigger] s[j]),
    ensures
        trailing(s, class) == s.len() - k + trailing(s.take(k), class),
    decreases s.len() - k,
{
    if k == s.len() {
        assert(s.take(k) =~= s);
    } else {
        assert(in_class(class, s[s.len() - 1]));
        assert forall|j: int| k <= j < s.len() - 1 implies in_class(
            class,
            #[trigger] s.drop_last()[j],
        ) by {
            assert(s.drop_last()[j] == s[j]);
        }
        lemma_trailing_take(s.drop_last(), class, k);
        assert(s.drop_last().take(k) =~= s.take(k));
    }
}

/// The text without the characters of the class at its beginning, where
/// `start` is set, and at its end, where `end` is set.
pub fn strip(v: &Vec<char>, class: Class, start: bool, end: bool) -> (r: Vec<char>)
    ensures
        start && end ==> r@ == stripped(v@, class),
        start && !end ==> r@ == without_leading(v@, class),
        !start && end ==> r@ == without_trailing(v@, class),
        !start && !end ==> r@ == v@,
{
    let mut from: usize = 0;
    if start {
        while from < v.len() && belongs(class, v[from])
            invariant
                from <= v@.len(),
                forall|j: int| 0 <= j < from ==> in_class(class, #[trigger] v@[j]),
            decreases v@.len() - from,
        {
            from += 1;
        }
        proof {
            lemma_leading_skip(v@, class, from as int);
            assert(leading(v@, class) == from);
        }
    }
    let mut to: usize = v.len();
    let ghost rest = v@.skip(from as int);
    if end {
        while from < to && belongs(class, v[to - 1])
            invariant
                from <= to <= v@.len(),
                rest == v@.skip(from as int),
                forall|j: int| to <= j < v@.len() ==> in_class(class, #[trigger] v@[j]),
            decreases to - from,
        {
            to -= 1;
        }
        proof {
            assert forall|j: int| to - from <= j < rest.len() implies in_class(
                class,
                #[trigger] rest[j],
            ) by {
                assert(rest[j] == v@[j + from]);
            }
            lemma_trailing_take(rest, class, to - from);
            if from < to {
                assert(rest.take(to - from).last() == v@[to - 1]);
            }
            assert(trailing(rest, class) == rest.len() - (to - from));
        }
    }
    proof {
        assert(v@.subrange(from as int, to as int) =~= rest.take(to - from));
        assert(v@.skip(0) =~= v@);
        assert(v@.take(v@.len() as int) =~= v@);
    }
    part(v, from, to)
}

/// Whether `pattern` stands in `v` at position `i`.
pub fn stands_at(v: &Vec<char>, pattern: &Vec<char>, i: usize) -> (r: bool)
    ensures
        r == matches_at(v@, pattern@, i as int),
{
    if pattern.len() > v.len() || i > v.len() - pattern.len() {
        return false;
    }
    let mut k: usize = 0;
    let n = v.len();
    while k < pattern.len()
        invariant
            k <= pattern@.len(),
            n == v@.len(),
            i + pattern@.len() <= v@.len(),
            forall|j: int| 0 <= j < k ==> v@[i + j] == pattern@[j],
        decreases pattern@.len() - k,
    {
        if v[i + k] != pattern[k] {
            proof {
                assert(v@.subrange(i as int, i + pattern@.len())[k as int] == v@[i + k]);
            }
            return false;
        }
        k += 1;
    }
    proof {
        assert(v@.subrange(i as int, i + pattern@.len()) =~= pattern@);
    }
    true
}

/// The first position at or after `start` at which `pattern` stands in
/// `v`.
pub fn find(v: &Vec<char>, pattern: &Vec<char>, start: usize) -> (r: Option<usize>)
    ensures
        match find_from(v@, pattern@, start as int) {
            Some(i) => r == Some(i as usize) && start <= i && i + pattern@.len() <= v@.len(),
            None => r is None,
        },
{
    if pattern.len() > v.len() {
        return None;
    }
    let last = v.len() - pattern.len();
    let mut i: usize = start;
    while i <= last
        invariant
            start <= i,
            last == v@.len() - pattern@.len(),
            find_from(v@, pattern@, start as int) == find_from(v@, pattern@, i as int),
        decreases last - i,
    {
        if stands_at(v, pattern, i) {
            return Some(i);
        }
        if i == last {
            proof {
                assert(find_from(v@, pattern@, i + 1) is None);
            }
            return None;
        }
        i += 1;
    }
    None
}

/// The text without every copy of `pattern` that it begins with.
pub fn strip_prefixes(v: &Vec<char>, pattern: &Vec<char>) -> (r: Vec<char>)
    ensures
        r@ == without_prefixes(v@, pattern@),
{
    let mut from: usize = 0;
    let n = v.len();
    if pattern.len() > 0 {
        proof {
            assert(v@.skip(0) =~= v@);
        }
        while stands_at(v, pattern, from)
            invariant
                from <= v@.len(),
                n == v@.len(),
                pattern@.len() > 0,
                without_prefixes(v@, pattern@) == without_prefixes(v@.skip(from as int), pattern@),
            decreases v@.len() - from,
        {
            proof {
                let rest = v@.skip(from as int);
                assert(rest.subrange(0, pattern@.len() as int) =~= v@.subrange(
                    from as int,
                    from + pattern@.len(),
                ));
                assert(rest.skip(pattern@.len() as int) =~= v@.skip(from + pattern@.len()));
            }
            from += pattern.len();
        }
        proof {
            let rest = v@.skip(from as int);
            if from + pattern@.len() <= v@.len() {
                assert(rest.subrange(0, pattern@.len() as int) =~= v@.subrange(
                    from as int,
                    from + pattern@.len(),
                ));
            }
        }
    } else {
        proof {
            assert(v@.skip(0) =~= v@);
        }
    }
    proof {
        assert(v@.subrange(from as int, v@.len() as int) =~= v@.skip(from as int));
    }
    part(v, from, v.len())
}

/// The views of a list of texts.
pub open spec fn rows(list: Seq<Vec<char>>) -> Seq<Seq<char>> {
    list.map_values(|p: Vec<char>| p@)
}

/// The list of parts always ends with the last part.
pub proof fn lemma_pieces_last(s: Seq<char>, sep: char)
    ensures
        pieces(s, sep).len() > 0,
        pieces(s, sep).last() == last_piece(s, sep),
    decreases s.len(),
{
    if s.len() > 0 {
        lemma_pieces_last(s.drop_last(), sep);
    }
}

/// The parts of a text between its separators.
pub fn split_at(v: &Vec<char>, sep: char) -> (list: Vec<Vec<char>>)
    ensures
        rows(list@) == pieces(v@, sep),
{
    let mut list: Vec<Vec<char>> = Vec::new();
    let mut current: Vec<char> = Vec::new();
    let mut i: usize = 0;
    proof {
        assert(v@.take(0) =~= Seq::<char>::empty());
        assert(rows(list@).push(current@) =~= pieces(v@.take(0), sep));
    }
    while i < v.len()
        invariant
            i <= v@.len(),
            rows(list@).push(current@) == pieces(v@.take(i as int), sep),
            current@ == last_piece(v@.take(i as int), sep),
        decreases v@.len() - i,
    {
        let c = v[i];
        let ghost seen = v@.take(i as int);
        let ghost more = v@.take(i + 1);
        let ghost held = rows(list@);
        let ghost open = current@;
        proof {
            assert(more.drop_last() =~= seen);
            assert(more.last() == c);
        }
        if c == sep {
            list.push(current);
            current = Vec::new();
            proof {
                assert(rows(list@) =~= held.push(open));
            }
        } else {
            current.push(c);
            proof {
                assert(held.push(open).drop_last() =~= held);
            }
        }
        i += 1;
    }
    let ghost held = rows(list@);
    let ghost open = current@;
    list.push(current);
    proof {
        assert(v@.take(v@.len() as int) =~= v@);
        assert(rows(list@) =~= held.push(open));
    }
    list
}

/// What follows the last separator of a text.
pub fn last_part(v: &Vec<char>, sep: char) -> (r: Vec<char>)
    ensures
        r@ == last_piece(v@, sep),
{
    let mut list = split_at(v, sep);
    proof {
        lemma_pieces_last(v@, sep);
        assert(rows(list@).last() == list@.last()@);
    }
    match list.pop() {
        Some(r) => r,
        None => Vec::new(),
    }
}

/// The value of a character as a digit.
pub fn digit_of(c: char) -> (d: Option<u32>)
    ensures
        match digit_value(c) {
            Some(v) => d == Some(v as u32) && v < 36,
            None => d is None,
        },
{
    let u = c as u32;
    if 0x30 <= u && u <= 0x39 {
        Some(u - 0x30)
    } else if 0x61 <= u && u <= 0x7a {
        Some(u - 0x61 + 10)
    } else if 0x41 <= u && u <= 0x5a {
        Some(u - 0x41 + 10)
    } else {
        None
    }
}

/// A run of digits denotes at least what any run that it begins with
/// denotes, and denotes nothing if such a run denotes nothing.
pub proof fn lemma_digits_prefix(s: Seq<char>, k: int, radix: nat)
    requires
        0 <= k <= s.len(),
        radix >= 1,
    ensures
        digits_value(s, radix) is Some ==> digits_value(s.take(k), radix) is Some && digits_value(
            s.take(k),
            radix,
        )->0 <= digits_value(s, radix)->0,
    decreases s.len(),
{
    if k == s.len() {
        assert(s.take(k) =~= s);
    } else {
        lemma_digits_prefix(s.drop_last(), k, radix);
        assert(s.drop_last().take(k) =~= s.take(k));
        if digits_value(s, radix) is Some {
            let high = digits_value(s.drop_last(), radix)->0;
            assert(high * radix >= high) by (nonlinear_arith)
                requires
                    radix >= 1,
                    high >= 0,
            ;
        }
    }
}

/// The number that a text denotes in a radix.
fn parse_unsigned(v: &Vec<char>, radix: u32) -> (r: Option<usize>)
    requires
        2 <= radix <= 36,
    ensures
        r == unsigned_of(v@, radix as nat),
{
    let n = v.len();
    let start: usize = if n > 0 && v[0] == '+' {
        1
    } else {
        0
    };
    let ghost body = v@.skip(start as int);
    proof {
        if start == 0 {
            assert(v@.skip(0) =~= v@);
        } else {
            assert(v@.skip(1) =~= v@.drop_first());
        }
    }
    if start == n {
        return None;
    }
    let mut acc: usize = 0;
    let mut i: usize = start;
    proof {
        assert(body.take(0) =~= Seq::<char>::empty());
    }
    while i < n
        invariant
            start <= i <= n,
            n == v@.len(),
            2 <= radix <= 36,
            body == v@.skip(start as int),
            body.len() == n - start,
            start < n,
            body == (if v@.len() > 0 && v@[0] == '+' {
                v@.drop_first()
            } else {
                v@
            }),
            digits_value(body.take(i - start), radix as nat) == Some(acc as nat),
        decreases n - i,
    {
        let ghost seen = body.take(i - start);
        let ghost more = body.take(i + 1 - start);
        proof {
            assert(more.drop_last() =~= seen);
            assert(more.last() == v@[i as int]);
            lemma_digits_prefix(body, i + 1 - start, radix as nat);
        }
        let digit = match digit_of(v[i]) {
            Some(d) => d,
            None => {
                proof {
                    assert(digits_value(more, radix as nat) is None);
                }
                return None;
            },
        };
        if digit >= radix {
            proof {
                assert(digits_value(more, radix as nat) is None);
            }
            return None;
        }
        proof {
            assert(digits_value(more, radix as nat) == Some(acc as nat * radix as nat + digit as nat));
        }
        let shifted = match acc.checked_mul(radix as usize) {
            Some(x) => x,
            None => {
                return None;
            },
        };
        acc = match shifted.checked_add(digit as usize) {
            Some(x) => x,
            None => {
                return None;
            },
        };
        i += 1;
    }
    proof {
        assert(body.take(n - start) =~= body);
    }
    Some(acc)
}

/// The number that a text denotes in base sixteen.
pub fn parse_hex(v: &Vec<char>) -> (r: Option<usize>)
    ensures
        r == unsigned_of(v@, 16),
{
    parse_unsigned(v, 16)
}

/// The number that a text denotes in base ten.
pub fn parse_decimal(v: &Vec<char>) -> (r: Option<usize>)
    ensures
        r == unsigned_of(v@, 10),
{
    parse_unsigned(v, 10)
}

/// The texts of a list without the whitespace at their ends, leaving
/// out those of which nothing is left.
pub open spec fn kept(list: Seq<Seq<char>>) -> Seq<Seq<char>>
    decreases list.len(),
{
    if list.len() == 0 {
        Seq::empty()
    } else if stripped(list.last(), Class::White).len() > 0 {
        kept(list.drop_last()).push(stripped(list.last(), Class::White))
    } else {
        kept(list.drop_last())
    }
}

/// The parts of a text between its separators, each without the
/// whitespace at its ends, leaving out those of which nothing is left.
pub fn split_and_trim(v: &Vec<char>, sep: char) -> (list: Vec<Vec<char>>)
    ensures
        rows(list@) == kept(pieces(v@, sep)),
{
    let raw = split_at(v, sep);
    let mut list: Vec<Vec<char>> = Vec::new();
    let mut i: usize = 0;
    proof {
        assert(rows(raw@).take(0) =~= Seq::<Seq<char>>::empty());
        assert(rows(list@) =~= kept(rows(raw@).take(0)));
    }
    while i < raw.len()
        invariant
            i <= raw@.len(),
            rows(list@) == kept(rows(raw@).take(i as int)),
        decreases raw@.len() - i,
    {
        let word = strip(&raw[i], Class::White, true, true);
        let ghost held = rows(list@);
        proof {
            let all = rows(raw@);
            assert(all.take(i + 1).drop_last() =~= all.take(i as int));
            assert(all.take(i + 1).last() == raw@[i as int]@);
        }
        if word.len() > 0 {
            let ghost w = word@;
            list.push(word);
            proof {
                assert(rows(list@) =~= held.push(w));
            }
        }
        i += 1;
    }
    proof {
        assert(rows(raw@).take(raw@.len() as int) =~= rows(raw@));
    }
    list
}

} // verus!
