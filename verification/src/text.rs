//! Text primitives shared by the index and commit formats: the characters of
//! a string, lexicographic order, and line splitting.

use vstd::prelude::*;
use vstd::string::*;
use vstd::utf8::{decode_utf8, valid_utf8};

verus! {

/// Calls `std::str::from_utf8`.
///
/// Trusted: the call succeeds exactly on well-formed UTF-8, and the text it
/// gives is what the bytes encode.
#[verifier::external_body]
pub(crate) fn str_from_utf8(bytes: &[u8]) -> (text: Option<&str>)
    ensures
        match text {
            Some(text) => valid_utf8(bytes@) && text@ == decode_utf8(bytes@),
            None => !valid_utf8(bytes@),
        },
{
    match std::str::from_utf8(bytes) {
        Ok(text) => Some(text),
        Err(_) => None,
    }
}

/// The characters of `s`, in order.
pub fn chars_of(s: &str) -> (chars: Vec<char>)
    ensures
        chars@ == s@,
{
    let mut chars: Vec<char> = Vec::new();
    for c in it: s.chars()
        invariant
            chars@ == it.seq().take(it.index() as int),
            it.seq() == s@,
    {
        chars.push(c);
    }
    chars
}

/// Strict lexicographic order on strings, character by character. A proper
/// prefix precedes every string it begins.
pub open spec fn precedes(a: Seq<char>, b: Seq<char>) -> bool
    decreases a.len(),
{
    if b.len() == 0 {
        false
    } else if a.len() == 0 {
        true
    } else if a[0] != b[0] {
        a[0] < b[0]
    } else {
        precedes(a.drop_first(), b.drop_first())
    }
}

/// No string precedes itself.
pub proof fn lemma_precedes_irreflexive(a: Seq<char>)
    ensures
        !precedes(a, a),
    decreases a.len(),
{
    if a.len() > 0 {
        lemma_precedes_irreflexive(a.drop_first());
    }
}

/// Of two different strings, one precedes the other.
pub proof fn lemma_precedes_total(a: Seq<char>, b: Seq<char>)
    ensures
        a == b || precedes(a, b) || precedes(b, a),
    decreases a.len(),
{
    if a.len() == 0 || b.len() == 0 {
        if a.len() == 0 && b.len() == 0 {
            assert(a =~= b);
        }
    } else if a[0] == b[0] {
        lemma_precedes_total(a.drop_first(), b.drop_first());
        if a.drop_first() == b.drop_first() {
            assert(a =~= seq![a[0]] + a.drop_first());
            assert(b =~= seq![b[0]] + b.drop_first());
        }
    }
}

/// The order never holds both ways.
pub proof fn lemma_precedes_asymmetric(a: Seq<char>, b: Seq<char>)
    ensures
        !(precedes(a, b) && precedes(b, a)),
    decreases a.len(),
{
    if a.len() > 0 && b.len() > 0 && a[0] == b[0] {
        lemma_precedes_asymmetric(a.drop_first(), b.drop_first());
    }
}

/// The order is transitive.
pub proof fn lemma_precedes_transitive(a: Seq<char>, b: Seq<char>, c: Seq<char>)
    requires
        precedes(a, b),
        precedes(b, c),
    ensures
        precedes(a, c),
    decreases a.len(),
{
    if a.len() > 0 && b.len() > 0 && c.len() > 0 && a[0] == b[0] && b[0] == c[0] {
        lemma_precedes_transitive(a.drop_first(), b.drop_first(), c.drop_first());
    }
}

/// How one string stands to another in lexicographic order.
#[derive(Clone, Copy, Debug, PartialEq, Eq, Structural)]
pub enum TextOrder {
    Before,
    Same,
    After,
}

/// Where `a` stands relative to `b`: before it, the same text, or after it.
pub fn text_order(a: &str, b: &str) -> (order: TextOrder)
    ensures
        order == TextOrder::Before <==> precedes(a@, b@),
        order == TextOrder::Same <==> a@ == b@,
        order == TextOrder::After <==> precedes(b@, a@),
{
    let x = chars_of(a);
    let y = chars_of(b);
    let mut i: usize = 0;
    proof {
        assert(x@.skip(0) =~= x@);
        assert(y@.skip(0) =~= y@);
        lemma_precedes_irreflexive(a@);
        lemma_precedes_asymmetric(a@, b@);
    }
    while i < x.len() && i < y.len()
        invariant
            i <= x.len(),
            i <= y.len(),
            x@ == a@,
            y@ == b@,
            x@.take(i as int) == y@.take(i as int),
            precedes(a@, b@) == precedes(x@.skip(i as int), y@.skip(i as int)),
            precedes(b@, a@) == precedes(y@.skip(i as int), x@.skip(i as int)),
        decreases x.len() - i,
    {
        proof {
            assert(x@.skip(i as int).drop_first() =~= x@.skip(i as int + 1));
            assert(y@.skip(i as int).drop_first() =~= y@.skip(i as int + 1));
        }
        if x[i] != y[i] {
            if x[i] < y[i] {
                return TextOrder::Before;
            } else {
                return TextOrder::After;
            }
        }
        proof {
            assert(x@.take(i as int + 1) =~= x@.take(i as int).push(x@[i as int]));
            assert(y@.take(i as int + 1) =~= y@.take(i as int).push(y@[i as int]));
        }
        i += 1;
    }
    if i < y.len() {
        TextOrder::Before
    } else if i < x.len() {
        TextOrder::After
    } else {
        proof {
            assert(x@ =~= x@.take(i as int));
            assert(y@ =~= y@.take(i as int));
        }
        TextOrder::Same
    }
}

/// Whether `a` and `b` hold the same text.
pub fn same_text(a: &str, b: &str) -> (same: bool)
    ensures
        same == (a@ == b@),
{
    text_order(a, b) == TextOrder::Same
}

/// The views of a vector of strings, in order.
pub open spec fn texts(strings: Seq<String>) -> Seq<Seq<char>> {
    Seq::new(strings.len(), |i: int| strings[i]@)
}

/// Index of the first `c` in `s`, or `s.len()` where `s` holds none.
pub open spec fn position_of(s: Seq<char>, c: char) -> int
    decreases s.len(),
{
    if s.len() == 0 || s[0] == c {
        0
    } else {
        1 + position_of(s.drop_first(), c)
    }
}

/// `position_of` stays within the string, passes no `c`, and stops on one.
pub proof fn lemma_position_of(s: Seq<char>, c: char)
    ensures
        0 <= position_of(s, c) <= s.len(),
        forall|i: int| 0 <= i < position_of(s, c) ==> s[i] != c,
        position_of(s, c) < s.len() ==> s[position_of(s, c)] == c,
    decreases s.len(),
{
    if s.len() > 0 && s[0] != c {
        let rest = s.drop_first();
        lemma_position_of(rest, c);
        assert forall|i: int| 0 <= i < position_of(s, c) implies s[i] != c by {
            if i > 0 {
                assert(s[i] == rest[i - 1]);
            }
        }
    }
}

/// An index that passes no `c` and stops on one, or at the end, is `position_of`.
pub proof fn lemma_position_is(s: Seq<char>, c: char, k: int)
    requires
        0 <= k <= s.len(),
        forall|i: int| 0 <= i < k ==> s[i] != c,
        k < s.len() ==> s[k] == c,
    ensures
        position_of(s, c) == k,
    decreases s.len(),
{
    if s.len() > 0 && s[0] != c {
        let rest = s.drop_first();
        assert forall|i: int| 0 <= i < k - 1 implies rest[i] != c by {
            assert(rest[i] == s[i + 1]);
        }
        lemma_position_is(rest, c, k - 1);
    }
}

/// White space: the characters with the Unicode property `White_Space`, which
/// are those that `char::is_whitespace` accepts.
pub open spec fn is_whitespace(c: char) -> bool {
    ||| '\u{9}' <= c && c <= '\u{d}'
    ||| c == ' '
    ||| c == '\u{85}'
    ||| c == '\u{a0}'
    ||| c == '\u{1680}'
    ||| '\u{2000}' <= c && c <= '\u{200a}'
    ||| c == '\u{2028}'
    ||| c == '\u{2029}'
    ||| c == '\u{202f}'
    ||| c == '\u{205f}'
    ||| c == '\u{3000}'
}

/// Whether `c` is white space.
pub fn whitespace(c: char) -> (yes: bool)
    ensures
        yes == is_whitespace(c),
{
    (c >= '\u{9}' && c <= '\u{d}') || c == ' ' || c == '\u{85}' || c == '\u{a0}' || c == '\u{1680}'
        || (c >= '\u{2000}' && c <= '\u{200a}') || c == '\u{2028}' || c == '\u{2029}' || c
        == '\u{202f}' || c == '\u{205f}' || c == '\u{3000}'
}

/// Some character of `s` is white space.
pub open spec fn has_whitespace(s: Seq<char>) -> bool {
    exists|i: int| 0 <= i < s.len() && is_whitespace(#[trigger] s[i])
}

/// Index of the first white space in `s`, or `s.len()` where `s` holds none.
pub open spec fn first_whitespace(s: Seq<char>) -> int
    decreases s.len(),
{
    if s.len() == 0 || is_whitespace(s[0]) {
        0
    } else {
        1 + first_whitespace(s.drop_first())
    }
}

/// `first_whitespace` stays within the string, passes no white space, and
/// stops on some.
pub proof fn lemma_first_whitespace(s: Seq<char>)
    ensures
        0 <= first_whitespace(s) <= s.len(),
        forall|i: int| 0 <= i < first_whitespace(s) ==> !is_whitespace(#[trigger] s[i]),
        first_whitespace(s) < s.len() ==> is_whitespace(s[first_whitespace(s)]),
        first_whitespace(s) < s.len() <==> has_whitespace(s),
    decreases s.len(),
{
    if s.len() > 0 && !is_whitespace(s[0]) {
        let rest = s.drop_first();
        lemma_first_whitespace(rest);
        assert forall|i: int| 0 <= i < first_whitespace(s) implies !is_whitespace(
            #[trigger] s[i],
        ) by {
            if i > 0 {
                assert(s[i] == rest[i - 1]);
            }
        }
        if has_whitespace(s) {
            let i = choose|i: int| 0 <= i < s.len() && is_whitespace(#[trigger] s[i]);
            assert(is_whitespace(rest[i - 1]));
        }
        if has_whitespace(rest) {
            let i = choose|i: int| 0 <= i < rest.len() && is_whitespace(#[trigger] rest[i]);
            assert(is_whitespace(s[i + 1]));
        }
    } else if s.len() > 0 {
        assert(is_whitespace(s[0]));
    }
}

/// An index that passes no white space and stops on some, or at the end, is
/// `first_whitespace`.
pub proof fn lemma_first_whitespace_is(s: Seq<char>, k: int)
    requires
        0 <= k <= s.len(),
        forall|i: int| 0 <= i < k ==> !is_whitespace(#[trigger] s[i]),
        k < s.len() ==> is_whitespace(s[k]),
    ensures
        first_whitespace(s) == k,
    decreases s.len(),
{
    if s.len() > 0 && !is_whitespace(s[0]) {
        let rest = s.drop_first();
        assert forall|i: int| 0 <= i < k - 1 implies !is_whitespace(#[trigger] rest[i]) by {
            assert(rest[i] == s[i + 1]);
        }
        lemma_first_whitespace_is(rest, k - 1);
    } else if s.len() > 0 {
        if k > 0 {
            assert(!is_whitespace(s[0]));
        }
    }
}

/// Index of the first white space in `chars` at or after `start`, or the
/// length of `chars` where none follows.
pub fn find_whitespace(chars: &Vec<char>, start: usize) -> (found: usize)
    requires
        start <= chars.len(),
    ensures
        start <= found <= chars.len(),
        found == start + first_whitespace(chars@.skip(start as int)),
{
    let mut i: usize = start;
    while i < chars.len() && !whitespace(chars[i])
        invariant
            start <= i <= chars.len(),
            forall|j: int| start <= j < i ==> !is_whitespace(#[trigger] chars@[j]),
        decreases chars.len() - i,
    {
        i += 1;
    }
    proof {
        let rest = chars@.skip(start as int);
        assert forall|j: int| 0 <= j < i - start implies !is_whitespace(#[trigger] rest[j]) by {
            assert(rest[j] == chars@[start + j]);
        }
        lemma_first_whitespace_is(rest, i - start);
    }
    i
}

/// Whether `chars` begins with the text `prefix`.
pub fn starts_with(chars: &Vec<char>, prefix: &str) -> (yes: bool)
    ensures
        yes == prefix@.is_prefix_of(chars@),
{
    let head = chars_of(prefix);
    if head.len() > chars.len() {
        return false;
    }
    let mut i: usize = 0;
    while i < head.len()
        invariant
            i <= head.len() <= chars.len(),
            head@ == prefix@,
            forall|j: int| 0 <= j < i ==> head@[j] == chars@[j],
        decreases head.len() - i,
    {
        if head[i] != chars[i] {
            assert(chars@.subrange(0, head.len() as int)[i as int] != head@[i as int]);
            return false;
        }
        i += 1;
    }
    assert(head@ =~= chars@.subrange(0, head.len() as int));
    true
}

/// `line` without one trailing carriage return, if it has one.
pub open spec fn strip_cr(line: Seq<char>) -> Seq<char> {
    if line.len() > 0 && line.last() == '\r' {
        line.drop_last()
    } else {
        line
    }
}

/// The lines of `text`. A line ends at a line feed, which is dropped together
/// with a carriage return directly before it; the last line needs no line
/// feed, and an empty text has no lines.
pub open spec fn lines_of(text: Seq<char>) -> Seq<Seq<char>>
    decreases text.len(),
{
    let k = position_of(text, '\n');
    if text.len() == 0 {
        Seq::empty()
    } else if k < 0 || k >= text.len() {
        // No line feed: `k` is the length of the text. It is never negative;
        // to say so here lets the recursion below be seen to end.
        seq![text]
    } else {
        seq![strip_cr(text.take(k))] + lines_of(text.skip(k + 1))
    }
}

/// A text that holds no line feed and is followed by one is a single line.
pub proof fn lemma_lines_of_one(line: Seq<char>)
    requires
        !line.contains('\n'),
    ensures
        lines_of(line.push('\n')) == seq![strip_cr(line)],
{
    let text = line.push('\n');
    assert forall|i: int| 0 <= i < line.len() implies text[i] != '\n' by {
        assert(line.contains(line[i]));
    }
    let n = line.len() as int;
    lemma_position_is(text, '\n', n);
    assert(text.take(n) =~= line);
    assert(text.skip(n + 1).len() == 0);
    assert(seq![strip_cr(line)] + lines_of(text.skip(n + 1)) =~= seq![strip_cr(line)]);
}

/// After a text that is empty or ends in a line feed, lines start afresh.
pub proof fn lemma_lines_of_concat(a: Seq<char>, b: Seq<char>)
    requires
        a.len() == 0 || a.last() == '\n',
    ensures
        lines_of(a + b) == lines_of(a) + lines_of(b),
    decreases a.len(),
{
    if a.len() == 0 {
        assert(a + b =~= b);
        assert(lines_of(a) + lines_of(b) =~= lines_of(b));
    } else {
        let k = position_of(a, '\n');
        lemma_position_of(a, '\n');
        if k >= a.len() {
            assert(a[a.len() - 1] != '\n');
        }
        assert forall|i: int| 0 <= i < k implies (a + b)[i] != '\n' by {
            assert((a + b)[i] == a[i]);
        }
        lemma_position_is(a + b, '\n', k);
        assert((a + b).take(k) =~= a.take(k));
        assert((a + b).skip(k + 1) =~= a.skip(k + 1) + b);
        let rest = a.skip(k + 1);
        if rest.len() > 0 {
            assert(rest.last() == a.last());
        }
        lemma_lines_of_concat(rest, b);
        assert(lines_of(a + b) =~= lines_of(a) + lines_of(b));
    }
}

/// Splits `text` into its lines.
pub fn split_lines(text: &str) -> (lines: Vec<String>)
    ensures
        texts(lines@) == lines_of(text@),
{
    let chars = chars_of(text);
    let n = chars.len();
    let mut lines: Vec<String> = Vec::new();
    let mut start: usize = 0;
    let mut i: usize = 0;
    proof {
        assert(text@.skip(0) =~= text@);
        assert(texts(lines@) + lines_of(text@) =~= lines_of(text@));
    }
    while i < n
        invariant
            chars@ == text@,
            n == chars.len(),
            start <= i <= n,
            forall|j: int| start <= j < i ==> text@[j] != '\n',
            lines_of(text@) == texts(lines@) + lines_of(text@.skip(start as int)),
        decreases n - i,
    {
        if chars[i] == '\n' {
            let end = if i > start && chars[i - 1] == '\r' {
                i - 1
            } else {
                i
            };
            let line = String::from_str(text.substring_char(start, end));
            proof {
                let rest = text@.skip(start as int);
                lemma_position_is(rest, '\n', i - start);
                assert(rest.take(i - start) =~= text@.subrange(start as int, i as int));
                assert(rest.skip(i - start + 1) =~= text@.skip(i + 1));
                assert(line@ =~= strip_cr(text@.subrange(start as int, i as int)));
                assert(texts(lines@.push(line)) =~= texts(lines@) + seq![line@]);
            }
            lines.push(line);
            start = i + 1;
        }
        i += 1;
    }
    if start < n {
        let line = String::from_str(text.substring_char(start, n));
        proof {
            let rest = text@.skip(start as int);
            lemma_position_is(rest, '\n', n - start);
            assert(line@ =~= rest);
            assert(texts(lines@.push(line)) =~= texts(lines@) + seq![line@]);
        }
        lines.push(line);
    } else {
        proof {
            assert(texts(lines@) + Seq::<Seq<char>>::empty() =~= texts(lines@));
        }
    }
    lines
}

} // verus!
