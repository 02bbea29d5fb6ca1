//! Characters, blank trimming and line splitting over sequences of characters.
//!
//! A document is handled as the sequence of its characters, so every offset in
//! this crate counts characters, never bytes.

use vstd::prelude::*;

verus! {

/// `String::push` of the standard library: the string afterwards is the string
/// before with `c` appended as its last character. Nothing else is claimed.
pub assume_specification[ String::push ](s: &mut String, c: char)
    ensures
        final(s)@ == old(s)@.push(c),
;

/// The characters that count as blank: the Unicode `White_Space` code points.
pub open spec fn is_whitespace(c: char) -> bool {
    ||| '\u{9}' <= c <= '\u{d}'
    ||| c == ' '
    ||| c == '\u{85}'
    ||| c == '\u{a0}'
    ||| c == '\u{1680}'
    ||| '\u{2000}' <= c <= '\u{200a}'
    ||| c == '\u{2028}'
    ||| c == '\u{2029}'
    ||| c == '\u{202f}'
    ||| c == '\u{205f}'
    ||| c == '\u{3000}'
}

/// `s` without its leading blanks.
pub open spec fn trim_start(s: Seq<char>) -> Seq<char>
    decreases s.len(),
{
    if s.len() > 0 && is_whitespace(s[0]) {
        trim_start(s.drop_first())
    } else {
        s
    }
}

/// `s` without its trailing blanks.
pub open spec fn trim_end(s: Seq<char>) -> Seq<char>
    decreases s.len(),
{
    if s.len() > 0 && is_whitespace(s.last()) {
        trim_end(s.drop_last())
    } else {
        s
    }
}

/// `s` without its leading and trailing blanks.
pub open spec fn trim(s: Seq<char>) -> Seq<char> {
    trim_end(trim_start(s))
}

/// The part of `line` that lies in columns `start..end`; columns past the end
/// of the line hold nothing.
pub open spec fn clip(line: Seq<char>, start: int, end: int) -> Seq<char> {
    let hi = if end < line.len() { end } else { line.len() as int };
    let lo = if start < hi { start } else { hi };
    line.subrange(lo, hi)
}

/// The least index `i >= from` with `s[i] == c`, or `s.len()` when `c` does
/// not occur from `from` on.
pub open spec fn find_from(s: Seq<char>, c: char, from: int) -> int
    decreases s.len() - from,
{
    if from >= s.len() {
        s.len() as int
    } else if s[from] == c {
        from
    } else {
        find_from(s, c, from + 1)
    }
}

/// `line` without one trailing carriage return.
pub open spec fn strip_carriage_return(line: Seq<char>) -> Seq<char> {
    if line.len() > 0 && line.last() == '\r' {
        line.drop_last()
    } else {
        line
    }
}

/// The lines of `text`. A line ends at a line feed; a carriage return right
/// before that line feed belongs to the line ending too. The last line needs
/// no line feed, and text after the last line feed, if there is any, is a line
/// of its own and keeps a carriage return it may end in.
pub open spec fn lines_of(text: Seq<char>) -> Seq<Seq<char>>
    decreases text.len(),
{
    let k = find_from(text, '\n', 0);
    if text.len() == 0 {
        Seq::empty()
    } else if 0 <= k < text.len() {
        seq![strip_carriage_return(text.subrange(0, k))] + lines_of(
            text.subrange(k + 1, text.len() as int),
        )
    } else {
        seq![text]
    }
}

/// `find_from` yields an index between `from` and the length; nothing before
/// it is `c`, and it holds `c` unless it is the length.
pub proof fn lemma_find_from(s: Seq<char>, c: char, from: int)
    requires
        0 <= from <= s.len(),
    ensures
        from <= find_from(s, c, from) <= s.len(),
        find_from(s, c, from) < s.len() ==> s[find_from(s, c, from)] == c,
        forall|i: int| from <= i < find_from(s, c, from) ==> s[i] != c,
    decreases s.len() - from,
{
    if from < s.len() && s[from] != c {
        lemma_find_from(s, c, from + 1);
    }
}

/// Searching a suffix finds the same place as searching the whole from where
/// the suffix starts.
pub proof fn lemma_find_from_suffix(s: Seq<char>, c: char, start: int, from: int)
    requires
        0 <= start <= s.len(),
        0 <= from <= s.len() - start,
    ensures
        find_from(s.subrange(start, s.len() as int), c, from) + start == find_from(
            s,
            c,
            start + from,
        ),
    decreases s.len() - start - from,
{
    let t = s.subrange(start, s.len() as int);
    if from < t.len() && t[from] != c {
        lemma_find_from_suffix(s, c, start, from + 1);
    }
}

/// What `trim_start` leaves is the end of `s`; it starts with no blank, and
/// all it leaves out is blank.
pub proof fn lemma_trim_start(s: Seq<char>)
    ensures
        trim_start(s).len() <= s.len(),
        trim_start(s) == s.subrange(s.len() - trim_start(s).len(), s.len() as int),
        trim_start(s).len() > 0 ==> !is_whitespace(trim_start(s)[0]),
        forall|i: int| 0 <= i < s.len() - trim_start(s).len() ==> is_whitespace(#[trigger] s[i]),
    decreases s.len(),
{
    if s.len() > 0 && is_whitespace(s[0]) {
        let rest = s.drop_first();
        lemma_trim_start(rest);
        let k = rest.len() - trim_start(rest).len();
        assert(rest.subrange(k, rest.len() as int) == s.subrange(k + 1, s.len() as int));
        assert forall|i: int| 0 <= i < s.len() - trim_start(s).len() implies is_whitespace(
            #[trigger] s[i],
        ) by {
            if i > 0 {
                assert(s[i] == rest[i - 1]);
            }
        }
    } else {
        assert(s.subrange(0, s.len() as int) == s);
    }
}

/// What `trim_end` leaves is the start of `s`; it ends with no blank, and all
/// it leaves out is blank.
pub proof fn lemma_trim_end(s: Seq<char>)
    ensures
        trim_end(s).len() <= s.len(),
        trim_end(s) == s.subrange(0, trim_end(s).len() as int),
        trim_end(s).len() > 0 ==> !is_whitespace(trim_end(s).last()),
        forall|i: int| trim_end(s).len() <= i < s.len() ==> is_whitespace(#[trigger] s[i]),
    decreases s.len(),
{
    if s.len() > 0 && is_whitespace(s.last()) {
        let rest = s.drop_last();
        lemma_trim_end(rest);
        assert(rest.subrange(0, trim_end(rest).len() as int) == s.subrange(
            0,
            trim_end(rest).len() as int,
        ));
        assert forall|i: int| trim_end(s).len() <= i < s.len() implies is_whitespace(
            #[trigger] s[i],
        ) by {
            if i < rest.len() {
                assert(s[i] == rest[i]);
            }
        }
    } else {
        assert(s.subrange(0, s.len() as int) == s);
    }
}

/// Trimmed text is no longer than the text, and it neither starts nor ends
/// with a blank.
pub proof fn lemma_trim(s: Seq<char>)
    ensures
        trim(s).len() <= s.len(),
        trim(s).len() > 0 ==> !is_whitespace(trim(s)[0]) && !is_whitespace(trim(s).last()),
{
    lemma_trim_start(s);
    lemma_trim_end(trim_start(s));
    let t = trim_start(s);
    if trim(s).len() > 0 {
        assert(trim(s)[0] == t[0]);
    }
}

/// Whether `c` is a blank.
pub fn char_is_whitespace(c: char) -> (b: bool)
    ensures
        b == is_whitespace(c),
{
    ('\u{9}' <= c && c <= '\u{d}') || c == ' ' || c == '\u{85}' || c == '\u{a0}' || c
        == '\u{1680}' || ('\u{2000}' <= c && c <= '\u{200a}') || c == '\u{2028}' || c
        == '\u{2029}' || c == '\u{202f}' || c == '\u{205f}' || c == '\u{3000}'
}

/// The characters of `text`, in order.
pub fn chars_of(text: &str) -> (v: Vec<char>)
    ensures
        v@ == text@,
{
    let mut v: Vec<char> = Vec::new();
    for c in it: text.chars()
        invariant
            v@ == it.seq().take(it.index()),
    {
        v.push(c);
    }
    v
}

/// A string made of the characters of `chars`.
pub fn string_of(chars: &[char]) -> (s: String)
    ensures
        s@ == chars@,
{
    let mut s = String::new();
    let mut i: usize = 0;
    while i < chars.len()
        invariant
            i <= chars.len(),
            s@ == chars@.take(i as int),
        decreases chars.len() - i,
    {
        s.push(chars[i]);
        i += 1;
    }
    s
}

/// The bounds of `s` trimmed: `s@.subrange(r.0, r.1)` is `s` without its
/// leading and trailing blanks, and `r.0` is the number of leading blanks.
pub fn trim_bounds(s: &[char]) -> (r: (usize, usize))
    ensures
        r.0 <= r.1 <= s@.len(),
        s@.subrange(r.0 as int, r.1 as int) == trim(s@),
        r.0 == s@.len() - trim_start(s@).len(),
{
    let n = s.len();
    let mut a: usize = 0;
    assert(s@.subrange(0, n as int) == s@);
    while a < n && char_is_whitespace(s[a])
        invariant
            a <= n == s@.len(),
            trim_start(s@) == trim_start(s@.subrange(a as int, n as int)),
        decreases n - a,
    {
        assert(s@.subrange(a as int, n as int).drop_first() == s@.subrange(a + 1, n as int));
        a += 1;
    }
    let ghost tail = s@.subrange(a as int, n as int);
    assert(trim_start(s@) == tail);
    let mut b: usize = n;
    while b > a && char_is_whitespace(s[b - 1])
        invariant
            a <= b <= n == s@.len(),
            trim_end(tail) == trim_end(s@.subrange(a as int, b as int)),
            tail == s@.subrange(a as int, n as int),
        decreases b,
    {
        assert(s@.subrange(a as int, b as int).drop_last() == s@.subrange(a as int, b - 1));
        b -= 1;
    }
    (a, b)
}

/// The first line of what `text` holds from `from` on: it occupies
/// `from..r.0`, and the lines after it start at `r.1`, right after the first
/// line feed, or at the end of `text` where no line feed follows.
pub fn next_line(text: &[char], from: usize) -> (r: (usize, usize))
    requires
        from < text@.len(),
    ensures
        from <= r.0 <= r.1 <= text@.len(),
        from < r.1,
        r.1 == if find_from(text@, '\n', from as int) < text@.len() {
            find_from(text@, '\n', from as int) + 1
        } else {
            text@.len() as int
        },
        lines_of(text@.subrange(from as int, text@.len() as int)) == seq![
            text@.subrange(from as int, r.0 as int),
        ] + lines_of(text@.subrange(r.1 as int, text@.len() as int)),
{
    let n = text.len();
    let ghost rest = text@.subrange(from as int, n as int);
    let mut k: usize = from;
    while k < n && text[k] != '\n'
        invariant
            from <= k <= n == text@.len(),
            find_from(text@, '\n', from as int) == find_from(text@, '\n', k as int),
        decreases n - k,
    {
        k += 1;
    }
    proof {
        lemma_find_from_suffix(text@, '\n', from as int, 0);
        assert(find_from(rest, '\n', 0) == k - from);
    }
    if k < n {
        let end = if k > from && text[k - 1] == '\r' {
            k - 1
        } else {
            k
        };
        proof {
            let raw = rest.subrange(0, k - from);
            assert(raw == text@.subrange(from as int, k as int));
            assert(strip_carriage_return(raw) == text@.subrange(from as int, end as int));
            assert(rest.subrange(k - from + 1, rest.len() as int) == text@.subrange(
                k + 1,
                n as int,
            ));
        }
        (end, k + 1)
    } else {
        proof {
            assert(text@.subrange(n as int, n as int).len() == 0);
            assert(lines_of(text@.subrange(n as int, n as int)) == Seq::<Seq<char>>::empty());
            assert(seq![rest] + Seq::<Seq<char>>::empty() == seq![rest]);
        }
        (n, n)
    }
}

} // verus!
