//! Character-level text operations: white space, trimming and lines.
//!
//! Text is modelled as `Seq<char>`. The executable functions work on a
//! `Vec<char>` and on half-open spans `[start, end)` into it, so that a line
//! and its trimmed part are found without copying.

use vstd::prelude::*;

verus! {

/// `String::push` of the standard library. Its documentation says that it
/// appends the given character to the end of the string; the contract says
/// exactly that of the string's characters.
pub assume_specification[ String::push ](s: &mut String, c: char)
    ensures
        final(s)@ == old(s)@.push(c),
;

/// The line separator.
pub open spec fn newline() -> char {
    '\n'
}

/// Whether `c` has the Unicode property White_Space.
pub open spec fn is_space(c: char) -> bool {
    let n = c as u32;
    ||| 0x09 <= n <= 0x0D
    ||| n == 0x20
    ||| n == 0x85
    ||| n == 0xA0
    ||| n == 0x1680
    ||| 0x2000 <= n <= 0x200A
    ||| n == 0x2028
    ||| n == 0x2029
    ||| n == 0x202F
    ||| n == 0x205F
    ||| n == 0x3000
}

/// `s` without its leading white space.
pub open spec fn trimmed_start(s: Seq<char>) -> Seq<char>
    decreases s.len(),
{
    if s.len() > 0 && is_space(s[0]) {
        trimmed_start(s.skip(1))
    } else {
        s
    }
}

/// `s` without its trailing white space.
pub open spec fn trimmed_end(s: Seq<char>) -> Seq<char>
    decreases s.len(),
{
    if s.len() > 0 && is_space(s.last()) {
        trimmed_end(s.drop_last())
    } else {
        s
    }
}

/// `s` without its leading and trailing white space.
pub open spec fn trimmed(s: Seq<char>) -> Seq<char> {
    trimmed_end(trimmed_start(s))
}

/// The lines of `s`: the pieces between its line separators. There is one
/// line more than there are separators, so the empty text has one empty line
/// and a text that ends in a separator has an empty last line.
pub open spec fn lines_of(s: Seq<char>) -> Seq<Seq<char>>
    decreases s.len(),
{
    if s.len() == 0 {
        seq![Seq::<char>::empty()]
    } else {
        let before = lines_of(s.drop_last());
        if s.last() == newline() {
            before.push(Seq::<char>::empty())
        } else {
            before.drop_last().push(before.last().push(s.last()))
        }
    }
}

/// The first `n` of `parts`, with `separator` between neighbours.
pub open spec fn joined_prefix(parts: Seq<Seq<char>>, separator: Seq<char>, n: int) -> Seq<char>
    decreases n,
{
    if n <= 0 {
        Seq::<char>::empty()
    } else if n == 1 {
        parts[0]
    } else {
        joined_prefix(parts, separator, n - 1) + separator + parts[n - 1]
    }
}

/// `lines` with one line separator between neighbours.
pub open spec fn joined(lines: Seq<Seq<char>>) -> Seq<char> {
    joined_prefix(lines, seq![newline()], lines.len() as int)
}

/// Whether `s` begins with `prefix`.
pub open spec fn has_prefix(s: Seq<char>, prefix: Seq<char>) -> bool {
    prefix.len() <= s.len() && s.take(prefix.len() as int) == prefix
}

/// The texts that `spans` cut out of `chars`.
pub open spec fn span_texts(chars: Seq<char>, spans: Seq<(usize, usize)>) -> Seq<Seq<char>> {
    Seq::new(spans.len(), |i: int| chars.subrange(spans[i].0 as int, spans[i].1 as int))
}

/// Whether every span lies inside a text of `len` characters.
pub open spec fn spans_within(spans: Seq<(usize, usize)>, len: int) -> bool {
    forall|i: int| 0 <= i < spans.len() ==> #[trigger] spans[i].0 <= spans[i].1 <= len
}

/// Whether `c` is white space.
pub fn is_whitespace(c: char) -> (r: bool)
    ensures
        r == is_space(c),
{
    let n: u32 = c as u32;
    (0x09 <= n && n <= 0x0D) || n == 0x20 || n == 0x85 || n == 0xA0 || n == 0x1680 || (0x2000 <= n
        && n <= 0x200A) || n == 0x2028 || n == 0x2029 || n == 0x202F || n == 0x205F || n == 0x3000
}

/// The characters of `s`.
pub fn chars_of(s: &str) -> (v: Vec<char>)
    ensures
        v@ == s@,
{
    let mut v: Vec<char> = Vec::new();
    for c in it: s.chars()
        invariant
            it.seq() == s@,
            v@ == it.history(),
    {
        v.push(c);
    }
    assert(v@ =~= s@);
    v
}

/// Appends the characters of `chars` in `[start, end)` to `out`.
pub fn push_span(out: &mut String, chars: &Vec<char>, start: usize, end: usize)
    requires
        start <= end <= chars.len(),
    ensures
        final(out)@ == old(out)@ + chars@.subrange(start as int, end as int),
{
    let mut i: usize = start;
    while i < end
        invariant
            start <= i <= end <= chars.len(),
            out@ == old(out)@ + chars@.subrange(start as int, i as int),
        decreases end - i,
    {
        out.push(chars[i]);
        i += 1;
        assert(out@ =~= old(out)@ + chars@.subrange(start as int, i as int));
    }
    assert(out@ =~= old(out)@ + chars@.subrange(start as int, end as int));
}

/// The characters of `chars` in `[start, end)` as a string.
pub fn string_of(chars: &Vec<char>, start: usize, end: usize) -> (s: String)
    requires
        start <= end <= chars.len(),
    ensures
        s@ == chars@.subrange(start as int, end as int),
{
    let mut s = String::new();
    push_span(&mut s, chars, start, end);
    assert(s@ =~= chars@.subrange(start as int, end as int));
    s
}

/// The span of `[start, end)` that is left when the white space at both ends
/// is taken away.
pub fn trim_span(chars: &Vec<char>, start: usize, end: usize) -> (r: (usize, usize))
    requires
        start <= end <= chars.len(),
    ensures
        start <= r.0 <= r.1 <= end,
        chars@.subrange(r.0 as int, r.1 as int) == trimmed(
            chars@.subrange(start as int, end as int),
        ),
{
    let mut a: usize = start;
    while a < end && is_whitespace(chars[a])
        invariant
            start <= a <= end <= chars.len(),
            trimmed_start(chars@.subrange(start as int, end as int)) == trimmed_start(
                chars@.subrange(a as int, end as int),
            ),
        decreases end - a,
    {
        assert(chars@.subrange(a as int, end as int).skip(1) =~= chars@.subrange(
            a + 1,
            end as int,
        ));
        a += 1;
    }
    let mut b: usize = end;
    while a < b && is_whitespace(chars[b - 1])
        invariant
            a <= b <= end <= chars.len(),
            trimmed_end(chars@.subrange(a as int, end as int)) == trimmed_end(
                chars@.subrange(a as int, b as int),
            ),
        decreases b - a,
    {
        assert(chars@.subrange(a as int, b as int).drop_last() =~= chars@.subrange(
            a as int,
            b - 1,
        ));
        b -= 1;
    }
    (a, b)
}

/// Whether the characters in `[start, end)` begin with `prefix`.
pub fn span_has_prefix(chars: &Vec<char>, start: usize, end: usize, prefix: &Vec<char>) -> (r:
    bool)
    requires
        start <= end <= chars.len(),
    ensures
        r == has_prefix(chars@.subrange(start as int, end as int), prefix@),
{
    if prefix.len() > end - start {
        return false;
    }
    let ghost s = chars@.subrange(start as int, end as int);
    let mut i: usize = 0;
    while i < prefix.len()
        invariant
            start <= end <= chars.len(),
            i <= prefix.len() <= end - start,
            s == chars@.subrange(start as int, end as int),
            s.take(i as int) == prefix@.take(i as int),
        decreases prefix.len() - i,
    {
        if chars[start + i] != prefix[i] {
            assert(s.take(prefix.len() as int)[i as int] != prefix@[i as int]);
            return false;
        }
        i += 1;
        assert(s.take(i as int) =~= prefix@.take(i as int)) by {
            assert(s.take(i as int).drop_last() =~= s.take(i - 1));
            assert(prefix@.take(i as int).drop_last() =~= prefix@.take(i - 1));
        }
    }
    assert(prefix@.take(prefix.len() as int) =~= prefix@);
    true
}

/// The spans of the lines of `chars`, in order.
pub fn line_spans(chars: &Vec<char>) -> (spans: Vec<(usize, usize)>)
    ensures
        span_texts(chars@, spans@) == lines_of(chars@),
        spans_within(spans@, chars.len() as int),
        spans.len() >= 1,
{
    let mut spans: Vec<(usize, usize)> = Vec::new();
    let mut line_start: usize = 0;
    let mut i: usize = 0;
    assert(chars@.take(0) =~= Seq::<char>::empty());
    assert(span_texts(chars@, spans@).push(chars@.subrange(0, 0)) =~= lines_of(chars@.take(0)));
    while i < chars.len()
        invariant
            line_start <= i <= chars.len(),
            spans_within(spans@, chars.len() as int),
            span_texts(chars@, spans@).push(chars@.subrange(line_start as int, i as int))
                == lines_of(chars@.take(i as int)),
        decreases chars.len() - i,
    {
        let ghost done = span_texts(chars@, spans@);
        let ghost open = chars@.subrange(line_start as int, i as int);
        let ghost next = chars@.take(i + 1);
        assert(next.drop_last() =~= chars@.take(i as int));
        assert(next.last() == chars@[i as int]);
        if chars[i] == '\n' {
            spans.push((line_start, i));
            line_start = i + 1;
            assert(span_texts(chars@, spans@) =~= done.push(open));
            assert(chars@.subrange(line_start as int, i + 1) =~= Seq::<char>::empty());
        } else {
            assert(done.push(open).drop_last() =~= done);
            assert(chars@.subrange(line_start as int, i + 1) =~= open.push(chars@[i as int]));
        }
        i += 1;
    }
    let ghost done = span_texts(chars@, spans@);
    spans.push((line_start, i));
    assert(chars@.take(i as int) =~= chars@);
    assert(span_texts(chars@, spans@) =~= done.push(chars@.subrange(line_start as int, i as int)));
    spans
}

/// Trimming leaves a part of the text, and a part that neither begins nor
/// ends with white space.
pub proof fn lemma_trimmed_start_shape(s: Seq<char>)
    ensures
        trimmed_start(s).len() <= s.len(),
        trimmed_start(s) == s.skip(s.len() - trimmed_start(s).len()),
        trimmed_start(s).len() > 0 ==> !is_space(trimmed_start(s)[0]),
    decreases s.len(),
{
    if s.len() > 0 && is_space(s[0]) {
        lemma_trimmed_start_shape(s.skip(1));
        let k = s.skip(1).len() - trimmed_start(s.skip(1)).len();
        assert(s.skip(1).skip(k) =~= s.skip(k + 1));
    } else {
        assert(s.skip(0) =~= s);
    }
}

/// See `lemma_trimmed_start_shape`.
pub proof fn lemma_trimmed_end_shape(s: Seq<char>)
    ensures
        trimmed_end(s).len() <= s.len(),
        trimmed_end(s) == s.take(trimmed_end(s).len() as int),
        trimmed_end(s).len() > 0 ==> !is_space(trimmed_end(s).last()),
        s.len() > 0 && !is_space(s[0]) ==> trimmed_end(s).len() > 0 && trimmed_end(s)[0] == s[0],
    decreases s.len(),
{
    if s.len() > 0 && is_space(s.last()) {
        lemma_trimmed_end_shape(s.drop_last());
        let k = trimmed_end(s.drop_last()).len() as int;
        assert(s.drop_last().take(k) =~= s.take(k));
    } else {
        assert(s.take(s.len() as int) =~= s);
    }
}

/// A text that neither begins nor ends with white space is its own trimmed
/// form. The empty text is too.
pub proof fn lemma_trimmed_fixed(s: Seq<char>)
    requires
        s.len() > 0 ==> !is_space(s[0]) && !is_space(s.last()),
    ensures
        trimmed(s) == s,
{
}

/// White space before a text is trimmed away with the text's own.
pub proof fn lemma_trimmed_after_gap(gap: Seq<char>, s: Seq<char>)
    requires
        forall|i: int| 0 <= i < gap.len() ==> is_space(#[trigger] gap[i]),
    ensures
        trimmed(gap + s) == trimmed(s),
    decreases gap.len(),
{
    if gap.len() == 0 {
        assert(gap + s =~= s);
    } else {
        assert((gap + s).skip(1) =~= gap.skip(1) + s);
        lemma_trimmed_after_gap(gap.skip(1), s);
    }
}

/// Trimming twice is trimming once.
pub proof fn lemma_trimmed_idempotent(s: Seq<char>)
    ensures
        trimmed(trimmed(s)) == trimmed(s),
{
    lemma_trimmed_start_shape(s);
    lemma_trimmed_end_shape(trimmed_start(s));
    lemma_trimmed_fixed(trimmed(s));
}

/// No line holds a line separator, and there is at least one line.
pub proof fn lemma_lines_hold_no_newline(s: Seq<char>)
    ensures
        lines_of(s).len() >= 1,
        forall|i: int, j: int|
            0 <= i < lines_of(s).len() && 0 <= j < lines_of(s)[i].len() ==> lines_of(s)[i][j]
                != newline(),
    decreases s.len(),
{
    if s.len() > 0 {
        lemma_lines_hold_no_newline(s.drop_last());
    }
}

/// Joining the lines of a text gives the text back: splitting loses nothing,
/// whether or not the text ends in a line separator.
pub proof fn lemma_joined_lines(s: Seq<char>)
    ensures
        joined(lines_of(s)) == s,
    decreases s.len(),
{
    if s.len() == 0 {
        assert(joined(lines_of(s)) =~= s);
    } else {
        let r = s.drop_last();
        let before = lines_of(r);
        lemma_joined_lines(r);
        lemma_lines_hold_no_newline(r);
        let n = before.len() as int;
        if s.last() == newline() {
            let now = before.push(Seq::<char>::empty());
            lemma_joined_prefix_agrees(before, now, seq![newline()], n);
            assert(joined(now) =~= r.push(newline()));
            assert(r.push(s.last()) =~= s);
        } else {
            let now = before.drop_last().push(before.last().push(s.last()));
            if n == 1 {
                assert(joined(now) =~= r.push(s.last()));
            } else {
                lemma_joined_prefix_agrees(before, now, seq![newline()], n - 1);
                assert(joined(now) =~= joined(before).push(s.last()));
            }
            assert(r.push(s.last()) =~= s);
        }
    }
}

/// The joined prefix depends on the lines it covers only.
pub proof fn lemma_joined_prefix_agrees(
    a: Seq<Seq<char>>,
    b: Seq<Seq<char>>,
    separator: Seq<char>,
    n: int,
)
    requires
        n <= a.len(),
        n <= b.len(),
        forall|i: int| 0 <= i < n ==> a[i] == b[i],
    ensures
        joined_prefix(a, separator, n) == joined_prefix(b, separator, n),
    decreases n,
{
    if n > 1 {
        lemma_joined_prefix_agrees(a, b, separator, n - 1);
    }
}

} // verus!
