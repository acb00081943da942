//! The directive parser: from text to the directives it holds.
//!
//! A directive is a line that, without its surrounding white space, begins
//! with the marker `#include` and goes on with a path in one of four forms:
//! `<path>`, `"path"`, `'path'` or a bare word.

use crate::error::{ErrorView, PreprocessorError};
use crate::text::{
    chars_of, has_prefix, is_space, is_whitespace, lemma_trimmed_after_gap, lemma_trimmed_fixed,
    line_spans, lines_of, span_has_prefix, span_texts, spans_within, string_of, trim_span,
    trimmed,
};
use vstd::prelude::*;

verus! {

/// How the path of a directive was written.
#[derive(Debug, Clone, Copy, PartialEq, Eq, Structural)]
pub enum IncludeQuoteType {
    /// `<path>`
    AngleBrackets,
    /// `"path"`
    DoubleQuotes,
    /// `'path'`
    SingleQuotes,
    /// `path`
    Bare,
}

/// One directive of a file.
#[derive(Debug, Clone, PartialEq)]
pub struct IncludeDirective {
    /// The number of its line, counted from 1.
    pub line_number: usize,
    /// The path as it was written, without its delimiters.
    pub file_path: String,
    /// The path of the file that holds the directive.
    pub source_file: String,
    /// The form in which the path was written.
    pub quote_type: IncludeQuoteType,
}

/// The mathematical value of an `IncludeDirective`.
pub struct DirectiveView {
    pub line_number: nat,
    pub file_path: Seq<char>,
    pub source_file: Seq<char>,
    pub quote_type: IncludeQuoteType,
}

impl View for IncludeDirective {
    type V = DirectiveView;

    open spec fn view(&self) -> DirectiveView {
        DirectiveView {
            line_number: self.line_number as nat,
            file_path: self.file_path@,
            source_file: self.source_file@,
            quote_type: self.quote_type,
        }
    }
}

/// The values of a sequence of directives.
pub open spec fn directive_views(directives: Seq<IncludeDirective>) -> Seq<DirectiveView> {
    Seq::new(directives.len(), |i: int| directives[i]@)
}

/// What a line is to the parser.
pub enum LineKind {
    /// Not a directive: the line stays as it is.
    Plain,
    /// A directive with this path and form.
    Directive { file_path: Seq<char>, quote_type: IncludeQuoteType },
    /// A line that begins with the marker and is no directive.
    Malformed,
}

/// The marker that a directive begins with.
pub open spec fn marker() -> Seq<char> {
    "#include"@
}

/// Whether `s` is a non-empty text between the delimiters `open` and `close`.
pub open spec fn delimited(s: Seq<char>, open: char, close: char) -> bool {
    s.len() > 2 && s[0] == open && s.last() == close
}

/// `s` without its first and its last character.
pub open spec fn interior(s: Seq<char>) -> Seq<char> {
    s.subrange(1, s.len() - 1)
}

/// Whether `c` may not stand in a bare path.
pub open spec fn barred(c: char) -> bool {
    is_space(c) || c == '<' || c == '>' || c == '"' || c == '\''
}

/// Whether `s` is a bare path: not empty, and free of white space, angle
/// brackets and quotes.
pub open spec fn is_bare(s: Seq<char>) -> bool {
    s.len() > 0 && forall|i: int| 0 <= i < s.len() ==> !barred(#[trigger] s[i])
}

/// The path and the form that the text after the marker holds, if it is
/// well formed. The forms are tried in the order angle brackets, double
/// quotes, single quotes, bare.
pub open spec fn extracted(input: Seq<char>) -> Option<(Seq<char>, IncludeQuoteType)> {
    let s = trimmed(input);
    if delimited(s, '<', '>') {
        Some((interior(s), IncludeQuoteType::AngleBrackets))
    } else if delimited(s, '"', '"') {
        Some((interior(s), IncludeQuoteType::DoubleQuotes))
    } else if delimited(s, '\'', '\'') {
        Some((interior(s), IncludeQuoteType::SingleQuotes))
    } else if is_bare(s) {
        Some((s, IncludeQuoteType::Bare))
    } else {
        None
    }
}

/// What the line `line` is, where `line` has no surrounding white space.
pub open spec fn line_kind(line: Seq<char>) -> LineKind {
    if !has_prefix(line, marker()) {
        LineKind::Plain
    } else {
        let rest = trimmed(line.skip(marker().len() as int));
        if rest.len() == 0 {
            LineKind::Malformed
        } else {
            match extracted(rest) {
                Some((file_path, quote_type)) => LineKind::Directive { file_path, quote_type },
                None => LineKind::Malformed,
            }
        }
    }
}

/// What parsing the single line `line` gives.
pub open spec fn single_outcome(
    line: Seq<char>,
    line_number: nat,
    source_file: Seq<char>,
) -> Result<Option<DirectiveView>, ErrorView> {
    match line_kind(line) {
        LineKind::Plain => Ok(None),
        LineKind::Directive { file_path, quote_type } => Ok(
            Some(DirectiveView { line_number, file_path, source_file, quote_type }),
        ),
        LineKind::Malformed => Err(
            ErrorView::InvalidIncludeDirective { line_number, directive: line },
        ),
    }
}

/// The directives among the first `n` of `lines`, in the order of the lines.
pub open spec fn directives_upto(lines: Seq<Seq<char>>, source_file: Seq<char>, n: int) -> Seq<
    DirectiveView,
>
    decreases n,
{
    if n <= 0 {
        Seq::empty()
    } else {
        let before = directives_upto(lines, source_file, n - 1);
        match line_kind(trimmed(lines[n - 1])) {
            LineKind::Directive { file_path, quote_type } => before.push(
                DirectiveView { line_number: n as nat, file_path, source_file, quote_type },
            ),
            _ => before,
        }
    }
}

/// The index of the first malformed line among the first `n` of `lines`.
pub open spec fn first_malformed(lines: Seq<Seq<char>>, n: int) -> Option<int>
    decreases n,
{
    if n <= 0 {
        None
    } else {
        match first_malformed(lines, n - 1) {
            Some(i) => Some(i),
            None => if line_kind(trimmed(lines[n - 1])) is Malformed {
                Some(n - 1)
            } else {
                None
            },
        }
    }
}

/// What parsing the whole text `content` gives: the error of its first
/// malformed line, or else all its directives.
pub open spec fn includes_outcome(content: Seq<char>, source_file: Seq<char>) -> Result<
    Seq<DirectiveView>,
    ErrorView,
> {
    let lines = lines_of(content);
    match first_malformed(lines, lines.len() as int) {
        Some(i) => Err(
            ErrorView::InvalidIncludeDirective {
                line_number: (i + 1) as nat,
                directive: trimmed(lines[i]),
            },
        ),
        None => Ok(directives_upto(lines, source_file, lines.len() as int)),
    }
}

impl IncludeDirective {
    /// A directive with these fields.
    pub fn new(
        line_number: usize,
        file_path: String,
        source_file: String,
        quote_type: IncludeQuoteType,
    ) -> (directive: Self)
        ensures
            directive.line_number == line_number,
            directive.file_path == file_path,
            directive.source_file == source_file,
            directive.quote_type == quote_type,
    {
        Self { line_number, file_path, source_file, quote_type }
    }
}

/// The directive parser.
pub struct IncludeParser;

impl IncludeParser {
    /// All directives of `content`, in the order of their lines, or the
    /// error of the first malformed line.
    pub fn parse_includes(content: &str, source_file: &str) -> (r: Result<
        Vec<IncludeDirective>,
        PreprocessorError,
    >)
        ensures
            match r {
                Ok(directives) => includes_outcome(content@, source_file@) == Ok::<
                    Seq<DirectiveView>,
                    ErrorView,
                >(directive_views(directives@)),
                Err(e) => includes_outcome(content@, source_file@) == Err::<
                    Seq<DirectiveView>,
                    ErrorView,
                >(e@),
            },
    {
        let chars = chars_of(content);
        let spans = line_spans(&chars);
        Self::parse_spans(&chars, &spans, source_file)
    }

    /// `parse_includes` on a text that is already cut into lines.
    pub(crate) fn parse_spans(
        chars: &Vec<char>,
        spans: &Vec<(usize, usize)>,
        source_file: &str,
    ) -> (r: Result<Vec<IncludeDirective>, PreprocessorError>)
        requires
            span_texts(chars@, spans@) == lines_of(chars@),
            spans_within(spans@, chars.len() as int),
        ensures
            match r {
                Ok(directives) => includes_outcome(chars@, source_file@) == Ok::<
                    Seq<DirectiveView>,
                    ErrorView,
                >(directive_views(directives@)),
                Err(e) => includes_outcome(chars@, source_file@) == Err::<
                    Seq<DirectiveView>,
                    ErrorView,
                >(e@),
            },
    {
        let ghost lines = lines_of(chars@);
        let mut directives: Vec<IncludeDirective> = Vec::new();
        let mut index: usize = 0;
        assert(directive_views(directives@) =~= directives_upto(lines, source_file@, 0));
        while index < spans.len()
            invariant
                index <= spans.len(),
                lines == lines_of(chars@),
                span_texts(chars@, spans@) == lines,
                spans_within(spans@, chars.len() as int),
                first_malformed(lines, index as int) is None,
                directive_views(directives@) == directives_upto(lines, source_file@, index as int),
            decreases spans.len() - index,
        {
            let (start, end) = spans[index];
            assert(spans@[index as int].0 <= spans@[index as int].1 <= chars.len());
            assert(lines[index as int] == chars@.subrange(start as int, end as int));
            let (a, b) = trim_span(chars, start, end);
            let line_number = index + 1;
            match Self::parse_span(chars, a, b, line_number, source_file) {
                Err(e) => {
                    proof {
                        lemma_first_malformed_stays(lines, index + 1, lines.len() as int);
                    }
                    return Err(e);
                },
                Ok(Some(directive)) => {
                    let ghost before = directive_views(directives@);
                    directives.push(directive);
                    assert(directive_views(directives@) =~= before.push(directive@));
                },
                Ok(None) => {},
            }
            index += 1;
        }
        Ok(directives)
    }

    /// The directive on `line`, `None` where the line is no directive, or
    /// the error where it is malformed. `line` is taken as it is: white
    /// space before the marker makes it a plain line.
    pub fn parse_single_include(line: &str, line_number: usize, source_file: &str) -> (r: Result<
        Option<IncludeDirective>,
        PreprocessorError,
    >)
        ensures
            match r {
                Ok(Some(directive)) => single_outcome(line@, line_number as nat, source_file@)
                    == Ok::<Option<DirectiveView>, ErrorView>(Some(directive@)),
                Ok(None) => single_outcome(line@, line_number as nat, source_file@) == Ok::<
                    Option<DirectiveView>,
                    ErrorView,
                >(None),
                Err(e) => single_outcome(line@, line_number as nat, source_file@) == Err::<
                    Option<DirectiveView>,
                    ErrorView,
                >(e@),
            },
    {
        let chars = chars_of(line);
        assert(chars@.subrange(0, chars.len() as int) =~= line@);
        Self::parse_span(&chars, 0, chars.len(), line_number, source_file)
    }

    /// `parse_single_include` on the line that `[start, end)` cuts out of
    /// `chars`.
    pub(crate) fn parse_span(
        chars: &Vec<char>,
        start: usize,
        end: usize,
        line_number: usize,
        source_file: &str,
    ) -> (r: Result<Option<IncludeDirective>, PreprocessorError>)
        requires
            start <= end <= chars.len(),
        ensures
            match r {
                Ok(Some(directive)) => single_outcome(
                    chars@.subrange(start as int, end as int),
                    line_number as nat,
                    source_file@,
                ) == Ok::<Option<DirectiveView>, ErrorView>(Some(directive@)),
                Ok(None) => single_outcome(
                    chars@.subrange(start as int, end as int),
                    line_number as nat,
                    source_file@,
                ) == Ok::<Option<DirectiveView>, ErrorView>(None),
                Err(e) => single_outcome(
                    chars@.subrange(start as int, end as int),
                    line_number as nat,
                    source_file@,
                ) == Err::<Option<DirectiveView>, ErrorView>(e@),
            },
    {
        let ghost line = chars@.subrange(start as int, end as int);
        let prefix = chars_of("#include");
        if !span_has_prefix(chars, start, end, &prefix) {
            return Ok(None);
        }
        let after = start + prefix.len();
        assert(line.skip(marker().len() as int) =~= chars@.subrange(after as int, end as int));
        let (a, b) = trim_span(chars, after, end);
        if a == b {
            return Err(
                PreprocessorError::InvalidIncludeDirective {
                    line_number,
                    directive: string_of(chars, start, end),
                },
            );
        }
        match Self::extract_span(chars, a, b) {
            Some((from, to, quote_type)) => Ok(
                Some(
                    IncludeDirective::new(
                        line_number,
                        string_of(chars, from, to),
                        String::from_str(source_file),
                        quote_type,
                    ),
                ),
            ),
            None => Err(
                PreprocessorError::InvalidIncludeDirective {
                    line_number,
                    directive: string_of(chars, start, end),
                },
            ),
        }
    }

    /// The path and the form that `input`, the text after the marker,
    /// holds; `None` where it has none of the four forms.
    pub fn extract_filepath_and_quote_type(input: &str) -> (r: Option<(String, IncludeQuoteType)>)
        ensures
            match r {
                Some((path, quote_type)) => extracted(input@) == Some((path@, quote_type)),
                None => extracted(input@) is None,
            },
    {
        let chars = chars_of(input);
        assert(chars@.subrange(0, chars.len() as int) =~= input@);
        match Self::extract_span(&chars, 0, chars.len()) {
            Some((from, to, quote_type)) => Some((string_of(&chars, from, to), quote_type)),
            None => None,
        }
    }

    /// `extract_filepath_and_quote_type` on the text that `[start, end)`
    /// cuts out of `chars`; the path comes back as a span.
    pub(crate) fn extract_span(chars: &Vec<char>, start: usize, end: usize) -> (r: Option<
        (usize, usize, IncludeQuoteType),
    >)
        requires
            start <= end <= chars.len(),
        ensures
            match r {
                Some((from, to, quote_type)) => start <= from <= to <= end && extracted(
                    chars@.subrange(start as int, end as int),
                ) == Some((chars@.subrange(from as int, to as int), quote_type)),
                None => extracted(chars@.subrange(start as int, end as int)) is None,
            },
    {
        let (a, b) = trim_span(chars, start, end);
        let ghost s = chars@.subrange(a as int, b as int);
        if b - a > 2 {
            let first = chars[a];
            let last = chars[b - 1];
            assert(first == s[0] && last == s.last());
            assert(interior(s) =~= chars@.subrange(a + 1, b - 1));
            if first == '<' && last == '>' {
                return Some((a + 1, b - 1, IncludeQuoteType::AngleBrackets));
            }
            if first == '"' && last == '"' {
                return Some((a + 1, b - 1, IncludeQuoteType::DoubleQuotes));
            }
            if first == '\'' && last == '\'' {
                return Some((a + 1, b - 1, IncludeQuoteType::SingleQuotes));
            }
        }
        if a == b {
            return None;
        }
        let mut i: usize = a;
        while i < b
            invariant
                start <= a <= i <= b <= end <= chars.len(),
                s == chars@.subrange(a as int, b as int),
                s == trimmed(chars@.subrange(start as int, end as int)),
                !delimited(s, '<', '>'),
                !delimited(s, '"', '"'),
                !delimited(s, '\'', '\''),
                forall|j: int| 0 <= j < i - a ==> !barred(#[trigger] s[j]),
            decreases b - i,
        {
            let c = chars[i];
            assert(c == s[i - a]);
            if is_whitespace(c) || c == '<' || c == '>' || c == '"' || c == '\'' {
                assert(barred(s[i - a]));
                return None;
            }
            i += 1;
        }
        Some((a, b, IncludeQuoteType::Bare))
    }
}

/// Once a malformed line has been found, it stays the first one however many
/// lines follow.
pub proof fn lemma_first_malformed_stays(lines: Seq<Seq<char>>, m: int, n: int)
    requires
        m <= n,
        first_malformed(lines, m) is Some,
    ensures
        first_malformed(lines, n) == first_malformed(lines, m),
    decreases n - m,
{
    if m < n {
        lemma_first_malformed_stays(lines, m, n - 1);
    }
}

/// The directives of the first `n` lines are the first of those of the
/// first `m`, where `n <= m`, and the others stand on the lines after `n`.
pub proof fn lemma_directives_upto_grows(
    lines: Seq<Seq<char>>,
    source_file: Seq<char>,
    n: int,
    m: int,
)
    requires
        0 <= n <= m,
    ensures
        directives_upto(lines, source_file, n).len() <= directives_upto(
            lines,
            source_file,
            m,
        ).len(),
        directives_upto(lines, source_file, n) == directives_upto(lines, source_file, m).take(
            directives_upto(lines, source_file, n).len() as int,
        ),
        forall|k: int|
            directives_upto(lines, source_file, n).len() <= k < directives_upto(
                lines,
                source_file,
                m,
            ).len() ==> n < (#[trigger] directives_upto(lines, source_file, m)[k]).line_number
                <= m,
    decreases m - n,
{
    let small = directives_upto(lines, source_file, n);
    if n == m {
        assert(small =~= small.take(small.len() as int));
    } else {
        lemma_directives_upto_grows(lines, source_file, n, m - 1);
        let middle = directives_upto(lines, source_file, m - 1);
        let large = directives_upto(lines, source_file, m);
        assert(small =~= large.take(small.len() as int));
    }
}

/// Whether `s` is not empty and neither begins nor ends with white space.
pub open spec fn is_trimmed(s: Seq<char>) -> bool {
    s.len() > 0 && !is_space(s[0]) && !is_space(s.last())
}

/// Whether `s` is white space only.
pub open spec fn is_gap(s: Seq<char>) -> bool {
    forall|i: int| 0 <= i < s.len() ==> is_space(#[trigger] s[i])
}

/// A non-empty path between angle brackets, double quotes or single quotes
/// is extracted as it stands, with the form it was written in. The path may
/// hold any characters.
pub proof fn lemma_delimited_forms(path: Seq<char>)
    requires
        path.len() > 0,
    ensures
        extracted(seq!['<'] + path + seq!['>']) == Some((path, IncludeQuoteType::AngleBrackets)),
        extracted(seq!['"'] + path + seq!['"']) == Some((path, IncludeQuoteType::DoubleQuotes)),
        extracted(seq!['\''] + path + seq!['\'']) == Some((path, IncludeQuoteType::SingleQuotes)),
{
    let angle = seq!['<'] + path + seq!['>'];
    lemma_trimmed_fixed(angle);
    assert(interior(angle) =~= path);
    let double = seq!['"'] + path + seq!['"'];
    lemma_trimmed_fixed(double);
    assert(interior(double) =~= path);
    let single = seq!['\''] + path + seq!['\''];
    lemma_trimmed_fixed(single);
    assert(interior(single) =~= path);
}

/// A bare path is extracted as it stands.
pub proof fn lemma_bare_form(path: Seq<char>)
    requires
        is_bare(path),
    ensures
        extracted(path) == Some((path, IncludeQuoteType::Bare)),
{
    assert(!barred(path[0]));
    assert(!barred(path.last()));
    lemma_trimmed_fixed(path);
}

/// A pair of delimiters with nothing between them holds no path.
pub proof fn lemma_empty_interiors()
    ensures
        extracted(seq!['<', '>']) is None,
        extracted(seq!['"', '"']) is None,
        extracted(seq!['\'', '\'']) is None,
{
    let angle = seq!['<', '>'];
    lemma_trimmed_fixed(angle);
    assert(barred(angle[0]));
    let double = seq!['"', '"'];
    lemma_trimmed_fixed(double);
    assert(barred(double[0]));
    let single = seq!['\'', '\''];
    lemma_trimmed_fixed(single);
    assert(barred(single[0]));
}

/// A text that is not a delimited path and holds white space, an angle
/// bracket or a quote holds no path. This covers the bare path with a stray
/// character and the delimiter that is never closed.
pub proof fn lemma_stray_character(body: Seq<char>, i: int)
    requires
        is_trimmed(body),
        0 <= i < body.len(),
        barred(body[i]),
        !delimited(body, '<', '>'),
        !delimited(body, '"', '"'),
        !delimited(body, '\'', '\''),
    ensures
        extracted(body) is None,
{
    lemma_trimmed_fixed(body);
}

/// A line of the marker, any white space and a text without surrounding
/// white space is a directive where the text holds a path, and malformed
/// where it does not.
pub proof fn lemma_marker_line(gap: Seq<char>, body: Seq<char>)
    requires
        is_gap(gap),
        is_trimmed(body),
    ensures
        line_kind(marker() + gap + body) == match extracted(body) {
            Some((file_path, quote_type)) => LineKind::Directive { file_path, quote_type },
            None => LineKind::Malformed,
        },
{
    let line = marker() + gap + body;
    assert(line.take(marker().len() as int) =~= marker());
    assert(line.skip(marker().len() as int) =~= gap + body);
    lemma_trimmed_after_gap(gap, body);
    lemma_trimmed_fixed(body);
}

/// A line of the marker and nothing but white space after it is malformed.
pub proof fn lemma_empty_remainder(gap: Seq<char>)
    requires
        is_gap(gap),
    ensures
        line_kind(marker() + gap) is Malformed,
{
    let line = marker() + gap;
    assert(line.take(marker().len() as int) =~= marker());
    assert(line.skip(marker().len() as int) =~= gap);
    assert(gap + Seq::<char>::empty() =~= gap);
    lemma_trimmed_after_gap(gap, Seq::<char>::empty());
}

/// A malformed line gives the error that names the line and its number; a
/// line that does not begin with the marker gives no directive and no
/// error.
pub proof fn lemma_line_outcomes(line: Seq<char>, line_number: nat, source_file: Seq<char>)
    ensures
        line_kind(line) is Malformed ==> single_outcome(line, line_number, source_file) == Err::<
            Option<DirectiveView>,
            ErrorView,
        >(ErrorView::InvalidIncludeDirective { line_number, directive: line }),
        !has_prefix(line, marker()) ==> single_outcome(line, line_number, source_file) == Ok::<
            Option<DirectiveView>,
            ErrorView,
        >(None),
{
}

/// The directives of a text can be read in step with its lines. Where
/// `cursor` directives stand on the lines before line `n + 1`, that line
/// holds a directive exactly if the directive at `cursor` has its number,
/// and then it is that directive.
pub proof fn lemma_directive_at_cursor(lines: Seq<Seq<char>>, source_file: Seq<char>, n: int)
    requires
        0 <= n < lines.len(),
    ensures
        ({
            let all = directives_upto(lines, source_file, lines.len() as int);
            let cursor = directives_upto(lines, source_file, n).len() as int;
            let here = line_kind(trimmed(lines[n]));
            &&& cursor <= all.len()
            &&& here is Directive <==> cursor < all.len() && all[cursor].line_number == n + 1
            &&& here matches LineKind::Directive { file_path, quote_type } ==> all[cursor]
                == (DirectiveView {
                line_number: (n + 1) as nat,
                file_path,
                source_file,
                quote_type,
            })
            &&& directives_upto(lines, source_file, n + 1).len() == if here is Directive {
                cursor + 1
            } else {
                cursor
            }
        }),
{
    let all = directives_upto(lines, source_file, lines.len() as int);
    let before = directives_upto(lines, source_file, n);
    let next = directives_upto(lines, source_file, n + 1);
    let cursor = before.len() as int;
    lemma_directives_upto_grows(lines, source_file, n, n + 1);
    lemma_directives_upto_grows(lines, source_file, n + 1, lines.len() as int);
    if line_kind(trimmed(lines[n])) is Directive {
        assert(next[cursor] == all[cursor]);
    } else if cursor < all.len() {
        assert(all[cursor].line_number > n + 1);
    }
}

/// A text in which no line begins with the marker, white space aside, has
/// no directive and no malformed line.
pub proof fn lemma_no_marker_no_directives(content: Seq<char>, source_file: Seq<char>)
    requires
        forall|i: int|
            0 <= i < lines_of(content).len() ==> !has_prefix(
                trimmed(#[trigger] lines_of(content)[i]),
                marker(),
            ),
    ensures
        includes_outcome(content, source_file) == Ok::<Seq<DirectiveView>, ErrorView>(
            Seq::empty(),
        ),
{
    let lines = lines_of(content);
    lemma_plain_lines(lines, source_file, lines.len() as int);
}

/// See `lemma_no_marker_no_directives`.
proof fn lemma_plain_lines(lines: Seq<Seq<char>>, source_file: Seq<char>, n: int)
    requires
        0 <= n <= lines.len(),
        forall|i: int| 0 <= i < lines.len() ==> !has_prefix(trimmed(#[trigger] lines[i]), marker()),
    ensures
        first_malformed(lines, n) is None,
        directives_upto(lines, source_file, n) == Seq::<DirectiveView>::empty(),
    decreases n,
{
    if n > 0 {
        lemma_plain_lines(lines, source_file, n - 1);
        assert(!has_prefix(trimmed(lines[n - 1]), marker()));
    }
}

} // verus!
