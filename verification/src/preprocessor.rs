//! The expander: the text of a file with every directive replaced by the
//! expanded text of the file it names.
//!
//! `content_expansion` says what the expansion of a text is, as a function
//! of the text and of what is known of the file system. The executable
//! functions compute exactly that.

use crate::error::ErrorView;
use crate::files::{FactsView, Halt, HaltView, KnownFiles};
use crate::parser::{
    directive_views, directives_upto, includes_outcome, lemma_directive_at_cursor, line_kind,
    DirectiveView, IncludeDirective, IncludeParser, LineKind,
};
use crate::resolver::{
    canonical_outcome, chain_text, default_config, enter_outcome, include_comment, located,
    read_outcome, ConfigView, ContextView, FileResolver, ProcessingConfig, ProcessingContext,
};
use crate::text::{chars_of, joined_prefix, line_spans, lines_of, newline, push_span, trimmed};
use vstd::prelude::*;

verus! {

/// What an expansion gives: the text, or why there is none, and the
/// context as the expansion leaves it.
pub struct Expanded {
    pub result: Result<Seq<char>, HaltView>,
    pub context: ContextView,
}

/// How many more files may be opened inside those that are open.
pub open spec fn room(context: ContextView) -> int {
    context.config.max_include_depth - context.active_chain.len()
}

/// `context` with `visited` as the files that were entered: the same files
/// are open, under the same settings.
pub open spec fn with_visited(context: ContextView, visited: Set<Seq<char>>) -> ContextView {
    ContextView { visited, active_chain: context.active_chain, config: context.config }
}

/// The expanded text of a file as it stands in place of its directive:
/// as it is, or in debug mode between the two comment lines that name the
/// file, with a line separator put before the second one where the text
/// does not end in one.
pub open spec fn wrapped(text: Seq<char>, path: Seq<char>, debug_mode: bool) -> Seq<char> {
    if debug_mode {
        let body = if text.len() > 0 && text.last() == newline() {
            text
        } else {
            text.push(newline())
        };
        include_comment(path, true).push(newline()) + body + include_comment(path, false)
    } else {
        text
    }
}

/// The expansion of the text `content` of the file at `source_file`.
///
/// The file is entered. Its directives are parsed. If there are none the
/// text stands as it is; else each line that holds a directive is replaced
/// by the expansion of the directive and every other line stays as it is,
/// the lines joined as they were. The file is left again. Where the
/// expansion halts, the files that were being expanded stay open.
pub open spec fn content_expansion(
    files: FactsView,
    content: Seq<char>,
    source_file: Seq<char>,
    context: ContextView,
) -> Expanded
    decreases room(context), 0int, 0int,
{
    match enter_outcome(files, context, source_file) {
        Err(halt) => Expanded { result: Err(halt), context },
        Ok(inside) => match includes_outcome(content, source_file) {
            Err(e) => Expanded { result: Err(HaltView::Failed(e)), context: inside },
            Ok(directives) => if directives.len() == 0 {
                Expanded { result: Ok(content), context: inside.exited() }
            } else {
                let lines = lines_of(content);
                let walked = lines_expansion(files, lines, source_file, inside, lines.len());
                match walked.result {
                    Err(_) => walked,
                    Ok(text) => Expanded { result: Ok(text), context: walked.context.exited() },
                }
            },
        },
    }
}

/// The expansion of the first `n` of the lines of the file at
/// `source_file`, which is the innermost open file of `context`. The lines
/// are taken in order, and each directive is expanded with the files
/// entered by those before it. Once one halts, so does the whole. A
/// malformed line does not occur here, where the directives of the file
/// were parsed before; it would stand as it is.
pub open spec fn lines_expansion(
    files: FactsView,
    lines: Seq<Seq<char>>,
    source_file: Seq<char>,
    context: ContextView,
    n: nat,
) -> Expanded
    decreases room(context), 2int, n,
{
    if n == 0 {
        Expanded { result: Ok(Seq::empty()), context }
    } else {
        let before = lines_expansion(files, lines, source_file, context, (n - 1) as nat);
        match before.result {
            Err(_) => before,
            Ok(text) => {
                let head = if n == 1 {
                    text
                } else {
                    text.push(newline())
                };
                match line_kind(trimmed(lines[n - 1])) {
                    LineKind::Directive { file_path, quote_type } => {
                        let directive = DirectiveView {
                            line_number: n,
                            file_path,
                            source_file,
                            quote_type,
                        };
                        let inner = directive_expansion(
                            files,
                            directive,
                            with_visited(context, before.context.visited),
                        );
                        match inner.result {
                            Err(_) => inner,
                            Ok(piece) => Expanded {
                                result: Ok(head + piece),
                                context: inner.context,
                            },
                        }
                    },
                    _ => Expanded { result: Ok(head + lines[n - 1]), context: before.context },
                }
            },
        }
    }
}

/// The expansion of one directive: the file it names is located and read,
/// and its text is expanded and wrapped.
pub open spec fn directive_expansion(
    files: FactsView,
    directive: DirectiveView,
    context: ContextView,
) -> Expanded
    decreases room(context), 1int, 0int,
{
    match located(files, directive, context.config) {
        Err(halt) => Expanded { result: Err(halt), context },
        Ok(path) => match read_outcome(files, path) {
            Err(halt) => Expanded { result: Err(halt), context },
            Ok(content) => {
                let inner = content_expansion(files, content, path, context);
                match inner.result {
                    Err(_) => inner,
                    Ok(text) => Expanded {
                        result: Ok(wrapped(text, path, context.config.debug_mode)),
                        context: inner.context,
                    },
                }
            },
        },
    }
}

/// The expansion of the file at `input_path` in a run of its own.
pub open spec fn file_expansion(
    files: FactsView,
    input_path: Seq<char>,
    config: ConfigView,
) -> Result<Seq<char>, HaltView> {
    match read_outcome(files, input_path) {
        Err(halt) => Err(halt),
        Ok(content) => content_expansion(
            files,
            content,
            input_path,
            ContextView::fresh(config),
        ).result,
    }
}

/// Whether an executable expansion, which gave `r` and took the context
/// from `before` to `after`, did what `expected` says. Besides, the
/// settings never change, a well-formed context stays so, and on success
/// the same files are open as before.
pub open spec fn agrees(
    expected: Expanded,
    r: Result<String, Halt>,
    before: ContextView,
    after: ContextView,
) -> bool {
    &&& after == expected.context
    &&& after.config == before.config
    &&& before.wf() ==> after.wf()
    &&& match r {
        Ok(text) => expected.result == Ok::<Seq<char>, HaltView>(text@) && after.active_chain
            == before.active_chain,
        Err(halt) => expected.result == Err::<Seq<char>, HaltView>(halt@),
    }
}

/// The expander, with the settings of its runs.
pub struct ShellPreprocessor {
    config: ProcessingConfig,
}

impl View for ShellPreprocessor {
    type V = ConfigView;

    closed spec fn view(&self) -> ConfigView {
        self.config@
    }
}

impl ShellPreprocessor {
    /// An expander with these settings.
    pub fn new(config: ProcessingConfig) -> (preprocessor: Self)
        ensures
            preprocessor@ == config@,
    {
        Self { config }
    }

    /// The expanded text of the file at `input_path`, in a run of its own:
    /// nothing is entered when it begins.
    pub fn process_file(&self, input_path: &str, files: &KnownFiles) -> (r: Result<String, Halt>)
        ensures
            match r {
                Ok(text) => file_expansion(files@, input_path@, self@) == Ok::<
                    Seq<char>,
                    HaltView,
                >(text@),
                Err(halt) => file_expansion(files@, input_path@, self@) == Err::<
                    Seq<char>,
                    HaltView,
                >(halt@),
            },
    {
        let mut context = ProcessingContext::new(self.config.clone());
        let input_content = match FileResolver::read_file_content(input_path, files) {
            Ok(text) => text,
            Err(halt) => {
                return Err(halt);
            },
        };
        self.process_content(input_content.as_str(), input_path, &mut context, files)
    }

    /// The expansion of the text `content` of the file at `source_file`,
    /// inside the files that are open in `context`.
    #[verifier::loop_isolation(false)]
    pub fn process_content(
        &self,
        content: &str,
        source_file: &str,
        context: &mut ProcessingContext,
        files: &KnownFiles,
    ) -> (r: Result<String, Halt>)
        ensures
            agrees(
                content_expansion(files@, content@, source_file@, old(context)@),
                r,
                old(context)@,
                final(context)@,
            ),
        decreases room(old(context)@), 0int,
    {
        match context.enter_file(source_file, files) {
            Ok(_) => {},
            Err(halt) => {
                return Err(halt);
            },
        }
        let ghost inside = context@;
        assert(inside.active_chain.drop_last() =~= old(context)@.active_chain);
        let chars = chars_of(content);
        let spans = line_spans(&chars);
        let includes = match IncludeParser::parse_spans(&chars, &spans, source_file) {
            Ok(includes) => includes,
            Err(e) => {
                return Err(Halt::Failed(e));
            },
        };
        if includes.len() == 0 {
            context.exit_file();
            return Ok(String::from_str(content));
        }
        let ghost lines = lines_of(content@);
        let mut out = String::new();
        let mut cursor: usize = 0;
        let mut index: usize = 0;
        assert(spans.len() == lines.len());
        while index < spans.len()
            invariant
                index <= spans.len(),
                cursor <= includes.len(),
                cursor == directives_upto(lines, source_file@, index as int).len(),
                context@.active_chain == inside.active_chain,
                context@.config == inside.config,
                inside.wf() ==> context@.wf(),
                lines_expansion(files@, lines, source_file@, inside, index as nat).result == Ok::<
                    Seq<char>,
                    HaltView,
                >(out@),
                lines_expansion(files@, lines, source_file@, inside, index as nat).context
                    == context@,
            decreases spans.len() - index,
        {
            proof {
                lemma_directive_at_cursor(lines, source_file@, index as int);
                assert(with_visited(inside, context@.visited) == context@);
                if cursor < includes.len() {
                    assert(directive_views(includes@)[cursor as int] == includes[cursor as int]@);
                }
            }
            if index > 0 {
                out.push('\n');
            }
            if cursor < includes.len() && includes[cursor].line_number == index + 1 {
                let piece = match self.process_include(&includes[cursor], context, files) {
                    Ok(piece) => piece,
                    Err(halt) => {
                        proof {
                            lemma_lines_expansion_halted(
                                files@,
                                lines,
                                source_file@,
                                inside,
                                (index + 1) as nat,
                                lines.len(),
                            );
                        }
                        return Err(halt);
                    },
                };
                out.append(piece.as_str());
                cursor += 1;
            } else {
                let (start, end) = spans[index];
                assert(spans@[index as int].0 <= spans@[index as int].1 <= chars.len());
                assert(lines[index as int] == chars@.subrange(start as int, end as int));
                push_span(&mut out, &chars, start, end);
            }
            index += 1;
        }
        context.exit_file();
        Ok(out)
    }

    /// The expansion of `directive`, inside the files that are open in
    /// `context`.
    pub fn process_include(
        &self,
        directive: &IncludeDirective,
        context: &mut ProcessingContext,
        files: &KnownFiles,
    ) -> (r: Result<String, Halt>)
        ensures
            agrees(
                directive_expansion(files@, directive@, old(context)@),
                r,
                old(context)@,
                final(context)@,
            ),
        decreases room(old(context)@), 1int,
    {
        let resolved_path = match FileResolver::resolve_include_path(
            directive,
            context.config(),
            files,
        ) {
            Ok(path) => path,
            Err(halt) => {
                return Err(halt);
            },
        };
        let included_content = match FileResolver::read_file_content(
            resolved_path.as_str(),
            files,
        ) {
            Ok(text) => text,
            Err(halt) => {
                return Err(halt);
            },
        };
        let processed = match self.process_content(
            included_content.as_str(),
            resolved_path.as_str(),
            context,
            files,
        ) {
            Ok(text) => text,
            Err(halt) => {
                return Err(halt);
            },
        };
        if !context.config().debug_mode {
            return Ok(processed);
        }
        let mut result = FileResolver::generate_include_comment(resolved_path.as_str(), true);
        result.push('\n');
        result.append(processed.as_str());
        let length = processed.as_str().unicode_len();
        if length == 0 || processed.as_str().get_char(length - 1) != '\n' {
            result.push('\n');
        }
        let closing = FileResolver::generate_include_comment(resolved_path.as_str(), false);
        result.append(closing.as_str());
        assert(result@ =~= wrapped(processed@, resolved_path@, true));
        Ok(result)
    }
}

/// Builds an expander setting by setting.
pub struct PreprocessorBuilder {
    config: ProcessingConfig,
}

impl View for PreprocessorBuilder {
    type V = ConfigView;

    closed spec fn view(&self) -> ConfigView {
        self.config@
    }
}

impl PreprocessorBuilder {
    /// A builder with the default settings.
    pub fn new() -> (builder: Self)
        ensures
            builder@ == default_config(),
    {
        Self { config: ProcessingConfig::default() }
    }

    /// Sets whether included text is put between comment lines.
    pub fn debug_mode(self, enabled: bool) -> (builder: Self)
        ensures
            builder@ == (ConfigView { debug_mode: enabled, ..self@ }),
    {
        let mut builder = self;
        builder.config.debug_mode = enabled;
        builder
    }

    /// Sets how many files may be open at once.
    pub fn max_include_depth(self, depth: usize) -> (builder: Self)
        ensures
            builder@ == (ConfigView { max_include_depth: depth as nat, ..self@ }),
    {
        let mut builder = self;
        builder.config.max_include_depth = depth;
        builder
    }

    /// Sets the directory below which absolute paths are taken.
    pub fn base_directory(self, path: &str) -> (builder: Self)
        ensures
            builder@ == (ConfigView { base_directory: path@, ..self@ }),
    {
        let mut builder = self;
        builder.config.base_directory = String::from_str(path);
        builder
    }

    /// The expander with the settings made so far.
    pub fn build(self) -> (preprocessor: ShellPreprocessor)
        ensures
            preprocessor@ == self@,
    {
        ShellPreprocessor::new(self.config)
    }
}

impl Default for PreprocessorBuilder {
    fn default() -> (builder: Self)
        ensures
            builder@ == default_config(),
    {
        Self::new()
    }
}

/// Once the expansion of the lines has halted, it stays as it is however
/// many lines follow.
pub proof fn lemma_lines_expansion_halted(
    files: FactsView,
    lines: Seq<Seq<char>>,
    source_file: Seq<char>,
    context: ContextView,
    n: nat,
    m: nat,
)
    requires
        n <= m,
        lines_expansion(files, lines, source_file, context, n).result is Err,
    ensures
        lines_expansion(files, lines, source_file, context, m) == lines_expansion(
            files,
            lines,
            source_file,
            context,
            n,
        ),
    decreases m - n,
{
    if n < m {
        lemma_lines_expansion_halted(files, lines, source_file, context, n, (m - 1) as nat);
    }
}

/// Whether `result` is a text or a failure: not a halt for want of an
/// answer.
pub open spec fn is_settled(result: Result<Seq<char>, HaltView>) -> bool {
    !(result matches Err(HaltView::Needs(_)))
}

/// A text without directives expands to itself, character for character,
/// wherever its file can be entered.
pub proof fn lemma_plain_text_unchanged(
    files: FactsView,
    content: Seq<char>,
    source_file: Seq<char>,
    context: ContextView,
)
    requires
        includes_outcome(content, source_file) == Ok::<Seq<DirectiveView>, ErrorView>(
            Seq::empty(),
        ),
        enter_outcome(files, context, source_file) is Ok,
    ensures
        content_expansion(files, content, source_file, context).result == Ok::<
            Seq<char>,
            HaltView,
        >(content),
{
}

/// A file without directives expands to its own text in a run of its own,
/// where it can be read, has a canonical path and the depth limit lets one
/// file be open.
pub proof fn lemma_plain_file_unchanged(
    files: FactsView,
    input_path: Seq<char>,
    config: ConfigView,
    content: Seq<char>,
)
    requires
        read_outcome(files, input_path) == Ok::<Seq<char>, HaltView>(content),
        canonical_outcome(files, input_path) is Ok,
        config.max_include_depth > 0,
        includes_outcome(content, input_path) == Ok::<Seq<DirectiveView>, ErrorView>(
            Seq::empty(),
        ),
    ensures
        file_expansion(files, input_path, config) == Ok::<Seq<char>, HaltView>(content),
{
    lemma_plain_text_unchanged(files, content, input_path, ContextView::fresh(config));
}

/// Lines without a directive are copied as they are: the expansion of such
/// lines is the lines themselves, joined as they were, and touches no
/// file.
pub proof fn lemma_plain_lines_copied(
    files: FactsView,
    lines: Seq<Seq<char>>,
    source_file: Seq<char>,
    context: ContextView,
    n: nat,
)
    requires
        n <= lines.len(),
        forall|i: int| 0 <= i < n ==> !(line_kind(trimmed(#[trigger] lines[i])) is Directive),
    ensures
        lines_expansion(files, lines, source_file, context, n).result == Ok::<
            Seq<char>,
            HaltView,
        >(joined_prefix(lines, seq![newline()], n as int)),
        lines_expansion(files, lines, source_file, context, n).context == context,
    decreases n,
{
    if n > 0 {
        lemma_plain_lines_copied(files, lines, source_file, context, (n - 1) as nat);
        assert(!(line_kind(trimmed(lines[n - 1])) is Directive));
        let before = joined_prefix(lines, seq![newline()], n - 1);
        if n == 1 {
            assert(before + lines[0] =~= lines[0]);
        } else {
            assert(before.push(newline()) + lines[n - 1] =~= before + seq![newline()] + lines[n
                - 1]);
        }
    }
}

/// Whether an expansion that began in `before` may end in `after`: the
/// settings are the same, no file that was entered is forgotten, the files
/// that were open still are, outermost, and a well-formed context stays so.
pub open spec fn follows(before: ContextView, after: ContextView) -> bool {
    &&& after.config == before.config
    &&& before.visited.subset_of(after.visited)
    &&& before.active_chain.is_prefix_of(after.active_chain)
    &&& before.wf() ==> after.wf()
}

/// An expansion keeps the context in order. Where it succeeds, the files
/// that are open are those that were open before, and its own file is among
/// those entered.
pub proof fn lemma_content_context(
    files: FactsView,
    content: Seq<char>,
    source_file: Seq<char>,
    context: ContextView,
)
    ensures
        follows(context, content_expansion(files, content, source_file, context).context),
        content_expansion(files, content, source_file, context).result is Ok ==> {
            &&& content_expansion(files, content, source_file, context).context.active_chain
                == context.active_chain
            &&& canonical_outcome(files, source_file) is Ok
            &&& content_expansion(files, content, source_file, context).context.visited.contains(
                canonical_outcome(files, source_file)->Ok_0,
            )
        },
    decreases room(context), 0int, 0int,
{
    match enter_outcome(files, context, source_file) {
        Err(_) => {},
        Ok(inside) => {
            assert(inside.active_chain.drop_last() =~= context.active_chain);
            match includes_outcome(content, source_file) {
                Err(_) => {},
                Ok(directives) => if directives.len() != 0 {
                    let lines = lines_of(content);
                    lemma_lines_context(files, lines, source_file, inside, lines.len());
                },
            }
        },
    }
}

/// See `lemma_content_context`.
pub proof fn lemma_lines_context(
    files: FactsView,
    lines: Seq<Seq<char>>,
    source_file: Seq<char>,
    context: ContextView,
    n: nat,
)
    ensures
        follows(context, lines_expansion(files, lines, source_file, context, n).context),
        lines_expansion(files, lines, source_file, context, n).result is Ok ==> lines_expansion(
            files,
            lines,
            source_file,
            context,
            n,
        ).context.active_chain == context.active_chain,
    decreases room(context), 2int, n,
{
    if n > 0 {
        lemma_lines_context(files, lines, source_file, context, (n - 1) as nat);
        let before = lines_expansion(files, lines, source_file, context, (n - 1) as nat);
        if before.result is Ok {
            match line_kind(trimmed(lines[n - 1])) {
                LineKind::Directive { file_path, quote_type } => {
                    let directive = DirectiveView {
                        line_number: n,
                        file_path,
                        source_file,
                        quote_type,
                    };
                    assert(with_visited(context, before.context.visited) == before.context);
                    lemma_directive_context(files, directive, before.context);
                },
                _ => {},
            }
        }
    }
}

/// See `lemma_content_context`.
pub proof fn lemma_directive_context(
    files: FactsView,
    directive: DirectiveView,
    context: ContextView,
)
    ensures
        follows(context, directive_expansion(files, directive, context).context),
        directive_expansion(files, directive, context).result is Ok ==> directive_expansion(
            files,
            directive,
            context,
        ).context.active_chain == context.active_chain,
    decreases room(context), 1int, 0int,
{
    match located(files, directive, context.config) {
        Err(_) => {},
        Ok(path) => match read_outcome(files, path) {
            Err(_) => {},
            Ok(content) => {
                lemma_content_context(files, content, path, context);
            },
        },
    }
}

/// A file that was expanded once is refused wherever it is named again,
/// under this path or another, inside the first expansion or after it: the
/// second expansion fails as a circular dependency on the file's canonical
/// path. So two files that include the same third are refused like a true
/// cycle.
pub proof fn lemma_second_expansion_refused(
    files: FactsView,
    content: Seq<char>,
    source_file: Seq<char>,
    context: ContextView,
    again_content: Seq<char>,
    again_file: Seq<char>,
    later: ContextView,
)
    requires
        content_expansion(files, content, source_file, context).result is Ok,
        canonical_outcome(files, again_file) == canonical_outcome(files, source_file),
        content_expansion(files, content, source_file, context).context.visited.subset_of(
            later.visited,
        ),
        later.active_chain.len() < later.config.max_include_depth,
    ensures
        content_expansion(files, again_content, again_file, later).result == Err::<
            Seq<char>,
            HaltView,
        >(
            HaltView::Failed(
                ErrorView::CircularDependency {
                    path: canonical_outcome(files, source_file)->Ok_0,
                    stack: chain_text(later.active_chain),
                },
            ),
        ),
{
    lemma_content_context(files, content, source_file, context);
}

/// An expansion halts for want of an answer only where the answer is not
/// known: recording it lets the next run get further.
pub proof fn lemma_content_needs_unknown(
    files: FactsView,
    content: Seq<char>,
    source_file: Seq<char>,
    context: ContextView,
)
    ensures
        content_expansion(files, content, source_file, context).result matches Err(
            HaltView::Needs(query),
        ) ==> !files.answers(query),
    decreases room(context), 0int, 0int,
{
    match enter_outcome(files, context, source_file) {
        Err(_) => {},
        Ok(inside) => match includes_outcome(content, source_file) {
            Err(_) => {},
            Ok(directives) => if directives.len() != 0 {
                let lines = lines_of(content);
                lemma_lines_needs_unknown(files, lines, source_file, inside, lines.len());
            },
        },
    }
}

/// See `lemma_content_needs_unknown`.
pub proof fn lemma_lines_needs_unknown(
    files: FactsView,
    lines: Seq<Seq<char>>,
    source_file: Seq<char>,
    context: ContextView,
    n: nat,
)
    ensures
        lines_expansion(files, lines, source_file, context, n).result matches Err(
            HaltView::Needs(query),
        ) ==> !files.answers(query),
    decreases room(context), 2int, n,
{
    if n > 0 {
        lemma_lines_needs_unknown(files, lines, source_file, context, (n - 1) as nat);
        let before = lines_expansion(files, lines, source_file, context, (n - 1) as nat);
        if before.result is Ok {
            match line_kind(trimmed(lines[n - 1])) {
                LineKind::Directive { file_path, quote_type } => {
                    let directive = DirectiveView {
                        line_number: n,
                        file_path,
                        source_file,
                        quote_type,
                    };
                    lemma_directive_needs_unknown(
                        files,
                        directive,
                        with_visited(context, before.context.visited),
                    );
                },
                _ => {},
            }
        }
    }
}

/// See `lemma_content_needs_unknown`.
pub proof fn lemma_directive_needs_unknown(
    files: FactsView,
    directive: DirectiveView,
    context: ContextView,
)
    ensures
        directive_expansion(files, directive, context).result matches Err(
            HaltView::Needs(query),
        ) ==> !files.answers(query),
    decreases room(context), 1int, 0int,
{
    match located(files, directive, context.config) {
        Err(_) => {},
        Ok(path) => match read_outcome(files, path) {
            Err(_) => {},
            Ok(content) => {
                lemma_content_needs_unknown(files, content, path, context);
            },
        },
    }
}

/// A run of its own halts for want of an answer only where the answer is
/// not known.
pub proof fn lemma_file_needs_unknown(files: FactsView, input_path: Seq<char>, config: ConfigView)
    ensures
        file_expansion(files, input_path, config) matches Err(HaltView::Needs(query))
            ==> !files.answers(query),
{
    match read_outcome(files, input_path) {
        Err(_) => {},
        Ok(content) => {
            lemma_content_needs_unknown(files, content, input_path, ContextView::fresh(config));
        },
    }
}

/// A text or a failure is final: it is what the expansion gives however
/// much more is known of the file system.
pub proof fn lemma_content_settled(
    files: FactsView,
    more: FactsView,
    content: Seq<char>,
    source_file: Seq<char>,
    context: ContextView,
)
    requires
        files.within(more),
        is_settled(content_expansion(files, content, source_file, context).result),
    ensures
        content_expansion(more, content, source_file, context) == content_expansion(
            files,
            content,
            source_file,
            context,
        ),
    decreases room(context), 0int, 0int,
{
    match enter_outcome(files, context, source_file) {
        Err(_) => {},
        Ok(inside) => match includes_outcome(content, source_file) {
            Err(_) => {},
            Ok(directives) => if directives.len() != 0 {
                let lines = lines_of(content);
                lemma_lines_settled(files, more, lines, source_file, inside, lines.len());
            },
        },
    }
}

/// See `lemma_content_settled`.
pub proof fn lemma_lines_settled(
    files: FactsView,
    more: FactsView,
    lines: Seq<Seq<char>>,
    source_file: Seq<char>,
    context: ContextView,
    n: nat,
)
    requires
        files.within(more),
        is_settled(lines_expansion(files, lines, source_file, context, n).result),
    ensures
        lines_expansion(more, lines, source_file, context, n) == lines_expansion(
            files,
            lines,
            source_file,
            context,
            n,
        ),
    decreases room(context), 2int, n,
{
    if n > 0 {
        let before = lines_expansion(files, lines, source_file, context, (n - 1) as nat);
        lemma_lines_settled(files, more, lines, source_file, context, (n - 1) as nat);
        if before.result is Ok {
            match line_kind(trimmed(lines[n - 1])) {
                LineKind::Directive { file_path, quote_type } => {
                    let directive = DirectiveView {
                        line_number: n,
                        file_path,
                        source_file,
                        quote_type,
                    };
                    lemma_directive_settled(
                        files,
                        more,
                        directive,
                        with_visited(context, before.context.visited),
                    );
                },
                _ => {},
            }
        }
    }
}

/// See `lemma_content_settled`.
pub proof fn lemma_directive_settled(
    files: FactsView,
    more: FactsView,
    directive: DirectiveView,
    context: ContextView,
)
    requires
        files.within(more),
        is_settled(directive_expansion(files, directive, context).result),
    ensures
        directive_expansion(more, directive, context) == directive_expansion(
            files,
            directive,
            context,
        ),
    decreases room(context), 1int, 0int,
{
    match located(files, directive, context.config) {
        Err(_) => {},
        Ok(path) => match read_outcome(files, path) {
            Err(_) => {},
            Ok(content) => {
                lemma_content_settled(files, more, content, path, context);
            },
        },
    }
}

/// The outcome of a run of its own is final once it is a text or a
/// failure.
pub proof fn lemma_file_settled(
    files: FactsView,
    more: FactsView,
    input_path: Seq<char>,
    config: ConfigView,
)
    requires
        files.within(more),
        is_settled(file_expansion(files, input_path, config)),
    ensures
        file_expansion(more, input_path, config) == file_expansion(files, input_path, config),
{
    match read_outcome(files, input_path) {
        Err(_) => {},
        Ok(content) => {
            lemma_content_settled(files, more, content, input_path, ContextView::fresh(config));
        },
    }
}

} // verus!
