//! The traversal context, which guards against cycles and deep nesting, and
//! the resolver, which turns a directive into a path and a path into text.

use crate::error::{ErrorView, PreprocessorError};
use crate::files::{
    FactsView, Halt, HaltView, KnownFiles, Query, QueryView, ReadFailure, ReadFailureView,
};
use crate::parser::{DirectiveView, IncludeDirective};
use crate::paths::{resolve, resolved};
use crate::text::joined_prefix;
use vstd::prelude::*;

verus! {

/// The settings of a run.
#[derive(Debug)]
pub struct ProcessingConfig {
    /// Whether included text is put between two comment lines that name its
    /// file.
    pub debug_mode: bool,
    /// How many files may be open at once, the input file counted.
    pub max_include_depth: usize,
    /// The directory below which absolute paths of directives are taken.
    pub base_directory: String,
}

/// The mathematical value of a `ProcessingConfig`.
pub struct ConfigView {
    pub debug_mode: bool,
    pub max_include_depth: nat,
    pub base_directory: Seq<char>,
}

impl View for ProcessingConfig {
    type V = ConfigView;

    open spec fn view(&self) -> ConfigView {
        ConfigView {
            debug_mode: self.debug_mode,
            max_include_depth: self.max_include_depth as nat,
            base_directory: self.base_directory@,
        }
    }
}

impl Clone for ProcessingConfig {
    fn clone(&self) -> (copy: Self)
        ensures
            copy@ == self@,
    {
        ProcessingConfig {
            debug_mode: self.debug_mode,
            max_include_depth: self.max_include_depth,
            base_directory: self.base_directory.clone(),
        }
    }
}

/// The settings that hold where none are given.
pub open spec fn default_config() -> ConfigView {
    ConfigView { debug_mode: false, max_include_depth: 100, base_directory: "."@ }
}

impl Default for ProcessingConfig {
    fn default() -> (config: Self)
        ensures
            config@ == default_config(),
    {
        ProcessingConfig {
            debug_mode: false,
            max_include_depth: 100,
            base_directory: String::from_str("."),
        }
    }
}

/// The mathematical value of a `ProcessingContext`.
pub struct ContextView {
    /// The canonical paths of all files that were ever entered.
    pub visited: Set<Seq<char>>,
    /// The canonical paths of the files that are open, outermost first.
    pub active_chain: Seq<Seq<char>>,
    /// The settings of the run.
    pub config: ConfigView,
}

/// What stands between two files of a chain in a message.
pub open spec fn arrow() -> Seq<char> {
    " -> "@
}

/// The chain as one text: `a -> b -> c`.
pub open spec fn chain_text(chain: Seq<Seq<char>>) -> Seq<char> {
    joined_prefix(chain, arrow(), chain.len() as int)
}

impl ContextView {
    /// What holds of every context: no more files are open than the limit
    /// allows, and every open file was entered.
    pub open spec fn wf(self) -> bool {
        &&& self.active_chain.len() <= self.config.max_include_depth
        &&& forall|i: int|
            0 <= i < self.active_chain.len() ==> self.visited.contains(
                #[trigger] self.active_chain[i],
            )
    }

    /// The context of a run that has entered nothing.
    pub open spec fn fresh(config: ConfigView) -> ContextView {
        ContextView { visited: Set::empty(), active_chain: Seq::empty(), config }
    }

    /// Whether one more file may be opened; the error names `path`.
    pub open spec fn depth_check(self, path: Seq<char>) -> Result<(), ErrorView> {
        if self.active_chain.len() >= self.config.max_include_depth {
            Err(ErrorView::MaxDepthExceeded { path, max_depth: self.config.max_include_depth })
        } else {
            Ok(())
        }
    }

    /// Whether the file with the canonical path `canonical` is new to the
    /// run; the error names it and the chain of open files.
    pub open spec fn cycle_check(self, canonical: Seq<char>) -> Result<(), ErrorView> {
        if self.visited.contains(canonical) {
            Err(
                ErrorView::CircularDependency {
                    path: canonical,
                    stack: chain_text(self.active_chain),
                },
            )
        } else {
            Ok(())
        }
    }

    /// The context after the file with the canonical path `canonical` has
    /// been entered: first the depth is checked, then the cycle, then the
    /// file is marked as entered and as open.
    pub open spec fn entered(self, canonical: Seq<char>) -> Result<ContextView, ErrorView> {
        match self.depth_check(canonical) {
            Err(e) => Err(e),
            Ok(_) => match self.cycle_check(canonical) {
                Err(e) => Err(e),
                Ok(_) => Ok(
                    ContextView {
                        visited: self.visited.insert(canonical),
                        active_chain: self.active_chain.push(canonical),
                        config: self.config,
                    },
                ),
            },
        }
    }

    /// The context after the innermost open file has been left. It stays
    /// marked as entered.
    pub open spec fn exited(self) -> ContextView {
        if self.active_chain.len() == 0 {
            self
        } else {
            ContextView {
                visited: self.visited,
                active_chain: self.active_chain.drop_last(),
                config: self.config,
            }
        }
    }
}

/// The canonical form of `path` as far as `files` knows it.
pub open spec fn canonical_outcome(files: FactsView, path: Seq<char>) -> Result<
    Seq<char>,
    HaltView,
> {
    if !files.canonical.contains_key(path) {
        Err(HaltView::Needs(QueryView::Canonicalize { path }))
    } else {
        match files.canonical[path] {
            Ok(canonical) => Ok(canonical),
            Err(cause) => Err(HaltView::Failed(ErrorView::IoError { path, cause })),
        }
    }
}

/// What entering the file at `path` gives: its canonical form is looked up,
/// and the context is entered with it.
pub open spec fn enter_outcome(files: FactsView, context: ContextView, path: Seq<char>) -> Result<
    ContextView,
    HaltView,
> {
    match canonical_outcome(files, path) {
        Err(halt) => Err(halt),
        Ok(canonical) => match context.entered(canonical) {
            Err(e) => Err(HaltView::Failed(e)),
            Ok(next) => Ok(next),
        },
    }
}

/// What checking the file at `path` for a cycle gives.
pub open spec fn cycle_outcome(files: FactsView, context: ContextView, path: Seq<char>) -> Result<
    (),
    HaltView,
> {
    match canonical_outcome(files, path) {
        Err(halt) => Err(halt),
        Ok(canonical) => match context.cycle_check(canonical) {
            Err(e) => Err(HaltView::Failed(e)),
            Ok(_) => Ok(()),
        },
    }
}

/// The file that `directive` stands for, if it is a regular file.
pub open spec fn located(files: FactsView, directive: DirectiveView, config: ConfigView) -> Result<
    Seq<char>,
    HaltView,
> {
    let path = resolved(directive.file_path, directive.source_file, config.base_directory);
    if !files.regular.contains_key(path) {
        Err(HaltView::Needs(QueryView::RegularFile { path }))
    } else if files.regular[path] {
        Ok(path)
    } else {
        Err(HaltView::Failed(ErrorView::FileNotFound { path }))
    }
}

/// What the file at `path` holds.
pub open spec fn read_outcome(files: FactsView, path: Seq<char>) -> Result<Seq<char>, HaltView> {
    if !files.contents.contains_key(path) {
        Err(HaltView::Needs(QueryView::Read { path }))
    } else {
        match files.contents[path] {
            Ok(text) => Ok(text),
            Err(ReadFailureView::NotFound) => Err(
                HaltView::Failed(ErrorView::FileNotFound { path }),
            ),
            Err(ReadFailureView::PermissionDenied) => Err(
                HaltView::Failed(ErrorView::PermissionDenied { path }),
            ),
            Err(ReadFailureView::Other { cause }) => Err(
                HaltView::Failed(ErrorView::IoError { path, cause }),
            ),
        }
    }
}

/// The comment line that stands before (`is_start`) or after the text of
/// the file at `path`.
pub open spec fn include_comment(path: Seq<char>, is_start: bool) -> Seq<char> {
    if is_start {
        "# --- Included from "@ + path + " ---"@
    } else {
        "# --- End of "@ + path + " ---"@
    }
}

/// Whether `path` is the value of one of `files`.
spec fn listed(files: Seq<String>, path: Seq<char>) -> bool {
    exists|j: int| 0 <= j < files.len() && (#[trigger] files[j])@ == path
}

/// The state of one run: which files were entered, and which are open.
#[derive(Debug)]
pub struct ProcessingContext {
    visited_files: Vec<String>,
    include_stack: Vec<String>,
    config: ProcessingConfig,
}

impl View for ProcessingContext {
    type V = ContextView;

    closed spec fn view(&self) -> ContextView {
        ContextView {
            visited: Set::new(|p: Seq<char>| listed(self.visited_files@, p)),
            active_chain: Seq::new(
                self.include_stack.len() as nat,
                |i: int| self.include_stack[i]@,
            ),
            config: self.config@,
        }
    }
}

impl ProcessingContext {
    /// The context of a run that has entered nothing.
    pub fn new(config: ProcessingConfig) -> (context: Self)
        ensures
            context@ == ContextView::fresh(config@),
            context@.wf(),
    {
        let context = Self { visited_files: Vec::new(), include_stack: Vec::new(), config };
        assert(context@.visited =~= Set::empty());
        assert(context@.active_chain =~= Seq::empty());
        context
    }

    /// How many files are open.
    pub fn current_depth(&self) -> (depth: usize)
        ensures
            depth == self@.active_chain.len(),
    {
        self.include_stack.len()
    }

    /// Fails where as many files are open as the limit allows, so that
    /// `file_path` cannot be opened too.
    pub fn check_max_depth(&self, file_path: &str) -> (r: Result<(), PreprocessorError>)
        ensures
            match r {
                Ok(_) => self@.depth_check(file_path@) is Ok,
                Err(e) => self@.depth_check(file_path@) == Err::<(), ErrorView>(e@),
            },
    {
        if self.current_depth() >= self.config.max_include_depth {
            return Err(
                PreprocessorError::MaxDepthExceeded {
                    path: String::from_str(file_path),
                    max_depth: self.config.max_include_depth,
                },
            );
        }
        Ok(())
    }

    /// The canonical form of `path` as far as `files` knows it.
    pub fn canonicalize_path(path: &str, files: &KnownFiles) -> (r: Result<String, Halt>)
        ensures
            match r {
                Ok(canonical) => canonical_outcome(files@, path@) == Ok::<Seq<char>, HaltView>(
                    canonical@,
                ),
                Err(halt) => canonical_outcome(files@, path@) == Err::<Seq<char>, HaltView>(
                    halt@,
                ),
            },
    {
        match files.canonical_path(path) {
            None => Err(Halt::Needs(Query::Canonicalize { path: String::from_str(path) })),
            Some(Ok(canonical)) => Ok(canonical.clone()),
            Some(Err(cause)) => Err(
                Halt::Failed(
                    PreprocessorError::IoError {
                        path: String::from_str(path),
                        cause: cause.clone(),
                    },
                ),
            ),
        }
    }

    /// Whether the file with the canonical path `canonical` was entered.
    fn is_visited(&self, canonical: &String) -> (r: bool)
        ensures
            r == self@.visited.contains(canonical@),
    {
        let mut i: usize = 0;
        while i < self.visited_files.len()
            invariant
                i <= self.visited_files.len(),
                forall|j: int| 0 <= j < i ==> (#[trigger] self.visited_files[j])@ != canonical@,
            decreases self.visited_files.len() - i,
        {
            if self.visited_files[i] == *canonical {
                return true;
            }
            i += 1;
        }
        false
    }

    /// The chain of open files as one text.
    fn stack_text(&self) -> (r: String)
        ensures
            r@ == chain_text(self@.active_chain),
    {
        let ghost chain = self@.active_chain;
        let mut out = String::new();
        let mut i: usize = 0;
        while i < self.include_stack.len()
            invariant
                i <= self.include_stack.len(),
                chain == self@.active_chain,
                out@ == joined_prefix(chain, arrow(), i as int),
            decreases self.include_stack.len() - i,
        {
            if i > 0 {
                out.append(" -> ");
            }
            out.append(self.include_stack[i].as_str());
            assert(chain[i as int] == self.include_stack[i as int]@);
            assert(out@ =~= joined_prefix(chain, arrow(), i + 1));
            i += 1;
        }
        out
    }

    /// Fails where the file with the canonical path `canonical` was entered
    /// before.
    fn check_visited(&self, canonical: &String) -> (r: Result<(), PreprocessorError>)
        ensures
            match r {
                Ok(_) => self@.cycle_check(canonical@) is Ok,
                Err(e) => self@.cycle_check(canonical@) == Err::<(), ErrorView>(e@),
            },
    {
        if self.is_visited(canonical) {
            return Err(
                PreprocessorError::CircularDependency {
                    path: canonical.clone(),
                    stack: self.stack_text(),
                },
            );
        }
        Ok(())
    }

    /// Fails where the file at `file_path` was entered before, under this
    /// path or another: files are told apart by their canonical paths.
    pub fn check_circular_dependency(&self, file_path: &str, files: &KnownFiles) -> (r: Result<
        (),
        Halt,
    >)
        ensures
            match r {
                Ok(_) => cycle_outcome(files@, self@, file_path@) is Ok,
                Err(halt) => cycle_outcome(files@, self@, file_path@) == Err::<(), HaltView>(
                    halt@,
                ),
            },
    {
        let canonical = match Self::canonicalize_path(file_path, files) {
            Ok(canonical) => canonical,
            Err(halt) => {
                return Err(halt);
            },
        };
        match self.check_visited(&canonical) {
            Ok(_) => Ok(()),
            Err(e) => Err(Halt::Failed(e)),
        }
    }

    /// Enters the file at `file_path`: marks it as entered and as open. It
    /// fails, and changes nothing, where the depth limit is reached or the
    /// file was entered before.
    pub fn enter_file(&mut self, file_path: &str, files: &KnownFiles) -> (r: Result<(), Halt>)
        ensures
            match enter_outcome(files@, old(self)@, file_path@) {
                Ok(next) => r is Ok && final(self)@ == next,
                Err(halt) => r matches Err(h) && h@ == halt && final(self)@ == old(self)@,
            },
            old(self)@.wf() ==> final(self)@.wf(),
    {
        let canonical = match Self::canonicalize_path(file_path, files) {
            Ok(canonical) => canonical,
            Err(halt) => {
                return Err(halt);
            },
        };
        match self.check_max_depth(canonical.as_str()) {
            Ok(_) => {},
            Err(e) => {
                return Err(Halt::Failed(e));
            },
        }
        match self.check_visited(&canonical) {
            Ok(_) => {},
            Err(e) => {
                return Err(Halt::Failed(e));
            },
        }
        let ghost before = *self;
        self.visited_files.push(canonical.clone());
        assert forall|p: Seq<char>| listed(self.visited_files@, p) <==> (listed(
            before.visited_files@,
            p,
        ) || p == canonical@) by {
            if listed(before.visited_files@, p) {
                let j = choose|j: int|
                    0 <= j < before.visited_files.len() && (#[trigger] before.visited_files[j])@
                        == p;
                assert(self.visited_files[j]@ == p);
            }
            if p == canonical@ {
                assert(self.visited_files[before.visited_files.len() as int]@ == p);
            }
        }
        self.include_stack.push(canonical);
        assert(self@.visited =~= before@.visited.insert(canonical@));
        assert(self@.active_chain =~= before@.active_chain.push(canonical@));
        Ok(())
    }

    /// Leaves the innermost open file. It stays marked as entered.
    pub fn exit_file(&mut self)
        ensures
            final(self)@ == old(self)@.exited(),
            old(self)@.wf() ==> final(self)@.wf(),
    {
        let ghost before = *self;
        self.include_stack.pop();
        assert(self@.active_chain =~= before@.exited().active_chain);
    }

    /// The settings of the run.
    pub fn config(&self) -> (config: &ProcessingConfig)
        ensures
            config@ == self@.config,
    {
        &self.config
    }
}

/// The resolver: from a directive to a path, and from a path to text.
pub struct FileResolver;

impl FileResolver {
    /// The path of the file that `directive` stands for. An absolute path
    /// is taken below the base directory, a relative one below the
    /// directory of the file that holds the directive. Fails where the path
    /// names no regular file.
    pub fn resolve_include_path(
        directive: &IncludeDirective,
        config: &ProcessingConfig,
        files: &KnownFiles,
    ) -> (r: Result<String, Halt>)
        ensures
            match r {
                Ok(path) => located(files@, directive@, config@) == Ok::<Seq<char>, HaltView>(
                    path@,
                ),
                Err(halt) => located(files@, directive@, config@) == Err::<Seq<char>, HaltView>(
                    halt@,
                ),
            },
    {
        let path = resolve(
            directive.file_path.as_str(),
            directive.source_file.as_str(),
            config.base_directory.as_str(),
        );
        match files.is_regular_file(path.as_str()) {
            None => Err(Halt::Needs(Query::RegularFile { path })),
            Some(true) => Ok(path),
            Some(false) => Err(Halt::Failed(PreprocessorError::FileNotFound { path })),
        }
    }

    /// What the file at `file_path` holds. A file that is missing or may
    /// not be read gives the error of that name; any other failure gives an
    /// `IoError` with the file system's words.
    pub fn read_file_content(file_path: &str, files: &KnownFiles) -> (r: Result<String, Halt>)
        ensures
            match r {
                Ok(text) => read_outcome(files@, file_path@) == Ok::<Seq<char>, HaltView>(text@),
                Err(halt) => read_outcome(files@, file_path@) == Err::<Seq<char>, HaltView>(
                    halt@,
                ),
            },
    {
        match files.content(file_path) {
            None => Err(Halt::Needs(Query::Read { path: String::from_str(file_path) })),
            Some(Ok(text)) => Ok(text.clone()),
            Some(Err(ReadFailure::NotFound)) => Err(
                Halt::Failed(PreprocessorError::FileNotFound { path: String::from_str(file_path) }),
            ),
            Some(Err(ReadFailure::PermissionDenied)) => Err(
                Halt::Failed(
                    PreprocessorError::PermissionDenied { path: String::from_str(file_path) },
                ),
            ),
            Some(Err(ReadFailure::Other { cause })) => Err(
                Halt::Failed(
                    PreprocessorError::IoError {
                        path: String::from_str(file_path),
                        cause: cause.clone(),
                    },
                ),
            ),
        }
    }

    /// The comment line that stands before (`is_start`) or after the text
    /// of the file at `file_path`.
    pub fn generate_include_comment(file_path: &str, is_start: bool) -> (r: String)
        ensures
            r@ == include_comment(file_path@, is_start),
    {
        let mut out = if is_start {
            String::from_str("# --- Included from ")
        } else {
            String::from_str("# --- End of ")
        };
        out.append(file_path);
        out.append(" ---");
        out
    }
}

/// A run begins well formed.
pub proof fn lemma_fresh_wf(config: ConfigView)
    ensures
        ContextView::fresh(config).wf(),
{
}

/// Entering a file keeps the context well formed, adds the file to those
/// entered and forgets none of them.
pub proof fn lemma_entered_wf(context: ContextView, canonical: Seq<char>)
    requires
        context.wf(),
        context.entered(canonical) is Ok,
    ensures
        context.entered(canonical)->Ok_0.wf(),
        context.visited.subset_of(context.entered(canonical)->Ok_0.visited),
        context.entered(canonical)->Ok_0.visited.contains(canonical),
{
}

/// Leaving a file keeps the context well formed and forgets no file that
/// was entered.
pub proof fn lemma_exited_wf(context: ContextView)
    requires
        context.wf(),
    ensures
        context.exited().wf(),
        context.exited().visited == context.visited,
{
}

/// A file is refused for depth exactly where as many files are open as the
/// limit allows: with one less it is not, whatever the file.
pub proof fn lemma_depth_boundary(context: ContextView, canonical: Seq<char>)
    ensures
        context.active_chain.len() >= context.config.max_include_depth <==> context.entered(
            canonical,
        ) == Err::<ContextView, ErrorView>(
            ErrorView::MaxDepthExceeded {
                path: canonical,
                max_depth: context.config.max_include_depth,
            },
        ),
{
}

/// A file that was entered once is refused ever after, open or not, with
/// the chain of the files that are open at that moment.
pub proof fn lemma_entered_once(context: ContextView, canonical: Seq<char>)
    requires
        context.visited.contains(canonical),
        context.active_chain.len() < context.config.max_include_depth,
    ensures
        context.entered(canonical) == Err::<ContextView, ErrorView>(
            ErrorView::CircularDependency {
                path: canonical,
                stack: chain_text(context.active_chain),
            },
        ),
{
}

/// A file that is open is refused when it is named again below itself: a
/// true cycle fails with the chain of the open files, which holds the file
/// itself.
pub proof fn lemma_open_file_refused(context: ContextView, i: int)
    requires
        context.wf(),
        0 <= i < context.active_chain.len(),
        context.active_chain.len() < context.config.max_include_depth,
    ensures
        context.entered(context.active_chain[i]) == Err::<ContextView, ErrorView>(
            ErrorView::CircularDependency {
                path: context.active_chain[i],
                stack: chain_text(context.active_chain),
            },
        ),
{
    lemma_entered_once(context, context.active_chain[i]);
}

/// The text of a chain of two files is the two with an arrow between them,
/// and that of one file is the file.
pub proof fn lemma_chain_text_shape(outer: Seq<char>, inner: Seq<char>)
    ensures
        chain_text(seq![outer]) == outer,
        chain_text(seq![outer, inner]) == outer + arrow() + inner,
        chain_text(Seq::empty()) == Seq::<char>::empty(),
{
    reveal_with_fuel(joined_prefix, 3);
}

/// A file that was never entered is entered where the depth allows it.
pub proof fn lemma_new_file_enters(context: ContextView, canonical: Seq<char>)
    requires
        !context.visited.contains(canonical),
        context.active_chain.len() < context.config.max_include_depth,
    ensures
        context.entered(canonical) is Ok,
        context.entered(canonical)->Ok_0.active_chain == context.active_chain.push(canonical),
        context.entered(canonical)->Ok_0.exited().active_chain == context.active_chain,
{
    assert(context.active_chain.push(canonical).drop_last() =~= context.active_chain);
}

} // verus!
