//! The failures of the expander, as a closed set of tagged variants.

use vstd::prelude::*;

verus! {

/// Why an expansion failed. Each variant carries the fields that a message
/// needs.
#[derive(Debug, Clone, PartialEq, Eq)]
pub enum PreprocessorError {
    /// The path names no regular file.
    FileNotFound { path: String },
    /// The file system failed in some other way on `path`.
    IoError { path: String, cause: String },
    /// The file was entered before; `stack` is the chain of files that were
    /// open at that moment, outermost first.
    CircularDependency { path: String, stack: String },
    /// A line begins with the directive's marker and is no directive.
    InvalidIncludeDirective { line_number: usize, directive: String },
    /// Entering the file would nest deeper than the limit.
    MaxDepthExceeded { path: String, max_depth: usize },
    /// The file may not be read.
    PermissionDenied { path: String },
}

/// The mathematical value of a `PreprocessorError`.
pub enum ErrorView {
    FileNotFound { path: Seq<char> },
    IoError { path: Seq<char>, cause: Seq<char> },
    CircularDependency { path: Seq<char>, stack: Seq<char> },
    InvalidIncludeDirective { line_number: nat, directive: Seq<char> },
    MaxDepthExceeded { path: Seq<char>, max_depth: nat },
    PermissionDenied { path: Seq<char> },
}

impl View for PreprocessorError {
    type V = ErrorView;

    open spec fn view(&self) -> ErrorView {
        match *self {
            PreprocessorError::FileNotFound { path } => ErrorView::FileNotFound { path: path@ },
            PreprocessorError::IoError { path, cause } => ErrorView::IoError {
                path: path@,
                cause: cause@,
            },
            PreprocessorError::CircularDependency { path, stack } => ErrorView::CircularDependency {
                path: path@,
                stack: stack@,
            },
            PreprocessorError::InvalidIncludeDirective {
                line_number,
                directive,
            } => ErrorView::InvalidIncludeDirective {
                line_number: line_number as nat,
                directive: directive@,
            },
            PreprocessorError::MaxDepthExceeded { path, max_depth } => ErrorView::MaxDepthExceeded {
                path: path@,
                max_depth: max_depth as nat,
            },
            PreprocessorError::PermissionDenied { path } => ErrorView::PermissionDenied {
                path: path@,
            },
        }
    }
}

} // verus!
