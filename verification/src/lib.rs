//! An expander of `#include` directives in shell scripts.
//!
//! A directive is a line `#include <path>`, `#include "path"`,
//! `#include 'path'` or `#include path`. The expander replaces each by the
//! expanded text of the file it names, and refuses a file that it has
//! entered before and a nesting deeper than a limit.
//!
//! The library touches no file system. It works from the answers recorded
//! in a `KnownFiles` and halts with a `Query` where one is missing.

pub mod error;
pub mod files;
pub mod parser;
pub mod paths;
pub mod preprocessor;
pub mod resolver;
pub mod text;

pub use error::PreprocessorError;
pub use files::{Halt, KnownFiles, Query, ReadFailure};
pub use parser::{IncludeDirective, IncludeParser, IncludeQuoteType};
pub use preprocessor::{PreprocessorBuilder, ShellPreprocessor};
pub use resolver::{FileResolver, ProcessingConfig, ProcessingContext};
