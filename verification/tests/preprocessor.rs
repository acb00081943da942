use shrup::{
    Halt, KnownFiles, PreprocessorBuilder, PreprocessorError, ProcessingConfig, ProcessingContext,
    Query, ReadFailure, ShellPreprocessor,
};

/// A table that knows each of `entries`, a path and a text, as a regular
/// file that is its own canonical form.
fn disk(entries: &[(&str, &str)]) -> KnownFiles {
    let mut files = KnownFiles::new();
    for (path, text) in entries {
        files.record_regular_file(path, true);
        files.record_content(path, Ok(text.to_string()));
        files.record_canonical(path, Ok(path.to_string()));
    }
    files
}

fn failed(error: PreprocessorError) -> Result<String, Halt> {
    Err(Halt::Failed(error))
}

#[test]
fn test_integration_basic() {
    let files = disk(&[("/tmp/t/input.sh", "#!/bin/bash\necho \"Hello World\"")]);

    // Run preprocessor
    let preprocessor = PreprocessorBuilder::new().base_directory("/tmp/t").build();

    let output_content = preprocessor.process_file("/tmp/t/input.sh", &files).unwrap();

    // Check output
    assert!(output_content.contains("#!/bin/bash"));
    assert!(output_content.contains("echo \"Hello World\""));
    assert_eq!(output_content, "#!/bin/bash\necho \"Hello World\"");
}

#[test]
fn test_simple_include() {
    let files = disk(&[
        ("/tmp/t/utils.sh", "function hello() {\n    echo \"Hello\"\n}"),
        ("/tmp/t/main.sh", "#!/bin/bash\n#include utils.sh\nhello"),
    ]);

    let preprocessor = PreprocessorBuilder::new().base_directory("/tmp/t").build();

    let result = preprocessor.process_file("/tmp/t/main.sh", &files).unwrap();

    // Check output
    assert!(result.contains("#!/bin/bash"));
    assert!(result.contains("function hello()"));
    assert!(result.contains("hello"));
    assert_eq!(result, "#!/bin/bash\nfunction hello() {\n    echo \"Hello\"\n}\nhello");
}

#[test]
fn test_debug_mode() {
    let files = disk(&[
        ("/tmp/t/utils.sh", "echo \"utility\""),
        ("/tmp/t/main.sh", "#include utils.sh"),
    ]);

    // Process file with debug mode
    let preprocessor =
        PreprocessorBuilder::new().debug_mode(true).base_directory("/tmp/t").build();

    let result = preprocessor.process_file("/tmp/t/main.sh", &files).unwrap();

    // Check output contains debug comments
    assert!(result.contains("# --- Included from"));
    assert!(result.contains("# --- End of"));
    assert_eq!(
        result,
        "# --- Included from /tmp/t/utils.sh ---\necho \"utility\"\n# --- End of /tmp/t/utils.sh ---"
    );
}

#[test]
fn test_recursive_include() {
    let files = disk(&[
        ("/tmp/t/nested.sh", "echo \"nested\""),
        ("/tmp/t/middle.sh", "#include nested.sh\necho \"middle\""),
        ("/tmp/t/main.sh", "#include middle.sh\necho \"main\""),
    ]);

    let preprocessor = PreprocessorBuilder::new().base_directory("/tmp/t").build();

    let result = preprocessor.process_file("/tmp/t/main.sh", &files).unwrap();

    // Check output
    assert!(result.contains("echo \"nested\""));
    assert!(result.contains("echo \"middle\""));
    assert!(result.contains("echo \"main\""));
    assert_eq!(result, "echo \"nested\"\necho \"middle\"\necho \"main\"");
}

#[test]
fn end_to_end_without_debug() {
    let files = disk(&[
        ("/w/main.sh", "#!/bin/bash\n#include utils.sh\necho done"),
        ("/w/utils.sh", "echo util"),
    ]);
    let preprocessor = PreprocessorBuilder::new().base_directory("/w").build();
    assert_eq!(
        preprocessor.process_file("/w/main.sh", &files),
        Ok("#!/bin/bash\necho util\necho done".to_string())
    );
}

#[test]
fn end_to_end_with_debug() {
    let files = disk(&[
        ("/w/main.sh", "#!/bin/bash\n#include utils.sh\necho done"),
        ("/w/utils.sh", "echo util"),
    ]);
    let preprocessor = PreprocessorBuilder::new().debug_mode(true).base_directory("/w").build();
    assert_eq!(
        preprocessor.process_file("/w/main.sh", &files),
        Ok("#!/bin/bash\n# --- Included from /w/utils.sh ---\necho util\n# --- End of /w/utils.sh ---\necho done"
            .to_string())
    );
}

#[test]
fn debug_adds_no_separator_where_the_text_ends_in_one() {
    let files = disk(&[("/w/main.sh", "#include a.sh\n#include b.sh"), ("/w/a.sh", "echo a\n"),
        ("/w/b.sh", "")]);
    let preprocessor = PreprocessorBuilder::new().debug_mode(true).build();
    assert_eq!(
        preprocessor.process_file("/w/main.sh", &files),
        Ok("# --- Included from /w/a.sh ---\necho a\n# --- End of /w/a.sh ---\n\
            # --- Included from /w/b.sh ---\n\n# --- End of /w/b.sh ---"
            .to_string())
    );
}

#[test]
fn a_file_without_directives_is_unchanged() {
    for text in ["", "echo a", "echo a\n", "\n\n", "a\r\nb\r\n", "  # include x\n\t#Include y\n",
        "echo '#include x'\n", "日本語\n"]
    {
        let files = disk(&[("/w/main.sh", text)]);
        for debug in [false, true] {
            let preprocessor = PreprocessorBuilder::new().debug_mode(debug).build();
            assert_eq!(preprocessor.process_file("/w/main.sh", &files), Ok(text.to_string()));
        }
    }
}

#[test]
fn the_shape_of_the_lines_is_kept() {
    let files = disk(&[
        ("/w/main.sh", "first\r\n  #include   <x.sh>  \r\n\nlast\n"),
        ("/w/x.sh", "x1\nx2"),
    ]);
    let preprocessor = PreprocessorBuilder::new().build();
    assert_eq!(
        preprocessor.process_file("/w/main.sh", &files),
        Ok("first\r\nx1\nx2\n\nlast\n".to_string())
    );
}

#[test]
fn the_trailing_separator_of_an_included_file_is_kept() {
    let files = disk(&[("/w/main.sh", "#include x.sh\nend"), ("/w/x.sh", "x\n")]);
    let preprocessor = PreprocessorBuilder::new().build();
    assert_eq!(preprocessor.process_file("/w/main.sh", &files), Ok("x\n\nend".to_string()));
}

#[test]
fn a_directive_on_the_only_line() {
    let files = disk(&[("/w/main.sh", "#include x.sh"), ("/w/x.sh", "x")]);
    let preprocessor = PreprocessorBuilder::new().build();
    assert_eq!(preprocessor.process_file("/w/main.sh", &files), Ok("x".to_string()));
    let files = disk(&[("/w/main.sh", "#include x.sh\n"), ("/w/x.sh", "x")]);
    assert_eq!(preprocessor.process_file("/w/main.sh", &files), Ok("x\n".to_string()));
}

#[test]
fn a_cycle_of_two_files_is_refused() {
    let files = disk(&[
        ("/w/a.sh", "echo a\n#include b.sh\n"),
        ("/w/b.sh", "echo b\n#include a.sh\n"),
    ]);
    let preprocessor = PreprocessorBuilder::new().build();
    assert_eq!(
        preprocessor.process_file("/w/a.sh", &files),
        failed(PreprocessorError::CircularDependency {
            path: "/w/a.sh".to_string(),
            stack: "/w/a.sh -> /w/b.sh".to_string(),
        })
    );
}

#[test]
fn a_cycle_is_named_by_canonical_paths() {
    let mut files = KnownFiles::new();
    for (path, canonical, text) in [
        ("A", "/real/A", "#include B"),
        ("B", "/real/B", "#include ./A"),
        ("./A", "/real/A", "#include B"),
    ] {
        files.record_regular_file(path, true);
        files.record_content(path, Ok(text.to_string()));
        files.record_canonical(path, Ok(canonical.to_string()));
    }
    let preprocessor = PreprocessorBuilder::new().build();
    assert_eq!(
        preprocessor.process_file("A", &files),
        failed(PreprocessorError::CircularDependency {
            path: "/real/A".to_string(),
            stack: "/real/A -> /real/B".to_string(),
        })
    );
}

#[test]
fn a_file_that_includes_itself_is_refused() {
    let files = disk(&[("/w/a.sh", "#include a.sh")]);
    let preprocessor = PreprocessorBuilder::new().build();
    assert_eq!(
        preprocessor.process_file("/w/a.sh", &files),
        failed(PreprocessorError::CircularDependency {
            path: "/w/a.sh".to_string(),
            stack: "/w/a.sh".to_string(),
        })
    );
}

#[test]
fn a_diamond_is_refused_on_the_second_encounter() {
    let files = disk(&[
        ("/w/a.sh", "#include b.sh\n#include c.sh"),
        ("/w/b.sh", "#include d.sh"),
        ("/w/c.sh", "#include d.sh"),
        ("/w/d.sh", "echo d"),
    ]);
    let preprocessor = PreprocessorBuilder::new().build();
    assert_eq!(
        preprocessor.process_file("/w/a.sh", &files),
        failed(PreprocessorError::CircularDependency {
            path: "/w/d.sh".to_string(),
            stack: "/w/a.sh -> /w/c.sh".to_string(),
        })
    );
    // One branch alone is fine.
    let files = disk(&[
        ("/w/a.sh", "#include b.sh\necho c"),
        ("/w/b.sh", "#include d.sh"),
        ("/w/d.sh", "echo d"),
    ]);
    assert_eq!(preprocessor.process_file("/w/a.sh", &files), Ok("echo d\necho c".to_string()));
}

#[test]
fn the_same_file_twice_in_one_file_is_refused() {
    let files = disk(&[("/w/a.sh", "#include x.sh\n#include x.sh"), ("/w/x.sh", "x")]);
    let preprocessor = PreprocessorBuilder::new().build();
    assert_eq!(
        preprocessor.process_file("/w/a.sh", &files),
        failed(PreprocessorError::CircularDependency {
            path: "/w/x.sh".to_string(),
            stack: "/w/a.sh".to_string(),
        })
    );
}

fn chain(length: usize) -> KnownFiles {
    let mut files = KnownFiles::new();
    for i in 1..=length {
        let path = format!("/w/f{}.sh", i);
        let text = if i < length {
            format!("begin {}\n#include f{}.sh\nend {}", i, i + 1, i)
        } else {
            format!("leaf {}", i)
        };
        files.record_regular_file(&path, true);
        files.record_content(&path, Ok(text));
        files.record_canonical(&path, Ok(path.clone()));
    }
    files
}

#[test]
fn nesting_is_refused_exactly_at_the_limit() {
    // Three files nested in one another fit a limit of three.
    let preprocessor = PreprocessorBuilder::new().max_include_depth(3).build();
    assert_eq!(
        preprocessor.process_file("/w/f1.sh", &chain(3)),
        Ok("begin 1\nbegin 2\nleaf 3\nend 2\nend 1".to_string())
    );
    // Four do not: the fourth is refused.
    assert_eq!(
        preprocessor.process_file("/w/f1.sh", &chain(4)),
        failed(PreprocessorError::MaxDepthExceeded { path: "/w/f4.sh".to_string(), max_depth: 3 })
    );
    // With a limit of four they do.
    let preprocessor = PreprocessorBuilder::new().max_include_depth(4).build();
    assert_eq!(
        preprocessor.process_file("/w/f1.sh", &chain(4)),
        Ok("begin 1\nbegin 2\nbegin 3\nleaf 4\nend 3\nend 2\nend 1".to_string())
    );
}

#[test]
fn every_limit_has_its_boundary() {
    for limit in 1..12usize {
        let preprocessor = PreprocessorBuilder::new().max_include_depth(limit).build();
        assert!(preprocessor.process_file("/w/f1.sh", &chain(limit)).is_ok());
        assert_eq!(
            preprocessor.process_file("/w/f1.sh", &chain(limit + 1)),
            failed(PreprocessorError::MaxDepthExceeded {
                path: format!("/w/f{}.sh", limit + 1),
                max_depth: limit,
            })
        );
    }
}

#[test]
fn a_limit_of_zero_refuses_the_input_file() {
    let preprocessor = PreprocessorBuilder::new().max_include_depth(0).build();
    assert_eq!(
        preprocessor.process_file("/w/f1.sh", &chain(1)),
        failed(PreprocessorError::MaxDepthExceeded { path: "/w/f1.sh".to_string(), max_depth: 0 })
    );
}

#[test]
fn siblings_do_not_count_as_depth() {
    let files = disk(&[
        ("/w/a.sh", "#include b.sh\n#include c.sh\n#include d.sh"),
        ("/w/b.sh", "b"),
        ("/w/c.sh", "c"),
        ("/w/d.sh", "d"),
    ]);
    let preprocessor = PreprocessorBuilder::new().max_include_depth(2).build();
    assert_eq!(preprocessor.process_file("/w/a.sh", &files), Ok("b\nc\nd".to_string()));
}

#[test]
fn relative_paths_start_at_the_including_file_at_every_level() {
    let files = disk(&[
        ("/w/main.sh", "#include lib/a.sh"),
        ("/w/lib/a.sh", "#include sub/b.sh\n#include ../c.sh"),
        ("/w/lib/sub/b.sh", "#include \"d.sh\""),
        ("/w/lib/sub/d.sh", "d"),
        ("/w/lib/../c.sh", "c"),
        // Decoys below the base directory and beside the input file.
        ("/base/lib/a.sh", "wrong"),
        ("/base/sub/b.sh", "wrong"),
        ("/w/sub/b.sh", "wrong"),
        ("/w/d.sh", "wrong"),
        ("/base/d.sh", "wrong"),
    ]);
    let preprocessor = PreprocessorBuilder::new().base_directory("/base").build();
    assert_eq!(preprocessor.process_file("/w/main.sh", &files), Ok("d\nc".to_string()));
}

#[test]
fn a_path_that_begins_with_the_current_directory() {
    let files = disk(&[
        ("/w/main.sh", "#include ./lib.sh"),
        ("/w/./lib.sh", "#include x.sh"),
        ("/w/x.sh", "x"),
    ]);
    let preprocessor = PreprocessorBuilder::new().debug_mode(true).build();
    assert_eq!(
        preprocessor.process_file("/w/main.sh", &files),
        Ok("# --- Included from /w/./lib.sh ---\n\
            # --- Included from /w/x.sh ---\nx\n# --- End of /w/x.sh ---\n\
            # --- End of /w/./lib.sh ---"
            .to_string())
    );
}

#[test]
fn absolute_paths_are_taken_below_the_base_directory() {
    let files = disk(&[
        ("/w/main.sh", "#include </etc/passwd>"),
        ("/sandbox/etc/passwd", "sandboxed"),
        ("/etc/passwd", "real"),
    ]);
    let preprocessor = PreprocessorBuilder::new().base_directory("/sandbox").build();
    assert_eq!(preprocessor.process_file("/w/main.sh", &files), Ok("sandboxed".to_string()));
}

#[test]
fn a_malformed_line_fails_before_anything_is_included() {
    let files = disk(&[("/w/main.sh", "#include missing.sh\n#include <>\n")]);
    let preprocessor = PreprocessorBuilder::new().build();
    assert_eq!(
        preprocessor.process_file("/w/main.sh", &files),
        failed(PreprocessorError::InvalidIncludeDirective {
            line_number: 2,
            directive: "#include <>".to_string(),
        })
    );
}

#[test]
fn a_malformed_line_in_an_included_file() {
    let files = disk(&[("/w/main.sh", "a\n#include x.sh"), ("/w/x.sh", "1\n2\n #include \n")]);
    let preprocessor = PreprocessorBuilder::new().build();
    assert_eq!(
        preprocessor.process_file("/w/main.sh", &files),
        failed(PreprocessorError::InvalidIncludeDirective {
            line_number: 3,
            directive: "#include".to_string(),
        })
    );
}

#[test]
fn a_missing_file_is_not_found() {
    let mut files = disk(&[("/w/main.sh", "#include gone.sh")]);
    files.record_regular_file("/w/gone.sh", false);
    let preprocessor = PreprocessorBuilder::new().build();
    assert_eq!(
        preprocessor.process_file("/w/main.sh", &files),
        failed(PreprocessorError::FileNotFound { path: "/w/gone.sh".to_string() })
    );
}

#[test]
fn read_failures_of_an_included_file() {
    let preprocessor = PreprocessorBuilder::new().build();
    let cases = vec![
        (ReadFailure::NotFound, PreprocessorError::FileNotFound { path: "/w/x.sh".to_string() }),
        (
            ReadFailure::PermissionDenied,
            PreprocessorError::PermissionDenied { path: "/w/x.sh".to_string() },
        ),
        (
            ReadFailure::Other { cause: "stream did not contain valid UTF-8".to_string() },
            PreprocessorError::IoError {
                path: "/w/x.sh".to_string(),
                cause: "stream did not contain valid UTF-8".to_string(),
            },
        ),
    ];
    for (failure, error) in cases {
        let mut files = disk(&[("/w/main.sh", "#include x.sh")]);
        files.record_regular_file("/w/x.sh", true);
        files.record_content("/w/x.sh", Err(failure));
        assert_eq!(preprocessor.process_file("/w/main.sh", &files), failed(error));
    }
}

#[test]
fn read_failures_of_the_input_file() {
    let preprocessor = PreprocessorBuilder::new().build();
    let mut files = KnownFiles::new();
    files.record_content("/w/main.sh", Err(ReadFailure::NotFound));
    assert_eq!(
        preprocessor.process_file("/w/main.sh", &files),
        failed(PreprocessorError::FileNotFound { path: "/w/main.sh".to_string() })
    );
    let mut files = KnownFiles::new();
    files.record_content("/w/main.sh", Err(ReadFailure::PermissionDenied));
    assert_eq!(
        preprocessor.process_file("/w/main.sh", &files),
        failed(PreprocessorError::PermissionDenied { path: "/w/main.sh".to_string() })
    );
}

#[test]
fn the_expander_asks_in_the_order_of_its_work() {
    let disk_texts = [
        ("/w/main.sh", "#include a.sh\n#include b.sh"),
        ("/w/a.sh", "#include sub/c.sh"),
        ("/w/sub/c.sh", "c"),
        ("/w/b.sh", "b"),
    ];
    let preprocessor = PreprocessorBuilder::new().build();
    let mut files = KnownFiles::new();
    let mut asked: Vec<Query> = Vec::new();
    let result = loop {
        match preprocessor.process_file("/w/main.sh", &files) {
            Err(Halt::Needs(query)) => {
                assert!(!files.answers(&query));
                match &query {
                    Query::Canonicalize { path } => files.record_canonical(path, Ok(path.clone())),
                    Query::RegularFile { path } => {
                        files.record_regular_file(path, disk_texts.iter().any(|(p, _)| p == path))
                    }
                    Query::Read { path } => {
                        let text = disk_texts.iter().find(|(p, _)| p == path).unwrap().1;
                        files.record_content(path, Ok(text.to_string()))
                    }
                }
                assert!(files.answers(&query));
                asked.push(query);
            }
            settled => break settled,
        }
    };
    assert_eq!(result, Ok("c\nb".to_string()));
    let read = |p: &str| Query::Read { path: p.to_string() };
    let canonicalize = |p: &str| Query::Canonicalize { path: p.to_string() };
    let regular = |p: &str| Query::RegularFile { path: p.to_string() };
    assert_eq!(
        asked,
        vec![
            read("/w/main.sh"),
            canonicalize("/w/main.sh"),
            regular("/w/a.sh"),
            read("/w/a.sh"),
            canonicalize("/w/a.sh"),
            regular("/w/sub/c.sh"),
            read("/w/sub/c.sh"),
            canonicalize("/w/sub/c.sh"),
            regular("/w/b.sh"),
            read("/w/b.sh"),
            canonicalize("/w/b.sh"),
        ]
    );
}

#[test]
fn a_settled_outcome_stays_when_more_is_known() {
    let mut files = disk(&[("/w/main.sh", "#include a.sh\nend"), ("/w/a.sh", "a")]);
    let preprocessor = PreprocessorBuilder::new().build();
    let first = preprocessor.process_file("/w/main.sh", &files);
    assert_eq!(first, Ok("a\nend".to_string()));
    files.record_content("/w/other.sh", Ok("other".to_string()));
    files.record_regular_file("/w/other.sh", true);
    files.record_canonical("/w/other.sh", Err("no".to_string()));
    files.record_content("/w/a.sh", Ok("changed".to_string()));
    assert_eq!(preprocessor.process_file("/w/main.sh", &files), first);
}

#[test]
fn content_is_expanded_inside_the_open_files() {
    let files = disk(&[("/w/main.sh", "unused"), ("/w/a.sh", "a")]);
    let preprocessor = ShellPreprocessor::new(ProcessingConfig::default());
    let mut context = ProcessingContext::new(ProcessingConfig::default());
    let text = preprocessor.process_content("x\n#include a.sh", "/w/main.sh", &mut context, &files);
    assert_eq!(text, Ok("x\na".to_string()));
    assert_eq!(context.current_depth(), 0);
    // Both files stay entered.
    assert_eq!(
        preprocessor.process_content("again", "/w/a.sh", &mut context, &files),
        failed(PreprocessorError::CircularDependency {
            path: "/w/a.sh".to_string(),
            stack: "".to_string(),
        })
    );
    assert_eq!(
        preprocessor.process_content("again", "/w/main.sh", &mut context, &files),
        failed(PreprocessorError::CircularDependency {
            path: "/w/main.sh".to_string(),
            stack: "".to_string(),
        })
    );
}

#[test]
fn one_directive_is_expanded_and_wrapped() {
    let files = disk(&[("/w/a.sh", "a")]);
    let config = ProcessingConfig { debug_mode: true, ..Default::default() };
    let preprocessor = ShellPreprocessor::new(config.clone());
    let mut context = ProcessingContext::new(config);
    let directive = shrup::IncludeDirective::new(
        1,
        "a.sh".to_string(),
        "/w/main.sh".to_string(),
        shrup::IncludeQuoteType::Bare,
    );
    assert_eq!(
        preprocessor.process_include(&directive, &mut context, &files),
        Ok("# --- Included from /w/a.sh ---\na\n# --- End of /w/a.sh ---".to_string())
    );
    assert_eq!(context.current_depth(), 0);
}

#[test]
fn the_builder_sets_each_setting() {
    let files = disk(&[
        ("/w/main.sh", "#include /x.sh"),
        ("/base/x.sh", "#include y.sh"),
        ("/base/y.sh", "y"),
    ]);
    let built = PreprocessorBuilder::new()
        .debug_mode(true)
        .max_include_depth(2)
        .base_directory("/base")
        .build();
    assert_eq!(
        built.process_file("/w/main.sh", &files),
        failed(PreprocessorError::MaxDepthExceeded { path: "/base/y.sh".to_string(), max_depth: 2 })
    );
    let built = PreprocessorBuilder::default().base_directory("/base").build();
    assert_eq!(built.process_file("/w/main.sh", &files), Ok("y".to_string()));
}

/// A plain recursive expander over texts held in memory, written with the
/// standard library alone: the measure for the library's own.
struct Plain<'a> {
    texts: &'a [(String, String)],
    debug: bool,
    limit: usize,
    visited: std::collections::HashSet<String>,
    open: Vec<String>,
}

impl<'a> Plain<'a> {
    fn text(&self, path: &str) -> Option<&'a str> {
        self.texts.iter().find(|(p, _)| p == path).map(|(_, t)| t.as_str())
    }

    fn expand(&mut self, content: &str, source: &str) -> Result<String, PreprocessorError> {
        if self.open.len() >= self.limit {
            return Err(PreprocessorError::MaxDepthExceeded {
                path: source.to_string(),
                max_depth: self.limit,
            });
        }
        if self.visited.contains(source) {
            return Err(PreprocessorError::CircularDependency {
                path: source.to_string(),
                stack: self.open.join(" -> "),
            });
        }
        self.visited.insert(source.to_string());
        self.open.push(source.to_string());
        let directives = shrup::IncludeParser::parse_includes(content, source)?;
        let result = if directives.is_empty() {
            content.to_string()
        } else {
            let mut pieces = Vec::new();
            for (index, line) in content.split('\n').enumerate() {
                match directives.iter().find(|d| d.line_number == index + 1) {
                    Some(directive) => pieces.push(self.splice(&directive.file_path, source)?),
                    None => pieces.push(line.to_string()),
                }
            }
            pieces.join("\n")
        };
        self.open.pop();
        Ok(result)
    }

    fn splice(&mut self, written: &str, source: &str) -> Result<String, PreprocessorError> {
        let path = shrup::paths::resolve(written, source, ".");
        let Some(text) = self.text(&path) else {
            return Err(PreprocessorError::FileNotFound { path });
        };
        let expanded = self.expand(text, &path)?;
        if !self.debug {
            return Ok(expanded);
        }
        let separator = if expanded.ends_with('\n') { "" } else { "\n" };
        Ok(format!(
            "# --- Included from {} ---\n{}{}# --- End of {} ---",
            path, expanded, separator, path
        ))
    }
}

#[test]
fn every_small_tree_expands_as_the_plain_expander_says() {
    let lines = ["x", "#include a", "#include <b>", "#include 'c'", "#include d", "#include"];
    let mut contents: Vec<String> = vec![String::new()];
    for first in lines {
        contents.push(first.to_string());
        contents.push(format!("{}\n", first));
        for second in lines {
            contents.push(format!("{}\n{}", first, second));
        }
    }
    let mut runs = 0;
    for a in &contents {
        for b in contents.iter().step_by(3) {
            for c in contents.iter().step_by(5) {
                let texts = [
                    ("a".to_string(), a.clone()),
                    ("b".to_string(), b.clone()),
                    ("c".to_string(), c.clone()),
                ];
                let mut files = KnownFiles::new();
                for (path, text) in &texts {
                    files.record_regular_file(path, true);
                    files.record_content(path, Ok(text.clone()));
                    files.record_canonical(path, Ok(path.clone()));
                }
                files.record_regular_file("d", false);
                for limit in [1, 2, 3] {
                    for debug in [false, true] {
                        let mut plain = Plain {
                            texts: &texts,
                            debug,
                            limit,
                            visited: std::collections::HashSet::new(),
                            open: Vec::new(),
                        };
                        let expected = plain.expand(a, "a").map_err(Halt::Failed);
                        let preprocessor = PreprocessorBuilder::new()
                            .debug_mode(debug)
                            .max_include_depth(limit)
                            .build();
                        assert_eq!(
                            preprocessor.process_file("a", &files),
                            expected,
                            "a={:?} b={:?} c={:?} limit={} debug={}",
                            a,
                            b,
                            c,
                            limit,
                            debug
                        );
                        runs += 1;
                    }
                }
            }
        }
    }
    assert!(runs > 10000);
}
