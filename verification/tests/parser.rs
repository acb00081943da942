use shrup::{IncludeDirective, IncludeParser, IncludeQuoteType, PreprocessorError};

#[test]
fn test_parse_angle_brackets() {
    let result = IncludeParser::extract_filepath_and_quote_type("<utils/helper.sh>");
    assert_eq!(result, Some(("utils/helper.sh".to_string(), IncludeQuoteType::AngleBrackets)));
}

#[test]
fn test_parse_double_quotes() {
    let result = IncludeParser::extract_filepath_and_quote_type("\"config/settings.sh\"");
    assert_eq!(result, Some(("config/settings.sh".to_string(), IncludeQuoteType::DoubleQuotes)));
}

#[test]
fn test_parse_single_quotes() {
    let result = IncludeParser::extract_filepath_and_quote_type("'helpers/logger.sh'");
    assert_eq!(result, Some(("helpers/logger.sh".to_string(), IncludeQuoteType::SingleQuotes)));
}

#[test]
fn test_parse_no_quotes() {
    let result = IncludeParser::extract_filepath_and_quote_type("common.sh");
    assert_eq!(result, Some(("common.sh".to_string(), IncludeQuoteType::Bare)));
}

#[test]
fn test_parse_invalid() {
    assert_eq!(IncludeParser::extract_filepath_and_quote_type(""), None);
    assert_eq!(IncludeParser::extract_filepath_and_quote_type("file with spaces"), None);
    assert_eq!(IncludeParser::extract_filepath_and_quote_type("<>"), None);
    assert_eq!(IncludeParser::extract_filepath_and_quote_type("\"\""), None);
    assert_eq!(IncludeParser::extract_filepath_and_quote_type("''"), None);
}

#[test]
fn extract_trims_surrounding_white_space() {
    let result = IncludeParser::extract_filepath_and_quote_type("  \t<a.sh> \r");
    assert_eq!(result, Some(("a.sh".to_string(), IncludeQuoteType::AngleBrackets)));
}

#[test]
fn extract_keeps_any_interior() {
    assert_eq!(
        IncludeParser::extract_filepath_and_quote_type("<my file.sh>"),
        Some(("my file.sh".to_string(), IncludeQuoteType::AngleBrackets))
    );
    assert_eq!(
        IncludeParser::extract_filepath_and_quote_type("\"a\"b\""),
        Some(("a\"b".to_string(), IncludeQuoteType::DoubleQuotes))
    );
    assert_eq!(
        IncludeParser::extract_filepath_and_quote_type("' x '"),
        Some((" x ".to_string(), IncludeQuoteType::SingleQuotes))
    );
}

#[test]
fn extract_refuses_unmatched_delimiters() {
    assert_eq!(IncludeParser::extract_filepath_and_quote_type("<a.sh"), None);
    assert_eq!(IncludeParser::extract_filepath_and_quote_type("a.sh>"), None);
    assert_eq!(IncludeParser::extract_filepath_and_quote_type("\"a.sh"), None);
    assert_eq!(IncludeParser::extract_filepath_and_quote_type("a.sh'"), None);
    assert_eq!(IncludeParser::extract_filepath_and_quote_type("<a.sh\""), None);
    assert_eq!(IncludeParser::extract_filepath_and_quote_type("<"), None);
    assert_eq!(IncludeParser::extract_filepath_and_quote_type("\""), None);
}

#[test]
fn extract_refuses_stray_characters_in_bare_path() {
    assert_eq!(IncludeParser::extract_filepath_and_quote_type("a<b"), None);
    assert_eq!(IncludeParser::extract_filepath_and_quote_type("a>b"), None);
    assert_eq!(IncludeParser::extract_filepath_and_quote_type("a\"b"), None);
    assert_eq!(IncludeParser::extract_filepath_and_quote_type("a'b"), None);
    assert_eq!(IncludeParser::extract_filepath_and_quote_type("a\tb"), None);
    assert_eq!(IncludeParser::extract_filepath_and_quote_type("a\u{3000}b"), None);
}

#[test]
fn extract_accepts_non_ascii_paths() {
    assert_eq!(
        IncludeParser::extract_filepath_and_quote_type("<größe/日本.sh>"),
        Some(("größe/日本.sh".to_string(), IncludeQuoteType::AngleBrackets))
    );
    assert_eq!(
        IncludeParser::extract_filepath_and_quote_type("日本.sh"),
        Some(("日本.sh".to_string(), IncludeQuoteType::Bare))
    );
}

#[test]
fn single_line_of_each_form() {
    let cases = vec![
        ("#include <a/b.sh>", "a/b.sh", IncludeQuoteType::AngleBrackets),
        ("#include \"a/b.sh\"", "a/b.sh", IncludeQuoteType::DoubleQuotes),
        ("#include 'a/b.sh'", "a/b.sh", IncludeQuoteType::SingleQuotes),
        ("#include a/b.sh", "a/b.sh", IncludeQuoteType::Bare),
        ("#include\t  a/b.sh", "a/b.sh", IncludeQuoteType::Bare),
        ("#include<a/b.sh>", "a/b.sh", IncludeQuoteType::AngleBrackets),
        ("#includea/b.sh", "a/b.sh", IncludeQuoteType::Bare),
    ];
    for (line, path, quote) in cases {
        let parsed = IncludeParser::parse_single_include(line, 7, "dir/main.sh");
        assert_eq!(
            parsed,
            Ok(Some(IncludeDirective::new(7, path.to_string(), "dir/main.sh".to_string(), quote)))
        );
    }
}

#[test]
fn single_line_that_is_plain() {
    assert_eq!(IncludeParser::parse_single_include("echo hello", 1, "m.sh"), Ok(None));
    assert_eq!(IncludeParser::parse_single_include("", 1, "m.sh"), Ok(None));
    assert_eq!(IncludeParser::parse_single_include("# include a.sh", 1, "m.sh"), Ok(None));
    assert_eq!(IncludeParser::parse_single_include("#Include a.sh", 1, "m.sh"), Ok(None));
    assert_eq!(IncludeParser::parse_single_include("#includ", 1, "m.sh"), Ok(None));
    assert_eq!(IncludeParser::parse_single_include("x #include a.sh", 1, "m.sh"), Ok(None));
    // The line is taken as it is: white space before the marker makes it plain.
    assert_eq!(IncludeParser::parse_single_include("  #include a.sh", 1, "m.sh"), Ok(None));
}

#[test]
fn single_line_that_is_malformed() {
    for line in ["#include", "#include   ", "#include <>", "#include \"\"", "#include ''",
        "#include a b", "#include <a", "#include a>", "#include a\"b"]
    {
        assert_eq!(
            IncludeParser::parse_single_include(line, 42, "m.sh"),
            Err(PreprocessorError::InvalidIncludeDirective {
                line_number: 42,
                directive: line.to_string(),
            })
        );
    }
}

#[test]
fn includes_of_a_text_keep_line_numbers_and_source() {
    let text = "#!/bin/bash\n  #include <a.sh>  \n\necho x\n#include 'b c.sh'\r\n#include d.sh";
    let directives = IncludeParser::parse_includes(text, "src/main.sh").unwrap();
    assert_eq!(
        directives,
        vec![
            IncludeDirective::new(
                2,
                "a.sh".to_string(),
                "src/main.sh".to_string(),
                IncludeQuoteType::AngleBrackets
            ),
            IncludeDirective::new(
                5,
                "b c.sh".to_string(),
                "src/main.sh".to_string(),
                IncludeQuoteType::SingleQuotes
            ),
            IncludeDirective::new(
                6,
                "d.sh".to_string(),
                "src/main.sh".to_string(),
                IncludeQuoteType::Bare
            ),
        ]
    );
}

#[test]
fn includes_of_a_text_without_directives() {
    assert_eq!(IncludeParser::parse_includes("", "m.sh"), Ok(vec![]));
    assert_eq!(IncludeParser::parse_includes("echo a\necho b\n", "m.sh"), Ok(vec![]));
    assert_eq!(IncludeParser::parse_includes("\n\n\n", "m.sh"), Ok(vec![]));
}

#[test]
fn includes_report_the_first_malformed_line() {
    let text = "#include ok.sh\necho x\n   #include   \n#include <>\n";
    assert_eq!(
        IncludeParser::parse_includes(text, "m.sh"),
        Err(PreprocessorError::InvalidIncludeDirective {
            line_number: 3,
            directive: "#include".to_string(),
        })
    );
    let text = "a\nb\n\t#include two words \n";
    assert_eq!(
        IncludeParser::parse_includes(text, "m.sh"),
        Err(PreprocessorError::InvalidIncludeDirective {
            line_number: 3,
            directive: "#include two words".to_string(),
        })
    );
}

#[test]
fn directive_fields_are_those_given() {
    let d = IncludeDirective::new(3, "p.sh".to_string(), "s.sh".to_string(), IncludeQuoteType::Bare);
    assert_eq!(d.line_number, 3);
    assert_eq!(d.file_path, "p.sh");
    assert_eq!(d.source_file, "s.sh");
    assert_eq!(d.quote_type, IncludeQuoteType::Bare);
}

/// The path and form of `input`, computed with the standard library's
/// string functions.
fn extract_with_std(input: &str) -> Option<(String, IncludeQuoteType)> {
    let input = input.trim();
    for (open, close, quote) in [
        ('<', '>', IncludeQuoteType::AngleBrackets),
        ('"', '"', IncludeQuoteType::DoubleQuotes),
        ('\'', '\'', IncludeQuoteType::SingleQuotes),
    ] {
        if input.starts_with(open) && input.ends_with(close) && input.len() > 2 {
            return Some((input[1..input.len() - 1].to_string(), quote));
        }
    }
    if !input.is_empty()
        && !input.contains(char::is_whitespace)
        && !input.contains(['<', '>', '"', '\''])
    {
        return Some((input.to_string(), IncludeQuoteType::Bare));
    }
    None
}

/// The directive on `line`, computed with the standard library's string
/// functions.
fn line_with_std(
    line: &str,
    line_number: usize,
    source_file: &str,
) -> Result<Option<IncludeDirective>, PreprocessorError> {
    let Some(rest) = line.strip_prefix("#include") else {
        return Ok(None);
    };
    match extract_with_std(rest.trim()) {
        Some((path, quote)) if !rest.trim().is_empty() => {
            Ok(Some(IncludeDirective::new(line_number, path, source_file.to_string(), quote)))
        }
        _ => Err(PreprocessorError::InvalidIncludeDirective {
            line_number,
            directive: line.to_string(),
        }),
    }
}

/// The directives of `content`, computed with the standard library's
/// string functions.
fn includes_with_std(
    content: &str,
    source_file: &str,
) -> Result<Vec<IncludeDirective>, PreprocessorError> {
    let mut directives = Vec::new();
    for (index, line) in content.lines().enumerate() {
        if let Some(directive) = line_with_std(line.trim(), index + 1, source_file)? {
            directives.push(directive);
        }
    }
    Ok(directives)
}

/// All texts made of at most `max` of `pieces`.
fn texts_of(pieces: &[&str], max: usize) -> Vec<String> {
    let mut all = vec![String::new()];
    let mut last = vec![String::new()];
    for _ in 0..max {
        let mut next = Vec::new();
        for text in &last {
            for piece in pieces {
                next.push(format!("{}{}", text, piece));
            }
        }
        all.extend(next.iter().cloned());
        last = next;
    }
    all
}

#[test]
fn extraction_agrees_with_the_standard_library() {
    for input in texts_of(&["<", ">", "\"", "'", " ", "a", "\u{e9}"], 6) {
        assert_eq!(
            IncludeParser::extract_filepath_and_quote_type(&input),
            extract_with_std(&input),
            "{:?}",
            input
        );
    }
    for input in texts_of(&["<", "\t", "\u{3000}", "\u{200B}", "x", ">"], 5) {
        assert_eq!(
            IncludeParser::extract_filepath_and_quote_type(&input),
            extract_with_std(&input),
            "{:?}",
            input
        );
    }
}

#[test]
fn single_lines_agree_with_the_standard_library() {
    for line in texts_of(&["#include", "#", "include", " ", "<", ">", "a", "\""], 5) {
        assert_eq!(
            IncludeParser::parse_single_include(&line, 9, "dir/m.sh"),
            line_with_std(&line, 9, "dir/m.sh"),
            "{:?}",
            line
        );
    }
}

#[test]
fn whole_texts_agree_with_the_standard_library() {
    for text in texts_of(&["#include", " ", "\n", "\r", "<a>", "x", "'"], 6) {
        assert_eq!(
            IncludeParser::parse_includes(&text, "dir/m.sh"),
            includes_with_std(&text, "dir/m.sh"),
            "{:?}",
            text
        );
    }
}
