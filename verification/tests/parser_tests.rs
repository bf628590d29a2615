use needs::error::ValidationError;
use needs::parser::parse_needsfile;

#[test]
fn test_parse_simple() {
    let content = "git\ncargo\nnode";
    let binaries = parse_needsfile(content).unwrap();
    assert_eq!(binaries, vec!["git", "cargo", "node"]);
}

#[test]
fn test_parse_with_comments() {
    let content = "git\n# this is a comment\ncargo # inline comment\nnode";
    let binaries = parse_needsfile(content).unwrap();
    assert_eq!(binaries, vec!["git", "cargo", "node"]);
}

#[test]
fn test_parse_empty_lines() {
    let content = "\n\ngit\n\n\ncargo\n";
    let binaries = parse_needsfile(content).unwrap();
    assert_eq!(binaries, vec!["git", "cargo"]);
}

#[test]
fn test_parse_complex_names() {
    let content = "ripgrep\nfd-find\npython3.9\n_underscore";
    let binaries = parse_needsfile(content).unwrap();
    assert_eq!(binaries, vec!["ripgrep", "fd-find", "python3.9", "_underscore"]);
}

#[test]
fn test_parse_two_names_on_one_line_is_an_error() {
    let result = parse_needsfile("git\nfoo bar\nnode");
    let err = result.unwrap_err();
    assert_eq!(err.code(), "needs::validation::invalid_content");
    match err {
        ValidationError::InvalidContent { token, line, column, .. } => {
            assert_eq!(token, "b");
            assert_eq!(line, 1);
            assert_eq!(column, 4);
        },
    }
}

#[test]
fn test_parse_crlf_and_indentation() {
    let content = "  git\t\r\n\tcargo # tool\r\n";
    let binaries = parse_needsfile(content).unwrap();
    assert_eq!(binaries, vec!["git", "cargo"]);
}
