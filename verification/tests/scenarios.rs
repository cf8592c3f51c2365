use format_aliases::driver::run_format;
use format_aliases::init::function_text;

fn lines(ls: &[&str]) -> Vec<String> {
    ls.iter().map(|l| l.to_string()).collect()
}

#[test]
fn single_bare() {
    let (out, err) = run_format(&lines(&["vim=nvim"]), false);
    assert_eq!(out, vec!["[general]", "  vim='nvim'", ""]);
    assert!(err.is_empty());
}

#[test]
fn double_quoted() {
    let (out, err) = run_format(&lines(&["tpath=\"path --tree\""]), false);
    assert_eq!(out, vec!["[general]", "  tpath='path --tree'", ""]);
    assert!(err.is_empty());
}

#[test]
fn grouping() {
    let (out, err) = run_format(&lines(&["..2='cd ../..'", "vim=nvim", "..='cd ..'"]), false);
    assert_eq!(
        out,
        vec![
            "[cd]",
            "  ..='cd ..'",
            "  ..2='cd ../..'",
            "",
            "[general]",
            "  vim='nvim'",
            "",
        ]
    );
    assert!(err.is_empty());
}

#[test]
fn embedded_equals_inside_quotes() {
    let (out, err) = run_format(&lines(&["foo='bar=baz'"]), false);
    assert_eq!(out, vec!["[general]", "  foo='bar=baz'", ""]);
    assert!(err.is_empty());
}

#[test]
fn embedded_equals_outside_quotes() {
    let (out, err) = run_format(&lines(&["foo=bar=baz"]), false);
    assert_eq!(out, vec!["[general]", "  foo='bar=baz'", ""]);
    assert!(err.is_empty());
}

#[test]
fn unparsable() {
    let (out, err) = run_format(&lines(&["not an alias"]), false);
    assert_eq!(out, vec!["[unparsable]"]);
    assert_eq!(err, vec!["  not an alias"]);
}

#[test]
fn punctuation_names() {
    let (out, err) = run_format(&lines(&[":q=exit", "..='cd ..'"]), false);
    assert_eq!(
        out,
        vec!["[general]", "  ..='cd ..'", "  :q='exit'", ""]
    );
    assert!(err.is_empty());
}

#[test]
fn multi_groups_sorted_by_command() {
    let (out, err) = run_format(
        &lines(&["a='ls -a'", "d='cd y'", "b='ls -b'", "c='cd x'"]),
        false,
    );
    assert_eq!(
        out,
        vec![
            "[cd]",
            "  c='cd x'",
            "  d='cd y'",
            "",
            "[ls]",
            "  a='ls -a'",
            "  b='ls -b'",
            "",
        ]
    );
    assert!(err.is_empty());
}

#[test]
fn blank_lines_and_padding_are_skipped() {
    let (out, err) = run_format(&lines(&["", "   ", "  vim=nvim  ", "\t"]), false);
    assert_eq!(out, vec!["[general]", "  vim='nvim'", ""]);
    assert!(err.is_empty());
}

#[test]
fn every_nonempty_line_lands_somewhere() {
    let (out, err) = run_format(
        &lines(&["vim=nvim", "broken line", "x='cd a'", "y='cd b'", ""]),
        false,
    );
    let entry_count = out.iter().filter(|l| l.starts_with("  ")).count();
    assert_eq!(entry_count + err.len(), 4);
    assert_eq!(err, vec!["  broken line"]);
}

#[test]
fn color_wraps_names_and_headers() {
    let (out, err) = run_format(&lines(&["vim=nvim", "oops"]), true);
    assert_eq!(
        out,
        vec![
            "[\u{1b}[33mgeneral\u{1b}[0m]",
            "  \u{1b}[32mvim\u{1b}[0m='nvim'",
            "",
            "[\u{1b}[90munparsable\u{1b}[0m]",
        ]
    );
    assert_eq!(err, vec!["  oops"]);
}

#[test]
fn no_color_means_no_escapes() {
    let (out, err) = run_format(
        &lines(&["vim=nvim", "..='cd ..'", "..2='cd ../..'", "what is this"]),
        false,
    );
    for l in out.iter().chain(err.iter()) {
        assert!(!l.contains('\u{1b}'));
    }
}

#[test]
fn init_supported_shells() {
    for shell in ["sh", "bash", "zsh"] {
        let text = function_text(shell).unwrap();
        assert!(text.starts_with("alias() {\n"));
        assert!(text.contains("builtin alias | format-aliases"));
        assert!(text.contains("builtin alias ${@}"));
        assert!(text.ends_with("}\n"));
    }
}

#[test]
fn init_unsupported_shell() {
    let err = function_text("fish").unwrap_err();
    assert_eq!(err.message(), "Unsupported shell");
    assert!(function_text("").is_err());
}

#[test]
fn duplicate_definitions_are_kept() {
    let (out, err) = run_format(&lines(&["vim=nvim", "vim=nvim"]), false);
    assert_eq!(out, vec!["[nvim]", "  vim='nvim'", "  vim='nvim'", ""]);
    assert!(err.is_empty());
}
