use format_aliases::alias::Alias;
use format_aliases::parser::{
    parse_alias, parse_between_quotes, parse_name, parse_value, parse_whitespace_separated,
};

fn s(t: &str) -> String {
    t.to_string()
}

fn toks(ts: &[&str]) -> Vec<String> {
    ts.iter().map(|t| t.to_string()).collect()
}

#[test]
fn test_parse_name() {
    assert_eq!(parse_name("alias"), Some((s(""), s("alias"))));
    assert_eq!(parse_name("alias="), Some((s("="), s("alias"))));
    assert_eq!(parse_name("alias foo"), Some((s(""), s("alias foo"))));
    assert_eq!(parse_name("alias foo="), Some((s("="), s("alias foo"))));
}

#[test]
fn test_parse_whitespace_separated() {
    assert_eq!(parse_whitespace_separated("foo"), Some((s(""), toks(&["foo"]))));
    assert_eq!(
        parse_whitespace_separated("foo bar"),
        Some((s(""), toks(&["foo", "bar"])))
    );
    assert_eq!(
        parse_whitespace_separated("foo bar baz"),
        Some((s(""), toks(&["foo", "bar", "baz"])))
    );
}

#[test]
fn test_parse_between_quotes() {
    assert_eq!(
        parse_between_quotes("\"foo bar\""),
        Some((s(""), toks(&["foo", "bar"])))
    );
    assert_eq!(
        parse_between_quotes("'foo bar'"),
        Some((s(""), toks(&["foo", "bar"])))
    );
    assert_eq!(
        parse_between_quotes("\"foo bar\" baz"),
        Some((s(" baz"), toks(&["foo", "bar"])))
    );
    assert_eq!(
        parse_between_quotes("'foo bar' baz"),
        Some((s(" baz"), toks(&["foo", "bar"])))
    );
}

#[test]
fn test_parse_value() {
    assert_eq!(parse_value("foo"), Some((s(""), toks(&["foo"]))));
    assert_eq!(parse_value("foo bar"), Some((s(""), toks(&["foo", "bar"]))));
    assert_eq!(
        parse_value("foo bar baz"),
        Some((s(""), toks(&["foo", "bar", "baz"])))
    );
    assert_eq!(parse_value("\"foo bar\""), Some((s(""), toks(&["foo", "bar"]))));
    assert_eq!(parse_value("'foo bar'"), Some((s(""), toks(&["foo", "bar"]))));
    assert_eq!(
        parse_value("\"foo bar\" baz"),
        Some((s(" baz"), toks(&["foo", "bar"])))
    );
    assert_eq!(
        parse_value("'foo bar' baz"),
        Some((s(" baz"), toks(&["foo", "bar"])))
    );
}

#[test]
fn test_parse_alias() {
    assert_eq!(
        parse_alias("foo='bar=baz'"),
        Some((s(""), Alias::new("foo", toks(&["bar=baz"]))))
    );
    assert_eq!(
        parse_alias("foo=bar=baz"),
        Some((s(""), Alias::new("foo", toks(&["bar=baz"]))))
    );
    assert_eq!(
        parse_alias("foo='bar baz qux'"),
        Some((s(""), Alias::new("foo", toks(&["bar", "baz", "qux"]))))
    );
    assert_eq!(
        parse_alias("foo='bar; baz'"),
        Some((s(""), Alias::new("foo", toks(&["bar;", "baz"]))))
    );
    assert_eq!(
        parse_alias("foo='bar baz qux quux corge'"),
        Some((
            s(""),
            Alias::new("foo", toks(&["bar", "baz", "qux", "quux", "corge"]))
        ))
    );
}

#[test]
fn test_trailing_whitespace() {
    assert_eq!(
        parse_alias("foo=bar   "),
        Some((s("   "), Alias::new("foo", toks(&["bar"]))))
    );
}

#[test]
fn test_parse_real_aliases() {
    assert_eq!(
        parse_alias("vim=nvim"),
        Some((s(""), Alias::new("vim", toks(&["nvim"]))))
    );
    assert_eq!(
        parse_alias("tpath='path --tree'"),
        Some((s(""), Alias::new("tpath", toks(&["path", "--tree"]))))
    );
    assert_eq!(
        parse_alias("tpath=\"path --tree\""),
        Some((s(""), Alias::new("tpath", toks(&["path", "--tree"]))))
    );
    assert_eq!(
        parse_alias("make='colorify make --warn-undefined-variables'"),
        Some((
            s(""),
            Alias::new("make", toks(&["colorify", "make", "--warn-undefined-variables"]))
        ))
    );
    assert_eq!(
        parse_alias("..='cd ..'"),
        Some((s(""), Alias::new("..", toks(&["cd", ".."]))))
    );
    assert_eq!(
        parse_alias("..2='cd ../..'"),
        Some((s(""), Alias::new("..2", toks(&["cd", "../.."]))))
    );
    assert_eq!(
        parse_alias(":q=exit"),
        Some((s(""), Alias::new(":q", toks(&["exit"]))))
    );
}

#[test]
fn rejects_unterminated_quote() {
    assert_eq!(parse_alias("foo='bar"), None);
    assert_eq!(parse_value("'bar"), None);
}

#[test]
fn rejects_empty_value() {
    assert_eq!(parse_alias("foo="), None);
    assert_eq!(parse_alias("foo=''"), None);
    assert_eq!(parse_alias("foo=\"\""), None);
}

#[test]
fn rejects_missing_equals_or_name() {
    assert_eq!(parse_alias("not an alias"), None);
    assert_eq!(parse_alias("=bar"), None);
    assert_eq!(parse_name(""), None);
    assert_eq!(parse_name("=rest"), None);
}

#[test]
fn rejects_space_before_closing_quote() {
    assert_eq!(parse_between_quotes("'foo '"), None);
    assert_eq!(parse_alias("foo='bar '"), None);
}
