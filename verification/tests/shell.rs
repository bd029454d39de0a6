use rze_core::shell::shell_quote;

#[test]
fn shell_quote_passes_simple_paths() {
    assert_eq!(shell_quote("/tmp/ok"), "/tmp/ok");
    assert_eq!(shell_quote("/tmp/ok.txt"), "/tmp/ok.txt");
}

#[test]
fn shell_quote_quotes_spaces() {
    assert_eq!(shell_quote("/tmp/has space"), "\"/tmp/has space\"");
}

#[test]
fn shell_quote_escapes_double_quotes() {
    assert_eq!(shell_quote("/tmp/a\"b"), "\"/tmp/a\\\"b\"");
}

#[test]
fn shell_quote_quotes_tabs_and_line_feeds() {
    assert_eq!(shell_quote("a\tb"), "\"a\tb\"");
    assert_eq!(shell_quote("a\nb"), "\"a\nb\"");
    assert_eq!(shell_quote(""), "");
    assert_eq!(shell_quote("caf\u{e9} \"x\""), "\"caf\u{e9} \\\"x\\\"\"");
}
