use nvmux::error::SessionError;
use nvmux::launch::{Launch, DEFAULT, MAX_LEN, PLACEHOLDER};

fn words(line: &str) -> Vec<String> {
    Launch::parse(line)
        .unwrap_or_else(|e| panic!("{line:?} should parse: {}", e.message()))
        .argv_for("/tmp/s.sock")
}

fn reason(line: &str) -> String {
    match Launch::parse(line) {
        Err(SessionError::InvalidCommand { reason, .. }) => reason.to_string(),
        Err(other) => panic!("{line:?}: unexpected error {other:?}"),
        Ok(ok) => panic!("{line:?} should have been refused, got {:?}", ok.line()),
    }
}

#[test]
fn the_default_is_a_valid_command() {
    let l = Launch::parse(DEFAULT).expect("the built-in default must parse");
    assert_eq!(
        l.argv_for("/tmp/nvmux-501/abcdefgh.sock"),
        [
            "nvim",
            "--headless",
            "--listen",
            "/tmp/nvmux-501/abcdefgh.sock"
        ]
    );
}

#[test]
fn splits_on_runs_of_whitespace() {
    assert_eq!(
        words("  nvim   --headless   --listen  {sock}  "),
        ["nvim", "--headless", "--listen", "/tmp/s.sock"]
    );
}

#[test]
fn a_tab_is_a_control_character_not_a_separator() {
    assert!(reason("nvim\t--listen {sock}").contains("control"));
}

#[test]
fn the_line_is_kept_verbatim_apart_from_the_edges() {
    let l = Launch::parse("  nvim  -u 'my init.lua' --listen {sock}  ").expect("parses");
    assert_eq!(l.line(), "nvim  -u 'my init.lua' --listen {sock}");
}

#[test]
fn quoting_keeps_a_path_with_spaces_in_one_word() {
    let want = ["/opt/my nvim/bin/nvim", "--listen", "/tmp/s.sock"];
    assert_eq!(words(r#"'/opt/my nvim/bin/nvim' --listen {sock}"#), want);
    assert_eq!(words(r#""/opt/my nvim/bin/nvim" --listen {sock}"#), want);
    assert_eq!(words(r"/opt/my\ nvim/bin/nvim --listen {sock}"), want);
}

#[test]
fn single_quotes_are_literal() {
    assert_eq!(
        words(r"nvim -c 'let x = \n' {sock}"),
        ["nvim", "-c", r"let x = \n", "/tmp/s.sock"]
    );
}

#[test]
fn double_quotes_escape_only_themselves_and_a_backslash() {
    assert_eq!(
        words(r#"nvim -c "say \"hi\"" {sock}"#),
        ["nvim", "-c", r#"say "hi""#, "/tmp/s.sock"]
    );
    assert_eq!(
        words(r#"nvim -c "a\\b" {sock}"#),
        ["nvim", "-c", r"a\b", "/tmp/s.sock"]
    );
    assert_eq!(
        words(r#"nvim -c "a\nb" {sock}"#),
        ["nvim", "-c", r"a\nb", "/tmp/s.sock"]
    );
}

#[test]
fn adjacent_quoted_and_bare_pieces_are_one_word() {
    assert_eq!(
        words(r#"nvim -u'a b'c --listen {sock}"#),
        ["nvim", "-ua bc", "--listen", "/tmp/s.sock"]
    );
}

#[test]
fn an_empty_quoted_word_survives_as_an_empty_argument() {
    assert_eq!(words("nvim '' {sock}"), ["nvim", "", "/tmp/s.sock"]);
}

#[test]
fn non_ascii_survives_the_split() {
    assert_eq!(
        words("nvim -u ~日本語/init.lua {sock}"),
        ["nvim", "-u", "~日本語/init.lua", "/tmp/s.sock"]
    );
}

#[test]
fn an_unbalanced_quote_is_refused_rather_than_truncated() {
    assert!(reason("nvim -c 'unclosed {sock}").contains("unclosed '"));
    assert!(reason(r#"nvim -c "unclosed {sock}"#).contains("unclosed \""));
    assert!(reason(r"nvim {sock} \").contains("dangling backslash"));
    assert!(reason(r#"nvim {sock} "a\"#).contains("dangling backslash"));
}

#[test]
fn the_socket_placeholder_is_mandatory_and_singular() {
    assert!(reason("nvim --headless").contains("{sock}"));
    assert!(reason("nvim --listen {sock} --listen {sock}").contains("exactly once"));
    Launch::parse("nvim --listen '{sock}'").expect("a quoted placeholder is still one");
}

#[test]
fn the_placeholder_is_replaced_only_where_it_appears() {
    let l = Launch::parse("nvim --listen {sock} --cmd 'set title'").expect("parses");
    assert_eq!(
        l.argv_for("/tmp/x.sock"),
        ["nvim", "--listen", "/tmp/x.sock", "--cmd", "set title"]
    );
}

#[test]
fn the_placeholder_may_be_part_of_a_larger_word() {
    assert_eq!(
        words("nvim --listen={sock}"),
        ["nvim", "--listen=/tmp/s.sock"]
    );
}

#[test]
fn a_leading_assignment_is_refused_with_the_remedy() {
    let r = reason("NVIM_APPNAME=work nvim --listen {sock}");
    assert!(r.contains("env "), "{r}");
    Launch::parse("env NVIM_APPNAME=work nvim --listen {sock}").expect("env is the way");
    Launch::parse("nvim --cmd let\\ x=1 --listen {sock}").expect("not the first word");
    Launch::parse("./=weird --listen {sock}").expect("not an assignment shape");
    Launch::parse("1FOO=x --listen {sock}").expect("no shell name starts with a digit");
}

#[test]
fn an_empty_command_is_refused() {
    for line in ["", "   ", "\t"] {
        assert!(reason(line).contains("empty"), "{line:?}");
    }
}

#[test]
fn a_command_that_would_corrupt_the_display_is_refused() {
    assert!(reason("nvim\x1b[31m {sock}").contains("control"));
    assert!(reason("nvim\u{202E} {sock}").contains("control"));
}

#[test]
fn an_absurdly_long_command_is_refused() {
    let long = format!("nvim {} {}", "x".repeat(MAX_LEN), PLACEHOLDER);
    assert!(reason(&long).contains("512 bytes"));
    let ok = format!("nvim {} {}", "x".repeat(MAX_LEN - 20), PLACEHOLDER);
    Launch::parse(&ok).expect("just inside the cap");
}

#[test]
fn nothing_is_expanded() {
    assert_eq!(
        words("nvim -u ~/init.lua {sock}"),
        ["nvim", "-u", "~/init.lua", "/tmp/s.sock"]
    );
    assert_eq!(
        words("nvim -u $HOME/init.lua {sock}"),
        ["nvim", "-u", "$HOME/init.lua", "/tmp/s.sock"]
    );
    assert_eq!(
        words("nvim -u *.lua {sock}"),
        ["nvim", "-u", "*.lua", "/tmp/s.sock"]
    );
    assert_eq!(
        words("nvim {sock} ; rm -rf /"),
        ["nvim", "/tmp/s.sock", ";", "rm", "-rf", "/"]
    );
}

#[test]
fn an_accepted_line_parses_back_to_itself() {
    let line = r#"env A=1 nvim -c "say \"hi\"" --listen={sock}"#;
    let one = Launch::parse(line).expect("parses");
    let two = Launch::parse(one.line()).expect("parses again");
    assert_eq!(one.argv_for("/s"), two.argv_for("/s"));
    assert_eq!(
        two.argv_for("/s"),
        ["env", "A=1", "nvim", "-c", "say \"hi\"", "--listen=/s"]
    );
}

#[test]
fn a_refused_command_carries_what_was_typed() {
    match Launch::parse(" nvim ") {
        Err(SessionError::InvalidCommand { command, reason }) => {
            assert_eq!(command, "nvim");
            assert!(reason.contains("{sock}"), "{reason}");
        }
        _ => panic!("refused as a command"),
    }
}
