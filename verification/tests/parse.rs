use minishell::parse::parse_cmd;
use minishell::pipeline::split_pipeline;

#[test]
fn no_squotes() {
    let result = parse_cmd("hello");
    assert_eq!(result[0], "hello");
}

#[test]
fn empty_squotes() {
    let result = parse_cmd("''hello");
    assert_eq!(result[0], "hello");
}

#[test]
fn simple_squotes() {
    let result = parse_cmd("'hello'    'bau'");
    assert_eq!(result[0], "hello");
    assert_eq!(result[1], "bau");
}

#[test]
fn concat_squotes() {
    let result = parse_cmd("first 'hello''bau' 'cucu'");
    assert_eq!(result[0], "first");
    assert_eq!(result[1], "hellobau");
    assert_eq!(result[2], "cucu");
}

#[test]
fn multi_squotes_inside() {
    let result = parse_cmd("'hello''''bau'");
    assert_eq!(result[0], "hellobau");
}

#[test]
fn multi_squotes_outside() {
    let result = parse_cmd("hello''''bau");
    assert_eq!(result[0], "hellobau");
}

#[test]
fn multi_squotes2() {
    let result = parse_cmd("echo 'shell     test' 'hello''example' script''world");
    assert_eq!(result[0], "echo");
    assert_eq!(result[1], "shell     test");
    assert_eq!(result[2], "helloexample");
    assert_eq!(result[3], "scriptworld");
}

#[test]
fn preserve_space() {
    let result = parse_cmd("'hello    world'");
    assert_eq!(result[0], "hello    world");
}

#[test]
fn simple_dquote() {
    let result = parse_cmd(r#""hello    world""#);
    assert_eq!(result[0], "hello    world");
}

#[test]
fn multi1_dquoe() {
    let result = parse_cmd(r#""hello" 'bau'   "world""#);
    assert_eq!(result[0], "hello");
    assert_eq!(result[1], "bau");
    assert_eq!(result[2], "world");
}

#[test]
fn multi2_dquoe() {
    let result = parse_cmd(r#""hello""world""#);
    assert_eq!(result[0], "helloworld");
}

#[test]
fn combined_dquoe() {
    let result = parse_cmd(r#""hell's kitchen""#);
    assert_eq!(result[0], "hell's kitchen");
}

#[test]
fn combined2_dquoe() {
    let result = parse_cmd(r#""'inside'""#);
    assert_eq!(result[0], r#"'inside'"#);
}

#[test]
fn escape() {
    let result = parse_cmd(r#"\'\"literal quotes\"\'"#);
    assert_eq!(result[0], r#"'"literal"#);
    assert_eq!(result[1], r#"quotes"'"#);
}

#[test]
fn backslash_in_squote() {
    let result = parse_cmd("'shell\\\nscript'");
    assert_eq!(result[0], "shell\\\nscript");
}

#[test]
fn backslash_in_dquote() {
    let result = parse_cmd(r#""just'one'\\n'backslash""#);
    assert_eq!(result[0], r#"just'one'\n'backslash"#);
}

#[test]
fn empty_and_blank_lines_have_no_tokens() {
    assert!(parse_cmd("").is_empty());
    assert!(parse_cmd(" \t  ").is_empty());
    assert!(parse_cmd("''").is_empty());
}

#[test]
fn plain_words_split_on_whitespace() {
    assert_eq!(parse_cmd("  ls   -l\t/tmp  "), vec!["ls", "-l", "/tmp"]);
}

#[test]
fn no_token_is_empty() {
    for line in ["a '' b", "\"\" x", "| |", "a  &  b", "'' \"\" ''"] {
        for tok in parse_cmd(line) {
            assert!(!tok.is_empty(), "empty token in {:?}", line);
        }
    }
}

#[test]
fn pipe_is_a_token_of_its_own() {
    assert_eq!(parse_cmd("ls|wc -l"), vec!["ls", "|", "wc", "-l"]);
    assert_eq!(parse_cmd("echo 'a|b'"), vec!["echo", "a|b"]);
}

#[test]
fn ampersand_forms() {
    assert_eq!(parse_cmd("cmd 2>&1"), vec!["cmd", "2>&1"]);
    assert_eq!(parse_cmd("cmd >&2"), vec!["cmd", ">&2"]);
    assert_eq!(parse_cmd("cmd &>out"), vec!["cmd", "&>", "out"]);
    assert_eq!(parse_cmd("cmd&>>out"), vec!["cmd", "&>>", "out"]);
    assert_eq!(parse_cmd("a & b"), vec!["a", "&", "b"]);
    assert_eq!(parse_cmd("a&"), vec!["a", "&"]);
}

#[test]
fn trailing_backslash_is_dropped() {
    assert_eq!(parse_cmd("abc\\"), vec!["abc"]);
}

#[test]
fn escaped_space_joins_words() {
    assert_eq!(parse_cmd("a\\ b"), vec!["a b"]);
    assert_eq!(parse_cmd("\\x"), vec!["x"]);
}

#[test]
fn backslash_in_dquote_keeps_other_escapes() {
    assert_eq!(parse_cmd(r#""a\nb""#), vec![r"a\nb"]);
    assert_eq!(parse_cmd(r#""a\"b""#), vec![r#"a"b"#]);
    assert_eq!(parse_cmd(r#""a\$b""#), vec!["a$b"]);
}

#[test]
fn single_quoted_text_is_literal() {
    assert_eq!(parse_cmd(r#"'a "b" \c | & d'"#), vec![r#"a "b" \c | & d"#]);
}

#[test]
fn double_quoted_text_is_literal() {
    assert_eq!(parse_cmd(r#""a 'b' | & d""#), vec!["a 'b' | & d"]);
}

#[test]
fn non_ascii_text() {
    assert_eq!(parse_cmd("héllo wörld"), vec!["héllo", "wörld"]);
}

#[test]
fn split_pipeline_segments() {
    let toks = parse_cmd("cat f | grep x | wc -l");
    let segs = split_pipeline(toks);
    assert_eq!(segs, vec![vec!["cat", "f"], vec!["grep", "x"], vec!["wc", "-l"]]);
}

#[test]
fn split_pipeline_edges() {
    let s = |v: &[&str]| v.iter().map(|x| x.to_string()).collect::<Vec<String>>();
    assert_eq!(split_pipeline(vec![]), vec![Vec::<String>::new()]);
    assert_eq!(split_pipeline(s(&["|"])), vec![Vec::<String>::new(), Vec::new()]);
    assert_eq!(split_pipeline(s(&["a", "|", "|", "b"])), vec![s(&["a"]), vec![], s(&["b"])]);
    assert_eq!(split_pipeline(s(&["a", "b"])), vec![s(&["a", "b"])]);
}

#[test]
fn split_pipeline_joins_back() {
    let toks: Vec<String> = vec!["a", "|", "b", "c", "|"].into_iter().map(String::from).collect();
    let segs = split_pipeline(toks.clone());
    let joined: Vec<String> = segs.join(&"|".to_string());
    assert_eq!(joined, toks);
    assert_eq!(segs.len(), 3);
}
