use minishell::variables::{expand_all, splice_matches, VarMatch};
use minishell::variables::{drop_empty, expand_vars, var_replacement, VarDecls};

fn decls(pairs: &[(&str, &str)]) -> VarDecls {
    let mut d = VarDecls::new();
    for (k, v) in pairs {
        d.insert(k.to_string(), v.to_string());
    }
    d
}

fn expand(decls: &VarDecls, args: &[&str]) -> Vec<String> {
    let mut tokens: Vec<String> = args.iter().map(|s| s.to_string()).collect();
    expand_vars(decls, &mut tokens).unwrap();
    tokens
}

#[test]
fn simple_var() {
    let d = decls(&[("FOO", "bar")]);
    assert_eq!(expand(&d, &["$FOO"]), vec!["bar"]);
}

#[test]
fn braced_var() {
    let d = decls(&[("FOO", "bar")]);
    assert_eq!(expand(&d, &["${FOO}"]), vec!["bar"]);
}

#[test]
fn var_inline() {
    let d = decls(&[("FOO", "bar")]);
    assert_eq!(expand(&d, &["prefix_$FOO"]), vec!["prefix_bar"]);
}

#[test]
fn undefined_var_removed() {
    let d = decls(&[]);
    assert_eq!(expand(&d, &["$UNDEF"]), Vec::<String>::new());
}

#[test]
fn undefined_var_inline_not_removed() {
    let d = decls(&[]);
    assert_eq!(expand(&d, &["prefix_$UNDEF"]), vec!["prefix_"]);
}

#[test]
fn multiple_vars_in_one_token() {
    let d = decls(&[("A", "hello"), ("B", "world")]);
    assert_eq!(expand(&d, &["$A $B"]), vec!["hello world"]);
}

#[test]
fn unaffected_tokens_preserved() {
    let d = decls(&[("FOO", "bar")]);
    assert_eq!(expand(&d, &["plain", "$FOO"]), vec!["plain", "bar"]);
}

#[test]
fn later_declaration_wins() {
    let d = decls(&[("X", "1"), ("Y", "2"), ("X", "3")]);
    assert_eq!(d.get("X").map(|s| s.as_str()), Some("3"));
    assert_eq!(d.get("Y").map(|s| s.as_str()), Some("2"));
    assert_eq!(d.get("Z"), None);
    assert_eq!(expand(&d, &["$X$Y"]), vec!["32"]);
}

#[test]
fn replacement_prefers_first_group() {
    let d = decls(&[("A", "a"), ("B", "b")]);
    assert_eq!(var_replacement(&d, Some("A"), Some("B")), "a");
    assert_eq!(var_replacement(&d, None, Some("B")), "b");
    assert_eq!(var_replacement(&d, None, None), "");
    assert_eq!(var_replacement(&d, Some("C"), None), "");
}

#[test]
fn empty_tokens_are_dropped_in_order() {
    let t: Vec<String> = vec!["a", "", "b", "", ""].into_iter().map(String::from).collect();
    assert_eq!(drop_empty(t), vec!["a", "b"]);
}

#[test]
fn text_without_references_is_unchanged() {
    let d = decls(&[("FOO", "bar")]);
    assert_eq!(expand(&d, &["a$", "$ b", "{FOO}"]), vec!["a$", "$ b", "{FOO}"]);
}

#[test]
fn expansion_around_non_ascii_text() {
    let d = decls(&[("FOO", "bär")]);
    assert_eq!(expand(&d, &["é$FOO ü${FOO}ß"]), vec!["ébär übärß"]);
}

#[test]
fn tokens_without_dollar_are_kept() {
    let d = decls(&[("FOO", "bar")]);
    assert_eq!(expand(&d, &["naïve", "{FOO}", "a-b"]), vec!["naïve", "{FOO}", "a-b"]);
}

#[test]
fn unclosed_brace_is_plain_reference() {
    let d = decls(&[("FOO", "bar")]);
    assert_eq!(expand(&d, &["${FOO", "$FOO}"]), vec!["${FOO", "bar}"]);
}

#[test]
fn splice_given_matches() {
    let d = decls(&[("A", "1")]);
    let m = |start: usize, end: usize, g1: Option<&str>, g2: Option<&str>| VarMatch {
        start,
        end,
        group1: g1.map(String::from),
        group2: g2.map(String::from),
    };
    let text = "x$A-$B-${A}y";
    let ms = vec![m(1, 3, Some("A"), None), m(4, 6, Some("B"), None), m(7, 11, None, Some("A"))];
    assert_eq!(splice_matches(text, &ms, &d), "x1--1y");
    assert_eq!(splice_matches("é$A", &vec![m(2, 4, Some("A"), None)], &d), "é1");
    assert_eq!(splice_matches("", &vec![], &d), "");
}

#[test]
fn expand_all_drops_empty_results() {
    let d = decls(&[("A", "1")]);
    let tokens: Vec<String> = vec!["$A".to_string(), "$Z".to_string(), "q".to_string()];
    let found = vec![
        vec![VarMatch { start: 0, end: 2, group1: Some("A".to_string()), group2: None }],
        vec![VarMatch { start: 0, end: 2, group1: Some("Z".to_string()), group2: None }],
        vec![],
    ];
    assert_eq!(expand_all(&tokens, &found, &d), vec!["1", "q"]);
}
