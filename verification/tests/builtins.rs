use minishell::builtins::{first_executable, Probe};
use minishell::builtins::{
    builtin_named, builtins, cd_missing, cd_target, choose_action, do_type, echo_text,
    executable_names, is_executable, not_found, Action, Builtin, EntryInfo,
};
use minishell::parse::parse_cmd;
use minishell::redirect::{split_redirect, Stream};
use minishell::text::trim;

#[test]
fn builtin_names_round_trip() {
    for b in builtins() {
        assert_eq!(builtin_named(&b.name()), Some(b));
    }
    assert_eq!(builtin_named("ls"), None);
    assert_eq!(builtin_named("ech"), None);
    assert_eq!(builtin_named(""), None);
    let names: Vec<String> = builtins().iter().map(|b| b.name()).collect();
    assert_eq!(names, vec!["echo", "exit", "type", "pwd", "cd"]);
}

#[test]
fn type_reports() {
    let m = do_type(&[], None);
    assert_eq!((m.stream, m.text.as_str()), (Stream::Stderr, "type: needs argument"));
    let m = do_type(&["echo"], Some("/bin/echo"));
    assert_eq!((m.stream, m.text.as_str()), (Stream::Stdout, "echo is a shell builtin"));
    let m = do_type(&["ls", "x"], Some("/bin/ls"));
    assert_eq!((m.stream, m.text.as_str()), (Stream::Stdout, "ls is /bin/ls"));
    let m = do_type(&["nope"], None);
    assert_eq!((m.stream, m.text.as_str()), (Stream::Stderr, "nope: not found"));
}

#[test]
fn cd_messages() {
    assert_eq!(cd_target(&[], None), Err("cd: needs argument".to_string()));
    assert_eq!(cd_target(&["~/src"], Some("/home/me")), Ok("/home/me/src".to_string()));
    assert_eq!(cd_target(&["a~b~", "x"], Some("H")), Ok("aHbH".to_string()));
    assert_eq!(cd_target(&["/tmp"], Some("/home/me")), Ok("/tmp".to_string()));
    assert_eq!(cd_missing("/nope"), "cd: /nope: No such file or directory");
    assert_eq!(not_found("frob"), "frob: command not found");
}

#[test]
fn echo_joins_with_spaces() {
    assert_eq!(echo_text(&["a", "b  c", "d"]), "a b  c d");
    assert_eq!(echo_text(&[]), "");
    assert_eq!(echo_text(&["", ""]), " ");
}

#[test]
fn actions() {
    assert_eq!(choose_action(&["exit", "0"]), Action::Exit);
    assert_eq!(choose_action(&["echo"]), Action::Echo);
    assert_eq!(choose_action(&["type", "ls"]), Action::Type);
    assert_eq!(choose_action(&["pwd"]), Action::Pwd);
    assert_eq!(choose_action(&["pwd", "-L"]), Action::External);
    assert_eq!(choose_action(&["cd", "/"]), Action::Cd);
    assert_eq!(choose_action(&["ls"]), Action::External);
    assert_eq!(Builtin::Cd.name(), "cd");
}

#[test]
fn command_line_from_input() {
    let line = "  echo hi > out.txt \t";
    let tokens = parse_cmd(trim(line));
    let all: Vec<&str> = tokens.iter().map(|s| s.as_str()).collect();
    let (tail, _redir) = split_redirect(&all[1..]);
    let mut args = vec![all[0]];
    args.extend_from_slice(&tail);
    assert_eq!(args, vec!["echo", "hi"]);
    assert_eq!(choose_action(&args), Action::Echo);
    assert_eq!(echo_text(&args[1..]), "hi");
}

#[test]
fn trim_matches_std() {
    for s in ["  a b  ", "\u{a0}x\u{3000}", "", "   ", "\t\n y \r", "\u{200b}z"] {
        assert_eq!(trim(s), s.trim(), "trim of {:?}", s);
    }
}

#[test]
fn executable_test() {
    assert!(is_executable(true, 0o755));
    assert!(is_executable(true, 0o100));
    assert!(is_executable(true, 0o001));
    assert!(!is_executable(true, 0o644));
    assert!(!is_executable(false, 0o755));
}

#[test]
fn executable_names_sorted_unique() {
    let e = |name: &str, is_file: bool, mode: u32| EntryInfo { name: name.to_string(), is_file, mode };
    let entries = vec![
        e("gzip", true, 0o755),
        e("git", true, 0o755),
        e("gitk", true, 0o644),
        e("gcc", false, 0o755),
        e("git", true, 0o700),
        e("grep", true, 0o555),
        e("ls", true, 0o755),
        e("g", true, 0o111),
    ];
    assert_eq!(executable_names("g", &entries), vec!["g", "git", "grep", "gzip"]);
    assert_eq!(executable_names("", &entries), vec!["g", "git", "grep", "gzip", "ls"]);
    assert!(executable_names("z", &entries).is_empty());
}

#[test]
fn executable_names_order_is_string_order() {
    let e = |name: &str| EntryInfo { name: name.to_string(), is_file: true, mode: 0o755 };
    let entries = vec![e("b"), e("B"), e("ä"), e("a"), e("ab"), e("a-b")];
    let mut expected: Vec<String> = entries.iter().map(|x| x.name.clone()).collect();
    expected.sort();
    expected.dedup();
    assert_eq!(executable_names("", &entries), expected);
}

#[test]
fn first_executable_on_path() {
    let p = |is_file: bool, mode: u32| Probe { is_file, mode };
    assert_eq!(first_executable(&vec![p(false, 0o755), p(true, 0o644), p(true, 0o755), p(true, 0o711)]), Some(2));
    assert_eq!(first_executable(&vec![p(true, 0o644)]), None);
    assert_eq!(first_executable(&vec![]), None);
}
