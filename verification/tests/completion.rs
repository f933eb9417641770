use minishell::complete::{next_source, CandidateSource};
use minishell::builtins::builtins;
use minishell::complete::{
    candidates_from_output, command_candidates, completion_context, finish_file_candidates,
    Candidate,
};

/// Completes a command name at the end of `line`, with `executables` as
/// the executables found on the search path for the word being completed.
fn complete_with(line: &str, executables: &[&str]) -> Vec<Candidate> {
    let ctx = completion_context(line, line.len());
    assert_eq!(ctx.word_start, 0);
    let found: Vec<String> = executables.iter().map(|s| s.to_string()).collect();
    command_candidates(&line[..line.len()], &found)
}

fn replacements(line: &str) -> Vec<String> {
    complete_with(line, &[]).into_iter().map(|p| p.replacement).collect()
}

#[test]
fn empty_prefix_includes_all_builtins() {
    let r = replacements("");
    for builtin in builtins() {
        let name = builtin.name();
        assert!(r.contains(&format!("{} ", name)), "missing builtin: {}", name);
    }
}

#[test]
fn builtin_prefix_includes_builtin() {
    assert!(replacements("ec").contains(&"echo ".to_string()));
    assert!(replacements("pw").contains(&"pwd ".to_string()));
    assert!(replacements("cd").contains(&"cd ".to_string()));
}

#[test]
fn ambiguous_builtin_prefix_includes_all_matches() {
    let r = replacements("e");
    assert!(r.contains(&"echo ".to_string()));
    assert!(r.contains(&"exit ".to_string()));
}

#[test]
fn exact_match_still_appends_space() {
    assert!(replacements("echo").contains(&"echo ".to_string()));
}

#[test]
fn no_match_returns_empty() {
    assert!(replacements("thisprefixdoesnotexist__").is_empty());
}

#[test]
fn builtins_not_duplicated_when_also_in_path() {
    let r: Vec<String> =
        complete_with("echo", &["echo"]).into_iter().map(|p| p.replacement).collect();
    assert_eq!(r.iter().filter(|s| s.as_str() == "echo ").count(), 1);
}

#[test]
fn start_position_is_zero_on_match() {
    let ctx = completion_context("ec", 2);
    assert_eq!(ctx.word_start, 0);
}

#[test]
fn builtins_come_first_then_executables_once() {
    let c = complete_with("e", &["ed", "echo", "env", "ed"]);
    let shown: Vec<(String, String)> =
        c.into_iter().map(|p| (p.display, p.replacement)).collect();
    assert_eq!(
        shown,
        vec![
            ("echo".to_string(), "echo ".to_string()),
            ("exit".to_string(), "exit ".to_string()),
            ("ed".to_string(), "ed ".to_string()),
            ("env".to_string(), "env ".to_string()),
        ]
    );
}

#[test]
fn context_of_second_word() {
    let line = "git  checkout ma";
    let ctx = completion_context(line, line.len());
    assert_eq!(&line[ctx.word_start..], "ma");
    assert_eq!(&line[ctx.cmd_start..ctx.cmd_end], "git");
    assert_eq!(&line[ctx.prev_start..ctx.prev_end], "checkout");
}

#[test]
fn context_with_cursor_after_space() {
    let line = "  ls ";
    let ctx = completion_context(line, line.len());
    assert_eq!(ctx.word_start, 5);
    assert_eq!(&line[ctx.cmd_start..ctx.cmd_end], "ls");
    assert_eq!(&line[ctx.prev_start..ctx.prev_end], "ls");
}

#[test]
fn context_of_blank_line() {
    let ctx = completion_context("   ", 3);
    assert_eq!(ctx.word_start, 3);
    assert_eq!(ctx.cmd_start, 3);
    assert_eq!(ctx.cmd_end, 3);
    assert_eq!((ctx.prev_start, ctx.prev_end), (2, 2));
}

#[test]
fn file_candidates_get_slash_or_space() {
    let c = finish_file_candidates(vec![
        Candidate { display: "dir".to_string(), replacement: "dir/".to_string() },
        Candidate { display: "file".to_string(), replacement: "file".to_string() },
        Candidate { display: "done".to_string(), replacement: "done ".to_string() },
    ]);
    let shown: Vec<(String, String)> =
        c.into_iter().map(|p| (p.display, p.replacement)).collect();
    assert_eq!(
        shown,
        vec![
            ("dir/".to_string(), "dir/".to_string()),
            ("file".to_string(), "file ".to_string()),
            ("done".to_string(), "done ".to_string()),
        ]
    );
}

#[test]
fn external_output_lines_become_candidates() {
    let c = candidates_from_output("alpha\r\nbeta\n\ngamma");
    let shown: Vec<(String, String)> =
        c.into_iter().map(|p| (p.display, p.replacement)).collect();
    assert_eq!(
        shown,
        vec![
            ("alpha".to_string(), "alpha ".to_string()),
            ("beta".to_string(), "beta ".to_string()),
            ("".to_string(), " ".to_string()),
            ("gamma".to_string(), "gamma ".to_string()),
        ]
    );
    assert!(candidates_from_output("").is_empty());
    assert_eq!(candidates_from_output("one\n").len(), 1);
}

#[test]
fn external_lines_match_str_lines() {
    for text in ["a\nb\n", "x\r\ny", "\n\n", "tail\r", "solo", "a\rb\n"] {
        let ours: Vec<String> = candidates_from_output(text).into_iter().map(|c| c.display).collect();
        let std_lines: Vec<String> = text.lines().map(|l| l.to_string()).collect();
        assert_eq!(ours, std_lines, "lines of {:?}", text);
    }
}

#[test]
fn candidate_sources() {
    assert_eq!(next_source(0, true, false), CandidateSource::CommandNames);
    assert_eq!(next_source(3, true, false), CandidateSource::External);
    assert_eq!(next_source(3, true, true), CandidateSource::Files);
    assert_eq!(next_source(3, false, false), CandidateSource::Files);
}
