use minishell::redirect::{
    redirect_op, split_redirect, OutDest, RedirOp, Redirects, StdioPlan, Stream, WriteTarget,
};

fn file(d: &OutDest) -> Option<(bool, String)> {
    match d {
        OutDest::File { append, path } => Some((*append, path.clone())),
        _ => None,
    }
}

#[test]
fn none_inherits_both() {
    let r = Redirects::none();
    assert!(matches!(r.stdout, OutDest::Inherit));
    assert!(matches!(r.stderr, OutDest::Inherit));
}

#[test]
fn operators_are_classified() {
    assert_eq!(redirect_op(">"), RedirOp::Stdout(false));
    assert_eq!(redirect_op("1>"), RedirOp::Stdout(false));
    assert_eq!(redirect_op(">>"), RedirOp::Stdout(true));
    assert_eq!(redirect_op("1>>"), RedirOp::Stdout(true));
    assert_eq!(redirect_op("2>"), RedirOp::Stderr(false));
    assert_eq!(redirect_op("2>>"), RedirOp::Stderr(true));
    assert_eq!(redirect_op("&>"), RedirOp::Both(false));
    assert_eq!(redirect_op("&>>"), RedirOp::Both(true));
    assert_eq!(redirect_op("2>&1"), RedirOp::ErrToOut);
    assert_eq!(redirect_op("1>&2"), RedirOp::OutToErr);
    assert_eq!(redirect_op(">&2"), RedirOp::OutToErr);
    assert_eq!(redirect_op(">>>"), RedirOp::Plain);
    assert_eq!(redirect_op("x>"), RedirOp::Plain);
    assert_eq!(redirect_op(""), RedirOp::Plain);
}

#[test]
fn plain_arguments_pass_through() {
    let (args, r) = split_redirect(&["a", "b", "c"]);
    assert_eq!(args, vec!["a", "b", "c"]);
    assert!(matches!(r.stdout, OutDest::Inherit));
    assert!(matches!(r.stderr, OutDest::Inherit));
}

#[test]
fn stdout_to_file() {
    let (args, r) = split_redirect(&["hello", ">", "out.txt", "world"]);
    assert_eq!(args, vec!["hello", "world"]);
    assert_eq!(file(&r.stdout), Some((false, "out.txt".to_string())));
    assert!(matches!(r.stderr, OutDest::Inherit));
}

#[test]
fn append_stderr_and_join() {
    let (args, r) = split_redirect(&["x", "2>>", "err.log", "1>&2"]);
    assert_eq!(args, vec!["x"]);
    assert!(matches!(r.stdout, OutDest::SameAs(Stream::Stderr)));
    assert_eq!(file(&r.stderr), Some((true, "err.log".to_string())));
}

#[test]
fn both_to_file() {
    let (args, r) = split_redirect(&["&>>", "all.log", "y"]);
    assert_eq!(args, vec!["y"]);
    assert_eq!(file(&r.stdout), Some((true, "all.log".to_string())));
    assert!(matches!(r.stderr, OutDest::SameAs(Stream::Stdout)));
}

#[test]
fn missing_target_is_empty_name() {
    let (args, r) = split_redirect(&["a", ">"]);
    assert_eq!(args, vec!["a"]);
    assert_eq!(file(&r.stdout), Some((false, String::new())));
}

#[test]
fn later_redirection_wins() {
    let (_, r) = split_redirect(&[">", "one", ">>", "two", "2>&1"]);
    assert_eq!(file(&r.stdout), Some((true, "two".to_string())));
    assert!(matches!(r.stderr, OutDest::SameAs(Stream::Stdout)));
}

#[test]
fn builtin_targets() {
    let (_, r) = split_redirect(&[">", "o", "2>&1"]);
    match (r.stdout_target(), r.stderr_target()) {
        (WriteTarget::File(a), WriteTarget::File(b)) => {
            assert_eq!((a.append, a.path.as_str()), (false, "o"));
            assert_eq!((b.append, b.path.as_str()), (false, "o"));
        }
        other => panic!("unexpected {:?}", other),
    }
    let (_, r) = split_redirect(&["1>&2", "2>", "e"]);
    assert!(matches!(r.stdout_target(), WriteTarget::Stderr));
    assert!(matches!(r.stderr_target(), WriteTarget::File(_)));
    let r = Redirects::none();
    assert!(matches!(r.stdout_target(), WriteTarget::Stdout));
    assert!(matches!(r.stderr_target(), WriteTarget::Stderr));
    let (_, r) = split_redirect(&[">&2", "2>&1"]);
    assert!(matches!(r.stdout_target(), WriteTarget::Stderr));
    assert!(matches!(r.stderr_target(), WriteTarget::Stdout));
}

#[test]
fn child_plans() {
    let (_, r) = split_redirect(&[">&2", "2>&1"]);
    assert!(matches!(r.stdio_plan(), StdioPlan::Inherit));
    let (_, r) = split_redirect(&["&>", "log"]);
    match r.stdio_plan() {
        StdioPlan::Shared(f) => assert_eq!((f.append, f.path.as_str()), (false, "log")),
        other => panic!("unexpected {:?}", other),
    }
    let (_, r) = split_redirect(&["2>", "e", "1>&2"]);
    match r.stdio_plan() {
        StdioPlan::Shared(f) => assert_eq!(f.path, "e"),
        other => panic!("unexpected {:?}", other),
    }
    let (_, r) = split_redirect(&["2>&1"]);
    assert!(matches!(r.stdio_plan(), StdioPlan::Inherit));
    let (_, r) = split_redirect(&[">", "o", "2>>", "e"]);
    match r.stdio_plan() {
        StdioPlan::Separate(Some(o), Some(e)) => {
            assert_eq!((o.append, o.path.as_str()), (false, "o"));
            assert_eq!((e.append, e.path.as_str()), (true, "e"));
        }
        other => panic!("unexpected {:?}", other),
    }
    let r = Redirects::none();
    assert!(matches!(r.stdio_plan(), StdioPlan::Separate(None, None)));
}
