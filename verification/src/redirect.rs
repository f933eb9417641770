//! Output redirections: where a command's standard output and standard
//! error go, how they are read off its arguments, and which files have to
//! be opened for them.

use vstd::prelude::*;

use crate::text::{chars_of, str_views};

verus! {

/// One of the two output streams of a command.
#[derive(Debug, Clone, Copy, PartialEq, Eq, Structural)]
pub enum Stream {
    Stdout,
    Stderr,
}

/// Where an output stream goes.
#[derive(Debug)]
pub enum OutDest {
    /// Where the shell's own stream goes.
    Inherit,
    /// To a file, appended to or truncated.
    File { append: bool, path: String },
    /// Wherever the other stream goes.
    SameAs(Stream),
}

/// The redirections of a command.
#[derive(Debug)]
pub struct Redirects {
    pub stdout: OutDest,
    pub stderr: OutDest,
}

/// The mathematical value of an [`OutDest`].
pub enum Dest {
    Inherit,
    File(bool, Seq<char>),
    SameAs(Stream),
}

/// The mathematical value of a [`Redirects`].
pub struct RedirectsView {
    pub stdout: Dest,
    pub stderr: Dest,
}

impl View for OutDest {
    type V = Dest;

    open spec fn view(&self) -> Dest {
        match self {
            OutDest::Inherit => Dest::Inherit,
            OutDest::File { append, path } => Dest::File(*append, path@),
            OutDest::SameAs(s) => Dest::SameAs(*s),
        }
    }
}

impl View for Redirects {
    type V = RedirectsView;

    open spec fn view(&self) -> RedirectsView {
        RedirectsView { stdout: self.stdout@, stderr: self.stderr@ }
    }
}

/// No redirection at all.
pub open spec fn no_redirects() -> RedirectsView {
    RedirectsView { stdout: Dest::Inherit, stderr: Dest::Inherit }
}

impl Redirects {
    /// Both streams go where the shell's own streams go.
    pub fn none() -> (r: Self)
        ensures
            r@ == no_redirects(),
    {
        Redirects { stdout: OutDest::Inherit, stderr: OutDest::Inherit }
    }
}

/// What an argument means to the redirection parser.
#[derive(Debug, Clone, Copy, PartialEq, Eq, Structural)]
pub enum RedirOp {
    /// `>`, `1>` (truncate) or `>>`, `1>>` (append): stdout to the next argument.
    Stdout(bool),
    /// `2>` or `2>>`: stderr to the next argument.
    Stderr(bool),
    /// `&>` or `&>>`: both streams to the next argument.
    Both(bool),
    /// `2>&1`: stderr joins stdout.
    ErrToOut,
    /// `1>&2` or `>&2`: stdout joins stderr.
    OutToErr,
    /// An ordinary argument.
    Plain,
}

/// The meaning of the argument `a`.
pub open spec fn op_of(a: Seq<char>) -> RedirOp {
    if a == seq!['>'] || a == seq!['1', '>'] {
        RedirOp::Stdout(false)
    } else if a == seq!['>', '>'] || a == seq!['1', '>', '>'] {
        RedirOp::Stdout(true)
    } else if a == seq!['2', '>'] {
        RedirOp::Stderr(false)
    } else if a == seq!['2', '>', '>'] {
        RedirOp::Stderr(true)
    } else if a == seq!['&', '>'] {
        RedirOp::Both(false)
    } else if a == seq!['&', '>', '>'] {
        RedirOp::Both(true)
    } else if a == seq!['2', '>', '&', '1'] {
        RedirOp::ErrToOut
    } else if a == seq!['1', '>', '&', '2'] || a == seq!['>', '&', '2'] {
        RedirOp::OutToErr
    } else {
        RedirOp::Plain
    }
}

/// Classifies one argument.
pub fn redirect_op(arg: &str) -> (op: RedirOp)
    ensures
        op == op_of(arg@),
{
    let c = chars_of(arg);
    let n = c.len();
    let ghost s = c@;
    if n == 1 && c[0] == '>' {
        assert(s =~= seq!['>']);
        RedirOp::Stdout(false)
    } else if n == 2 && c[0] == '1' && c[1] == '>' {
        assert(s =~= seq!['1', '>']);
        RedirOp::Stdout(false)
    } else if n == 2 && c[0] == '>' && c[1] == '>' {
        assert(s =~= seq!['>', '>']);
        RedirOp::Stdout(true)
    } else if n == 3 && c[0] == '1' && c[1] == '>' && c[2] == '>' {
        assert(s =~= seq!['1', '>', '>']);
        RedirOp::Stdout(true)
    } else if n == 2 && c[0] == '2' && c[1] == '>' {
        assert(s =~= seq!['2', '>']);
        RedirOp::Stderr(false)
    } else if n == 3 && c[0] == '2' && c[1] == '>' && c[2] == '>' {
        assert(s =~= seq!['2', '>', '>']);
        RedirOp::Stderr(true)
    } else if n == 2 && c[0] == '&' && c[1] == '>' {
        assert(s =~= seq!['&', '>']);
        RedirOp::Both(false)
    } else if n == 3 && c[0] == '&' && c[1] == '>' && c[2] == '>' {
        assert(s =~= seq!['&', '>', '>']);
        RedirOp::Both(true)
    } else if n == 4 && c[0] == '2' && c[1] == '>' && c[2] == '&' && c[3] == '1' {
        assert(s =~= seq!['2', '>', '&', '1']);
        RedirOp::ErrToOut
    } else if n == 4 && c[0] == '1' && c[1] == '>' && c[2] == '&' && c[3] == '2' {
        assert(s =~= seq!['1', '>', '&', '2']);
        RedirOp::OutToErr
    } else if n == 3 && c[0] == '>' && c[1] == '&' && c[2] == '2' {
        assert(s =~= seq!['>', '&', '2']);
        RedirOp::OutToErr
    } else {
        assert(s != seq!['>']);
        assert(s != seq!['1', '>']);
        assert(s != seq!['>', '>']);
        assert(s != seq!['1', '>', '>']);
        assert(s != seq!['2', '>']);
        assert(s != seq!['2', '>', '>']);
        assert(s != seq!['&', '>']);
        assert(s != seq!['&', '>', '>']);
        assert(s != seq!['2', '>', '&', '1']);
        assert(s != seq!['1', '>', '&', '2']);
        assert(s != seq!['>', '&', '2']);
        RedirOp::Plain
    }
}

/// The argument after position `i`, or the empty string past the end.
pub open spec fn target_after(args: Seq<Seq<char>>, i: int) -> Seq<char> {
    if i + 1 < args.len() {
        args[i + 1]
    } else {
        Seq::empty()
    }
}

/// The position after an operator at `i` and its file name.
pub open spec fn past_target(args: Seq<Seq<char>>, i: int) -> int {
    if i + 1 < args.len() {
        i + 2
    } else {
        args.len() as int
    }
}

/// Reads the arguments from position `i` on, given the arguments kept so
/// far and the redirections seen so far: the kept arguments and the
/// redirections at the end.  An operator that takes a file name takes the
/// argument after it (the empty name when there is none); a later
/// redirection of a stream replaces an earlier one.
pub open spec fn redirect_scan(
    args: Seq<Seq<char>>,
    i: int,
    kept: Seq<Seq<char>>,
    r: RedirectsView,
) -> (Seq<Seq<char>>, RedirectsView)
    decreases args.len() - i,
{
    if i < 0 || i >= args.len() {
        (kept, r)
    } else {
        match op_of(args[i]) {
            RedirOp::Stdout(app) => redirect_scan(
                args,
                past_target(args, i),
                kept,
                RedirectsView { stdout: Dest::File(app, target_after(args, i)), ..r },
            ),
            RedirOp::Stderr(app) => redirect_scan(
                args,
                past_target(args, i),
                kept,
                RedirectsView { stderr: Dest::File(app, target_after(args, i)), ..r },
            ),
            RedirOp::Both(app) => redirect_scan(
                args,
                past_target(args, i),
                kept,
                RedirectsView {
                    stdout: Dest::File(app, target_after(args, i)),
                    stderr: Dest::SameAs(Stream::Stdout),
                },
            ),
            RedirOp::ErrToOut => redirect_scan(
                args,
                i + 1,
                kept,
                RedirectsView { stderr: Dest::SameAs(Stream::Stdout), ..r },
            ),
            RedirOp::OutToErr => redirect_scan(
                args,
                i + 1,
                kept,
                RedirectsView { stdout: Dest::SameAs(Stream::Stderr), ..r },
            ),
            RedirOp::Plain => redirect_scan(args, i + 1, kept.push(args[i]), r),
        }
    }
}

/// The arguments that are not redirections, and the redirections, of `args`.
pub open spec fn redirects_of(args: Seq<Seq<char>>) -> (Seq<Seq<char>>, RedirectsView) {
    redirect_scan(args, 0, Seq::empty(), no_redirects())
}

/// Arguments without redirection operators pass through the scan unchanged.
proof fn lemma_scan_plain(args: Seq<Seq<char>>, i: int, r: RedirectsView)
    requires
        0 <= i <= args.len(),
        forall|j: int| 0 <= j < args.len() ==> op_of(#[trigger] args[j]) == RedirOp::Plain,
    ensures
        redirect_scan(args, i, args.take(i), r) == (args, r),
    decreases args.len() - i,
{
    if i < args.len() {
        assert(op_of(args[i]) == RedirOp::Plain);
        assert(args.take(i).push(args[i]) =~= args.take(i + 1));
        lemma_scan_plain(args, i + 1, r);
    } else {
        assert(args.take(i) =~= args);
    }
}

/// A command line without redirection operators keeps all its arguments
/// and has no redirections.
pub proof fn lemma_no_operators(args: Seq<Seq<char>>)
    requires
        forall|j: int| 0 <= j < args.len() ==> op_of(#[trigger] args[j]) == RedirOp::Plain,
    ensures
        redirects_of(args) == (args, no_redirects()),
{
    assert(args.take(0) =~= Seq::<Seq<char>>::empty());
    lemma_scan_plain(args, 0, no_redirects());
}

/// The result of reading the operator `op` followed by the file name `p`.
pub open spec fn read_pair(op: Seq<char>, p: Seq<char>) -> (Seq<Seq<char>>, RedirectsView) {
    redirects_of(seq![op, p])
}

/// Each file operator sends its stream to the file named after it: the
/// `>>` forms append, the others truncate; `&>` and `&>>` send standard
/// error along with standard output; the other stream stays the shell's
/// own, and neither the operator nor the name is an argument.
pub proof fn lemma_file_redirections(p: Seq<char>)
    ensures
        read_pair(seq!['>'], p) == (Seq::<Seq<char>>::empty(), RedirectsView {
            stdout: Dest::File(false, p),
            stderr: Dest::Inherit,
        }),
        read_pair(seq!['1', '>'], p) == (Seq::<Seq<char>>::empty(), RedirectsView {
            stdout: Dest::File(false, p),
            stderr: Dest::Inherit,
        }),
        read_pair(seq!['>', '>'], p) == (Seq::<Seq<char>>::empty(), RedirectsView {
            stdout: Dest::File(true, p),
            stderr: Dest::Inherit,
        }),
        read_pair(seq!['1', '>', '>'], p) == (Seq::<Seq<char>>::empty(), RedirectsView {
            stdout: Dest::File(true, p),
            stderr: Dest::Inherit,
        }),
        read_pair(seq!['2', '>'], p) == (Seq::<Seq<char>>::empty(), RedirectsView {
            stdout: Dest::Inherit,
            stderr: Dest::File(false, p),
        }),
        read_pair(seq!['2', '>', '>'], p) == (Seq::<Seq<char>>::empty(), RedirectsView {
            stdout: Dest::Inherit,
            stderr: Dest::File(true, p),
        }),
        read_pair(seq!['&', '>'], p) == (Seq::<Seq<char>>::empty(), RedirectsView {
            stdout: Dest::File(false, p),
            stderr: Dest::SameAs(Stream::Stdout),
        }),
        read_pair(seq!['&', '>', '>'], p) == (Seq::<Seq<char>>::empty(), RedirectsView {
            stdout: Dest::File(true, p),
            stderr: Dest::SameAs(Stream::Stdout),
        }),
{
    lemma_op_literals();
    lemma_read_pair(seq!['>'], p);
    lemma_read_pair(seq!['1', '>'], p);
    lemma_read_pair(seq!['>', '>'], p);
    lemma_read_pair(seq!['1', '>', '>'], p);
    lemma_read_pair(seq!['2', '>'], p);
    lemma_read_pair(seq!['2', '>', '>'], p);
    lemma_read_pair(seq!['&', '>'], p);
    lemma_read_pair(seq!['&', '>', '>'], p);
}

/// Reading an operator that takes a file name, followed by that name.
proof fn lemma_read_pair(op: Seq<char>, p: Seq<char>)
    ensures
        op_of(op) matches RedirOp::Stdout(a) ==> read_pair(op, p) == (Seq::<Seq<char>>::empty(),
        RedirectsView { stdout: Dest::File(a, p), stderr: Dest::Inherit }),
        op_of(op) matches RedirOp::Stderr(a) ==> read_pair(op, p) == (Seq::<Seq<char>>::empty(),
        RedirectsView { stdout: Dest::Inherit, stderr: Dest::File(a, p) }),
        op_of(op) matches RedirOp::Both(a) ==> read_pair(op, p) == (Seq::<Seq<char>>::empty(),
        RedirectsView { stdout: Dest::File(a, p), stderr: Dest::SameAs(Stream::Stdout) }),
{
    let args = seq![op, p];
    assert(args.len() == 2 && args[0] == op && args[1] == p);
    assert(target_after(args, 0) == p);
    assert(past_target(args, 0) == 2);
    let e = Seq::<Seq<char>>::empty();
    let r1 = RedirectsView { stdout: Dest::File(true, p), stderr: Dest::Inherit };
    let r2 = RedirectsView { stdout: Dest::File(false, p), stderr: Dest::Inherit };
    let r3 = RedirectsView { stdout: Dest::Inherit, stderr: Dest::File(true, p) };
    let r4 = RedirectsView { stdout: Dest::Inherit, stderr: Dest::File(false, p) };
    let r5 = RedirectsView { stdout: Dest::File(true, p), stderr: Dest::SameAs(Stream::Stdout) };
    let r6 = RedirectsView { stdout: Dest::File(false, p), stderr: Dest::SameAs(Stream::Stdout) };
    assert(redirect_scan(args, 2, e, r1) == (e, r1));
    assert(redirect_scan(args, 2, e, r2) == (e, r2));
    assert(redirect_scan(args, 2, e, r3) == (e, r3));
    assert(redirect_scan(args, 2, e, r4) == (e, r4));
    assert(redirect_scan(args, 2, e, r5) == (e, r5));
    assert(redirect_scan(args, 2, e, r6) == (e, r6));
}

/// The joining operators join one stream to the other and leave the other
/// as it is.
pub proof fn lemma_join_redirections()
    ensures
        redirects_of(seq![seq!['2', '>', '&', '1']]) == (Seq::<Seq<char>>::empty(), RedirectsView {
            stdout: Dest::Inherit,
            stderr: Dest::SameAs(Stream::Stdout),
        }),
        redirects_of(seq![seq!['1', '>', '&', '2']]) == (Seq::<Seq<char>>::empty(), RedirectsView {
            stdout: Dest::SameAs(Stream::Stderr),
            stderr: Dest::Inherit,
        }),
        redirects_of(seq![seq!['>', '&', '2']]) == (Seq::<Seq<char>>::empty(), RedirectsView {
            stdout: Dest::SameAs(Stream::Stderr),
            stderr: Dest::Inherit,
        }),
{
    lemma_op_literals();
    lemma_read_join(seq!['2', '>', '&', '1']);
    lemma_read_join(seq!['1', '>', '&', '2']);
    lemma_read_join(seq!['>', '&', '2']);
}

/// Reading a joining operator alone.
proof fn lemma_read_join(op: Seq<char>)
    ensures
        op_of(op) == RedirOp::ErrToOut ==> redirects_of(seq![op]) == (Seq::<Seq<char>>::empty(),
        RedirectsView { stdout: Dest::Inherit, stderr: Dest::SameAs(Stream::Stdout) }),
        op_of(op) == RedirOp::OutToErr ==> redirects_of(seq![op]) == (Seq::<Seq<char>>::empty(),
        RedirectsView { stdout: Dest::SameAs(Stream::Stderr), stderr: Dest::Inherit }),
{
    let args = seq![op];
    assert(args.len() == 1 && args[0] == op);
    let e = Seq::<Seq<char>>::empty();
    let r1 = RedirectsView { stdout: Dest::Inherit, stderr: Dest::SameAs(Stream::Stdout) };
    let r2 = RedirectsView { stdout: Dest::SameAs(Stream::Stderr), stderr: Dest::Inherit };
    assert(redirect_scan(args, 1, e, r1) == (e, r1));
    assert(redirect_scan(args, 1, e, r2) == (e, r2));
}

/// How each operator is read.
proof fn lemma_op_literals()
    ensures
        op_of(seq!['>']) == RedirOp::Stdout(false),
        op_of(seq!['1', '>']) == RedirOp::Stdout(false),
        op_of(seq!['>', '>']) == RedirOp::Stdout(true),
        op_of(seq!['1', '>', '>']) == RedirOp::Stdout(true),
        op_of(seq!['2', '>']) == RedirOp::Stderr(false),
        op_of(seq!['2', '>', '>']) == RedirOp::Stderr(true),
        op_of(seq!['&', '>']) == RedirOp::Both(false),
        op_of(seq!['&', '>', '>']) == RedirOp::Both(true),
        op_of(seq!['2', '>', '&', '1']) == RedirOp::ErrToOut,
        op_of(seq!['1', '>', '&', '2']) == RedirOp::OutToErr,
        op_of(seq!['>', '&', '2']) == RedirOp::OutToErr,
{
    assert(seq!['>'].len() != seq!['1', '>'].len());
    assert(seq!['>'].len() != seq!['>', '>'].len());
    assert(seq!['>'].len() != seq!['1', '>', '>'].len());
    assert(seq!['>'].len() != seq!['2', '>'].len());
    assert(seq!['>'].len() != seq!['2', '>', '>'].len());
    assert(seq!['>'].len() != seq!['&', '>'].len());
    assert(seq!['>'].len() != seq!['&', '>', '>'].len());
    assert(seq!['>'].len() != seq!['2', '>', '&', '1'].len());
    assert(seq!['>'].len() != seq!['1', '>', '&', '2'].len());
    assert(seq!['>'].len() != seq!['>', '&', '2'].len());
    assert(seq!['1', '>'][0] != seq!['>', '>'][0]);
    assert(seq!['1', '>'].len() != seq!['1', '>', '>'].len());
    assert(seq!['1', '>'][0] != seq!['2', '>'][0]);
    assert(seq!['1', '>'].len() != seq!['2', '>', '>'].len());
    assert(seq!['1', '>'][0] != seq!['&', '>'][0]);
    assert(seq!['1', '>'].len() != seq!['&', '>', '>'].len());
    assert(seq!['1', '>'].len() != seq!['2', '>', '&', '1'].len());
    assert(seq!['1', '>'].len() != seq!['1', '>', '&', '2'].len());
    assert(seq!['1', '>'].len() != seq!['>', '&', '2'].len());
    assert(seq!['>', '>'].len() != seq!['1', '>', '>'].len());
    assert(seq!['>', '>'][0] != seq!['2', '>'][0]);
    assert(seq!['>', '>'].len() != seq!['2', '>', '>'].len());
    assert(seq!['>', '>'][0] != seq!['&', '>'][0]);
    assert(seq!['>', '>'].len() != seq!['&', '>', '>'].len());
    assert(seq!['>', '>'].len() != seq!['2', '>', '&', '1'].len());
    assert(seq!['>', '>'].len() != seq!['1', '>', '&', '2'].len());
    assert(seq!['>', '>'].len() != seq!['>', '&', '2'].len());
    assert(seq!['1', '>', '>'].len() != seq!['2', '>'].len());
    assert(seq!['1', '>', '>'][0] != seq!['2', '>', '>'][0]);
    assert(seq!['1', '>', '>'].len() != seq!['&', '>'].len());
    assert(seq!['1', '>', '>'][0] != seq!['&', '>', '>'][0]);
    assert(seq!['1', '>', '>'].len() != seq!['2', '>', '&', '1'].len());
    assert(seq!['1', '>', '>'].len() != seq!['1', '>', '&', '2'].len());
    assert(seq!['1', '>', '>'][0] != seq!['>', '&', '2'][0]);
    assert(seq!['2', '>'].len() != seq!['2', '>', '>'].len());
    assert(seq!['2', '>'][0] != seq!['&', '>'][0]);
    assert(seq!['2', '>'].len() != seq!['&', '>', '>'].len());
    assert(seq!['2', '>'].len() != seq!['2', '>', '&', '1'].len());
    assert(seq!['2', '>'].len() != seq!['1', '>', '&', '2'].len());
    assert(seq!['2', '>'].len() != seq!['>', '&', '2'].len());
    assert(seq!['2', '>', '>'].len() != seq!['&', '>'].len());
    assert(seq!['2', '>', '>'][0] != seq!['&', '>', '>'][0]);
    assert(seq!['2', '>', '>'].len() != seq!['2', '>', '&', '1'].len());
    assert(seq!['2', '>', '>'].len() != seq!['1', '>', '&', '2'].len());
    assert(seq!['2', '>', '>'][0] != seq!['>', '&', '2'][0]);
    assert(seq!['&', '>'].len() != seq!['&', '>', '>'].len());
    assert(seq!['&', '>'].len() != seq!['2', '>', '&', '1'].len());
    assert(seq!['&', '>'].len() != seq!['1', '>', '&', '2'].len());
    assert(seq!['&', '>'].len() != seq!['>', '&', '2'].len());
    assert(seq!['&', '>', '>'].len() != seq!['2', '>', '&', '1'].len());
    assert(seq!['&', '>', '>'].len() != seq!['1', '>', '&', '2'].len());
    assert(seq!['&', '>', '>'][0] != seq!['>', '&', '2'][0]);
    assert(seq!['2', '>', '&', '1'][0] != seq!['1', '>', '&', '2'][0]);
    assert(seq!['2', '>', '&', '1'].len() != seq!['>', '&', '2'].len());
    assert(seq!['1', '>', '&', '2'].len() != seq!['>', '&', '2'].len());
}

/// The file name for an operator at position `i`.
fn target_at(args: &[&str], i: usize) -> (path: String)
    requires
        i < args.len(),
    ensures
        path@ == target_after(str_views(args@), i as int),
{
    if i + 1 < args.len() {
        args[i + 1].to_owned()
    } else {
        String::new()
    }
}

/// Separates the redirections in `args` from the command's own arguments.
pub fn split_redirect<'a>(args: &[&'a str]) -> (res: (Vec<&'a str>, Redirects))
    ensures
        (str_views(res.0@), res.1@) == redirects_of(str_views(args@)),
{
    let ghost a = str_views(args@);
    let mut cmd_args: Vec<&'a str> = Vec::new();
    let mut redir = Redirects::none();
    let mut i: usize = 0;
    assert(str_views(cmd_args@) =~= Seq::<Seq<char>>::empty());
    while i < args.len()
        invariant
            a == str_views(args@),
            redirect_scan(a, i as int, str_views(cmd_args@), redir@) == redirects_of(a),
        decreases args.len() - i,
    {
        let ghost before = redirect_scan(a, i as int, str_views(cmd_args@), redir@);
        let op = redirect_op(args[i]);
        match op {
            RedirOp::Stdout(append) => {
                let path = target_at(args, i);
                redir.stdout = OutDest::File { append, path };
                i = if i + 1 < args.len() { i + 2 } else { args.len() };
            },
            RedirOp::Stderr(append) => {
                let path = target_at(args, i);
                redir.stderr = OutDest::File { append, path };
                i = if i + 1 < args.len() { i + 2 } else { args.len() };
            },
            RedirOp::Both(append) => {
                let path = target_at(args, i);
                redir.stdout = OutDest::File { append, path };
                redir.stderr = OutDest::SameAs(Stream::Stdout);
                i = if i + 1 < args.len() { i + 2 } else { args.len() };
            },
            RedirOp::ErrToOut => {
                redir.stderr = OutDest::SameAs(Stream::Stdout);
                i += 1;
            },
            RedirOp::OutToErr => {
                redir.stdout = OutDest::SameAs(Stream::Stderr);
                i += 1;
            },
            RedirOp::Plain => {
                let ghost kept = cmd_args@;
                cmd_args.push(args[i]);
                assert(str_views(cmd_args@) =~= str_views(kept).push(a[i as int]));
                i += 1;
            },
        }
        assert(redirect_scan(a, i as int, str_views(cmd_args@), redir@) == before);
    }
    (cmd_args, redir)
}

/// A file to open for output.
#[derive(Debug)]
pub struct FileSpec {
    /// Append to the file rather than truncate it.
    pub append: bool,
    pub path: String,
}

impl View for FileSpec {
    type V = (bool, Seq<char>);

    open spec fn view(&self) -> (bool, Seq<char>) {
        (self.append, self.path@)
    }
}

/// The file that a destination names, if it names one.
pub open spec fn file_of(d: Dest) -> Option<(bool, Seq<char>)> {
    match d {
        Dest::File(append, path) => Some((append, path)),
        _ => None,
    }
}

/// The views of an optional file.
pub open spec fn opt_file_view(f: Option<FileSpec>) -> Option<(bool, Seq<char>)> {
    match f {
        Some(f) => Some(f@),
        None => None,
    }
}

impl OutDest {
    /// The file to open for this destination, if it is a file.
    pub fn file_spec(&self) -> (f: Option<FileSpec>)
        ensures
            opt_file_view(f) == file_of(self@),
    {
        match self {
            OutDest::File { append, path } => Some(FileSpec { append: *append, path: path.clone() }),
            _ => None,
        }
    }
}

/// Where the shell writes one output stream of a builtin command.
#[derive(Debug)]
pub enum WriteTarget {
    Stdout,
    Stderr,
    File(FileSpec),
}

/// The mathematical value of a [`WriteTarget`].
pub enum Target {
    Stdout,
    Stderr,
    File(bool, Seq<char>),
}

impl View for WriteTarget {
    type V = Target;

    open spec fn view(&self) -> Target {
        match self {
            WriteTarget::Stdout => Target::Stdout,
            WriteTarget::Stderr => Target::Stderr,
            WriteTarget::File(f) => Target::File(f.append, f.path@),
        }
    }
}

/// Where a builtin's standard output goes: to the shell's standard error
/// when redirected to it, to the named file, or else to standard output.
pub open spec fn stdout_target_of(r: RedirectsView) -> Target {
    match r.stdout {
        Dest::SameAs(Stream::Stderr) => Target::Stderr,
        Dest::File(append, path) => Target::File(append, path),
        _ => Target::Stdout,
    }
}

/// Where a builtin's standard error goes: when it joins standard output,
/// to the file standard output names or else to standard output; otherwise
/// to the file it names or else to standard error.
pub open spec fn stderr_target_of(r: RedirectsView) -> Target {
    match r.stderr {
        Dest::SameAs(Stream::Stdout) => match r.stdout {
            Dest::File(append, path) => Target::File(append, path),
            _ => Target::Stdout,
        },
        Dest::File(append, path) => Target::File(append, path),
        _ => Target::Stderr,
    }
}

/// The files and streams that a child process gets for its output.
#[derive(Debug)]
pub enum StdioPlan {
    /// Both streams are the shell's own.
    Inherit,
    /// One file, opened once, receives both streams.
    Shared(FileSpec),
    /// Standard output and standard error each go to their file, or to the
    /// shell's own stream where there is none; standard output is opened first.
    Separate(Option<FileSpec>, Option<FileSpec>),
}

/// The mathematical value of a [`StdioPlan`].
pub enum PlanView {
    Inherit,
    Shared(bool, Seq<char>),
    Separate(Option<(bool, Seq<char>)>, Option<(bool, Seq<char>)>),
}

impl View for StdioPlan {
    type V = PlanView;

    open spec fn view(&self) -> PlanView {
        match self {
            StdioPlan::Inherit => PlanView::Inherit,
            StdioPlan::Shared(f) => PlanView::Shared(f.append, f.path@),
            StdioPlan::Separate(o, e) => PlanView::Separate(opt_file_view(*o), opt_file_view(*e)),
        }
    }
}

/// A shared file, or the shell's streams when there is no file.
pub open spec fn shared_plan(f: Option<(bool, Seq<char>)>) -> PlanView {
    match f {
        Some((append, path)) => PlanView::Shared(append, path),
        None => PlanView::Inherit,
    }
}

/// The output plan for a child process.  When each stream is sent to the
/// other, both stay the shell's own; when one stream joins the other, the
/// other's file (if any) is opened once for both; otherwise each stream
/// gets its own file, if it names one.
pub open spec fn stdio_plan_of(r: RedirectsView) -> PlanView {
    match (r.stdout, r.stderr) {
        (Dest::SameAs(Stream::Stderr), Dest::SameAs(Stream::Stdout)) => PlanView::Inherit,
        (Dest::SameAs(Stream::Stderr), _) => shared_plan(file_of(r.stderr)),
        (_, Dest::SameAs(Stream::Stdout)) => shared_plan(file_of(r.stdout)),
        _ => PlanView::Separate(file_of(r.stdout), file_of(r.stderr)),
    }
}

/// When standard error joins standard output (and standard output does
/// not in turn join standard error), a builtin writes both to the same
/// place.
pub proof fn lemma_err_follows_out(r: RedirectsView)
    requires
        r.stderr == Dest::SameAs(Stream::Stdout),
        r.stdout != Dest::SameAs(Stream::Stderr),
    ensures
        stderr_target_of(r) == stdout_target_of(r),
{
}

/// When standard error joins standard output, a child process gets the
/// same file for both, or both of the shell's streams.
pub proof fn lemma_err_follows_out_child(r: RedirectsView)
    requires
        r.stderr == Dest::SameAs(Stream::Stdout),
    ensures
        stdio_plan_of(r) is Inherit || stdio_plan_of(r) is Shared,
{
}

/// A stream that is not redirected keeps the shell's own stream for a
/// child process, and a stream sent to a file gets that file, alone, as
/// long as the other stream is not joined to it.
pub proof fn lemma_child_streams(r: RedirectsView)
    ensures
        r.stderr == Dest::Inherit && r.stdout != Dest::SameAs(Stream::Stderr) ==> stdio_plan_of(r)
            == PlanView::Separate(
            match r.stdout {
                Dest::File(a, p) => Some((a, p)),
                _ => None,
            },
            None,
        ),
        r.stdout == Dest::Inherit && r.stderr != Dest::SameAs(Stream::Stdout) ==> stdio_plan_of(r)
            == PlanView::Separate(
            None,
            match r.stderr {
                Dest::File(a, p) => Some((a, p)),
                _ => None,
            },
        ),
        forall|a: bool, p: Seq<char>, b: bool, q: Seq<char>|
            r.stdout == Dest::File(a, p) && r.stderr == Dest::File(b, q) ==> stdio_plan_of(r)
                == PlanView::Separate(Some((a, p)), Some((b, q))),
{
}

/// A builtin writes a stream that is not redirected to the shell's own
/// stream, and a stream sent to a file to that file; standard error goes
/// elsewhere only when it is joined to standard output.
pub proof fn lemma_builtin_streams(r: RedirectsView)
    ensures
        r.stdout == Dest::Inherit ==> stdout_target_of(r) == Target::Stdout,
        r.stderr == Dest::Inherit ==> stderr_target_of(r) == Target::Stderr,
        r.stdout == Dest::SameAs(Stream::Stderr) ==> stdout_target_of(r) == Target::Stderr,
        forall|a: bool, p: Seq<char>|
            r.stdout == Dest::File(a, p) ==> stdout_target_of(r) == Target::File(a, p),
        forall|a: bool, p: Seq<char>|
            r.stderr == Dest::File(a, p) ==> stderr_target_of(r) == Target::File(a, p),
        r.stderr != Dest::SameAs(Stream::Stdout) && stderr_target_of(r) != Target::Stderr ==> (
        r.stderr is File),
{
}

impl Redirects {
    /// Where a builtin writes its standard output.
    pub fn stdout_target(&self) -> (t: WriteTarget)
        ensures
            t@ == stdout_target_of(self@),
    {
        match &self.stdout {
            OutDest::SameAs(Stream::Stderr) => WriteTarget::Stderr,
            _ => match self.stdout.file_spec() {
                Some(f) => WriteTarget::File(f),
                None => WriteTarget::Stdout,
            },
        }
    }

    /// Where a builtin writes its standard error.
    pub fn stderr_target(&self) -> (t: WriteTarget)
        ensures
            t@ == stderr_target_of(self@),
    {
        match &self.stderr {
            OutDest::SameAs(Stream::Stdout) => match self.stdout.file_spec() {
                Some(f) => WriteTarget::File(f),
                None => WriteTarget::Stdout,
            },
            _ => match self.stderr.file_spec() {
                Some(f) => WriteTarget::File(f),
                None => WriteTarget::Stderr,
            },
        }
    }

    /// Which files a child process gets for its output.
    pub fn stdio_plan(&self) -> (p: StdioPlan)
        ensures
            p@ == stdio_plan_of(self@),
    {
        match (&self.stdout, &self.stderr) {
            (OutDest::SameAs(Stream::Stderr), OutDest::SameAs(Stream::Stdout)) => StdioPlan::Inherit,
            (OutDest::SameAs(Stream::Stderr), _) => match self.stderr.file_spec() {
                Some(f) => StdioPlan::Shared(f),
                None => StdioPlan::Inherit,
            },
            (_, OutDest::SameAs(Stream::Stdout)) => match self.stdout.file_spec() {
                Some(f) => StdioPlan::Shared(f),
                None => StdioPlan::Inherit,
            },
            _ => StdioPlan::Separate(self.stdout.file_spec(), self.stderr.file_spec()),
        }
    }
}

} // verus!
