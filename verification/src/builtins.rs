//! The shell's builtin commands and the decisions the shell makes about a
//! command line before it runs anything.

use vstd::prelude::*;

use crate::order::{insert_sorted, strictly_sorted};
use crate::redirect::Stream;
use crate::text::{
    chars_eq, chars_of, join_with, replace_all_char, replace_char, starts_with, str_views,
    string_of, views,
};

verus! {

/// The builtin commands.
#[derive(Debug, Clone, Copy, PartialEq, Eq, Structural)]
pub enum Builtin {
    Echo,
    Exit,
    Type,
    Pwd,
    Cd,
}

/// The name of a builtin.
pub open spec fn builtin_name(b: Builtin) -> Seq<char> {
    match b {
        Builtin::Echo => seq!['e', 'c', 'h', 'o'],
        Builtin::Exit => seq!['e', 'x', 'i', 't'],
        Builtin::Type => seq!['t', 'y', 'p', 'e'],
        Builtin::Pwd => seq!['p', 'w', 'd'],
        Builtin::Cd => seq!['c', 'd'],
    }
}

/// The builtins, in the order in which completion offers them.
pub open spec fn builtin_list() -> Seq<Builtin> {
    seq![Builtin::Echo, Builtin::Exit, Builtin::Type, Builtin::Pwd, Builtin::Cd]
}

/// The builtin called `s`, if there is one.
pub open spec fn builtin_of(s: Seq<char>) -> Option<Builtin> {
    if s == builtin_name(Builtin::Echo) {
        Some(Builtin::Echo)
    } else if s == builtin_name(Builtin::Exit) {
        Some(Builtin::Exit)
    } else if s == builtin_name(Builtin::Type) {
        Some(Builtin::Type)
    } else if s == builtin_name(Builtin::Pwd) {
        Some(Builtin::Pwd)
    } else if s == builtin_name(Builtin::Cd) {
        Some(Builtin::Cd)
    } else {
        None
    }
}

impl Builtin {
    /// The builtin's name.
    pub fn name(&self) -> (res: String)
        ensures
            res@ == builtin_name(*self),
    {
        let cs = match self {
            Builtin::Echo => vec!['e', 'c', 'h', 'o'],
            Builtin::Exit => vec!['e', 'x', 'i', 't'],
            Builtin::Type => vec!['t', 'y', 'p', 'e'],
            Builtin::Pwd => vec!['p', 'w', 'd'],
            Builtin::Cd => vec!['c', 'd'],
        };
        let res = string_of(&cs);
        assert(res@ =~= builtin_name(*self));
        res
    }
}

/// The builtins, in the order in which completion offers them.
pub fn builtins() -> (res: Vec<Builtin>)
    ensures
        res@ == builtin_list(),
{
    let res = vec![Builtin::Echo, Builtin::Exit, Builtin::Type, Builtin::Pwd, Builtin::Cd];
    assert(res@ =~= builtin_list());
    res
}

/// The builtin called `name`, if there is one.
pub fn builtin_named(name: &str) -> (res: Option<Builtin>)
    ensures
        res == builtin_of(name@),
{
    let cs = chars_of(name);
    let list = builtins();
    let mut i: usize = 0;
    while i < list.len()
        invariant
            list@ == builtin_list(),
            cs@ == name@,
            i <= list.len(),
            forall|k: int| 0 <= k < i ==> cs@ != builtin_name(#[trigger] list@[k]),
        decreases list.len() - i,
    {
        let b = list[i];
        let n = chars_of(b.name().as_str());
        if chars_eq(&cs, &n) {
            return Some(b);
        }
        i += 1;
    }
    assert(cs@ != builtin_name(list@[0]));
    assert(cs@ != builtin_name(list@[1]));
    assert(cs@ != builtin_name(list@[2]));
    assert(cs@ != builtin_name(list@[3]));
    assert(cs@ != builtin_name(list@[4]));
    None
}

/// A line of output for one of the shell's streams, without its newline.
#[derive(Debug)]
pub struct Message {
    pub stream: Stream,
    pub text: String,
}

/// The first argument, if there is one.
pub open spec fn first_arg(args: Seq<&str>) -> Option<Seq<char>> {
    if args.len() > 0 {
        Some(args[0]@)
    } else {
        None
    }
}

/// The view of an optional string slice.
pub open spec fn opt_view(o: Option<&str>) -> Option<Seq<char>> {
    match o {
        Some(s) => Some(s@),
        None => None,
    }
}

/// What `type` prints for the command `cmd`, where `found` is the
/// executable found for it on the search path: a complaint when there is
/// no command, the builtin notice for a builtin, the executable's path when
/// one was found, and "not found" otherwise.
pub open spec fn type_report(cmd: Option<Seq<char>>, found: Option<Seq<char>>) -> (Stream, Seq<char>) {
    match cmd {
        None => (Stream::Stderr, "type: needs argument"@),
        Some(c) => if builtin_of(c) is Some {
            (Stream::Stdout, c + " is a shell builtin"@)
        } else {
            match found {
                Some(p) => (Stream::Stdout, c + " is "@ + p),
                None => (Stream::Stderr, c + ": not found"@),
            }
        },
    }
}

/// What `type` prints for `args`, where `found` is the executable found on
/// the search path for the first argument, if any.  Only the first
/// argument counts.
pub fn do_type(args: &[&str], found: Option<&str>) -> (m: Message)
    ensures
        (m.stream, m.text@) == type_report(first_arg(args@), opt_view(found)),
{
    if args.len() == 0 {
        return Message { stream: Stream::Stderr, text: String::from_str("type: needs argument") };
    }
    let cmd = args[0];
    let mut text = String::from_str(cmd);
    if builtin_named(cmd).is_some() {
        text.append(" is a shell builtin");
        return Message { stream: Stream::Stdout, text };
    }
    match found {
        Some(path) => {
            text.append(" is ");
            text.append(path);
            Message { stream: Stream::Stdout, text }
        },
        None => {
            text.append(": not found");
            Message { stream: Stream::Stderr, text }
        },
    }
}

/// `type` reports on its first argument alone: any further arguments
/// change nothing.
pub proof fn lemma_type_first_only(args: Seq<&str>, found: Option<Seq<char>>)
    requires
        args.len() >= 1,
    ensures
        type_report(first_arg(args), found) == type_report(first_arg(args.take(1)), found),
{
}

/// The directory that `cd` changes to, with every `~` replaced by the home
/// directory, or the complaint when there is no argument.
pub fn cd_target(args: &[&str], home: Option<&str>) -> (r: Result<String, String>)
    requires
        args.len() > 0 ==> home is Some,
    ensures
        args.len() == 0 ==> r is Err && r->Err_0@ == "cd: needs argument"@,
        args.len() > 0 ==> r is Ok && r->Ok_0@ == replace_char(args[0]@, '~', home.unwrap()@),
{
    if args.len() == 0 {
        return Err(String::from_str("cd: needs argument"));
    }
    Ok(replace_all_char(args[0], '~', home.unwrap()))
}

/// What `cd` prints when the directory does not exist.
pub fn cd_missing(path: &str) -> (res: String)
    ensures
        res@ == "cd: "@ + path@ + ": No such file or directory"@,
{
    let mut res = String::from_str("cd: ");
    res.append(path);
    res.append(": No such file or directory");
    res
}

/// What the shell prints for a command it cannot find.
pub fn not_found(cmd: &str) -> (res: String)
    ensures
        res@ == cmd@ + ": command not found"@,
{
    let mut res = String::from_str(cmd);
    res.append(": command not found");
    res
}

/// What `echo` prints: its arguments separated by single spaces.
pub fn echo_text(args: &[&str]) -> (res: String)
    ensures
        res@ == join_with(str_views(args@), seq![' ']),
{
    crate::text::join_words(args)
}

/// What the shell does with a command.
#[derive(Debug, Clone, Copy, PartialEq, Eq, Structural)]
pub enum Action {
    Exit,
    Echo,
    Type,
    Pwd,
    Cd,
    /// Look the command up on the search path and run it.
    External,
}

/// What the shell does with the command `args`: a builtin runs as such,
/// except `pwd` with arguments, which is looked up like any other command.
pub open spec fn action_of(args: Seq<Seq<char>>) -> Action {
    match builtin_of(args[0]) {
        Some(Builtin::Exit) => Action::Exit,
        Some(Builtin::Echo) => Action::Echo,
        Some(Builtin::Type) => Action::Type,
        Some(Builtin::Pwd) => if args.len() == 1 {
            Action::Pwd
        } else {
            Action::External
        },
        Some(Builtin::Cd) => Action::Cd,
        None => Action::External,
    }
}

/// Each builtin name runs its builtin, whatever the arguments, except
/// `pwd` with arguments, which is looked up on the search path like any
/// other command; every other name is looked up too.
pub proof fn lemma_actions(args: Seq<Seq<char>>)
    requires
        args.len() > 0,
    ensures
        args[0] == seq!['e', 'x', 'i', 't'] ==> action_of(args) == Action::Exit,
        args[0] == seq!['e', 'c', 'h', 'o'] ==> action_of(args) == Action::Echo,
        args[0] == seq!['t', 'y', 'p', 'e'] ==> action_of(args) == Action::Type,
        args[0] == seq!['c', 'd'] ==> action_of(args) == Action::Cd,
        args[0] == seq!['p', 'w', 'd'] && args.len() == 1 ==> action_of(args) == Action::Pwd,
        args[0] == seq!['p', 'w', 'd'] && args.len() > 1 ==> action_of(args) == Action::External,
        args[0] != seq!['e', 'x', 'i', 't'] && args[0] != seq!['e', 'c', 'h', 'o'] && args[0]
            != seq!['t', 'y', 'p', 'e'] && args[0] != seq!['c', 'd'] && args[0] != seq!['p', 'w', 'd']
            ==> action_of(args) == Action::External,
{
    let e = seq!['e', 'c', 'h', 'o'];
    let x = seq!['e', 'x', 'i', 't'];
    let t = seq!['t', 'y', 'p', 'e'];
    let p = seq!['p', 'w', 'd'];
    let c = seq!['c', 'd'];
    assert(e[1] != x[1]);
    assert(e[0] != t[0]);
    assert(x[0] != t[0]);
    assert(e.len() != p.len() && e.len() != c.len() && x.len() != p.len() && x.len() != c.len());
    assert(t.len() != p.len() && t.len() != c.len() && p.len() != c.len());
}

/// Decides what the shell does with the command `args`.
pub fn choose_action(args: &[&str]) -> (a: Action)
    requires
        args.len() > 0,
    ensures
        a == action_of(str_views(args@)),
{
    assert(str_views(args@)[0] == args@[0]@);
    match builtin_named(args[0]) {
        Some(Builtin::Exit) => Action::Exit,
        Some(Builtin::Echo) => Action::Echo,
        Some(Builtin::Type) => Action::Type,
        Some(Builtin::Pwd) => if args.len() == 1 {
            Action::Pwd
        } else {
            Action::External
        },
        Some(Builtin::Cd) => Action::Cd,
        None => Action::External,
    }
}

/// Whether a file with the given kind and permission bits is executable:
/// a regular file with an execute bit set for someone.
pub open spec fn spec_is_executable(is_file: bool, mode: u32) -> bool {
    is_file && mode & 0o111u32 != 0
}

/// Tests a file for being executable.
#[verifier::when_used_as_spec(spec_is_executable)]
pub fn is_executable(is_file: bool, mode: u32) -> (res: bool)
    ensures
        res == spec_is_executable(is_file, mode),
{
    is_file && mode & 0o111u32 != 0
}

/// A regular file is executable exactly when one of its three execute
/// bits (owner, group, others) is set; nothing else counts.
pub proof fn lemma_executable_bits(is_file: bool, mode: u32)
    ensures
        spec_is_executable(is_file, mode) == (is_file && (mode & 0o100u32 != 0 || mode & 0o010u32
            != 0 || mode & 0o001u32 != 0)),
{
    assert((mode & 0o111u32 != 0) == (mode & 0o100u32 != 0 || mode & 0o010u32 != 0 || mode
        & 0o001u32 != 0)) by (bit_vector);
}

/// A directory entry found on the search path.
#[derive(Debug)]
pub struct EntryInfo {
    pub name: String,
    pub is_file: bool,
    pub mode: u32,
}

/// Whether `e` is an executable whose name begins with `prefix`.
pub open spec fn entry_matches(prefix: Seq<char>, e: EntryInfo) -> bool {
    spec_is_executable(e.is_file, e.mode) && prefix.is_prefix_of(e.name@)
}

/// The names of the executables among `entries` that begin with `prefix`.
pub open spec fn matching_names(prefix: Seq<char>, entries: Seq<EntryInfo>) -> Set<Seq<char>> {
    Set::new(
        |n: Seq<char>|
            exists|i: int|
                0 <= i < entries.len() && entry_matches(prefix, #[trigger] entries[i])
                    && entries[i].name@ == n,
    )
}

/// The names of the executables among `entries` that begin with `prefix`,
/// each once, in sorted order.
pub fn executable_names(prefix: &str, entries: &Vec<EntryInfo>) -> (res: Vec<String>)
    ensures
        strictly_sorted(views(res@)),
        views(res@).to_set() == matching_names(prefix@, entries@),
{
    let mut res: Vec<String> = Vec::new();
    let mut i: usize = 0;
    assert(views(res@).to_set() =~= Set::empty());
    while i < entries.len()
        invariant
            i <= entries.len(),
            strictly_sorted(views(res@)),
            views(res@).to_set() == matching_names(prefix@, entries@.take(i as int)),
        decreases entries.len() - i,
    {
        let e = &entries[i];
        let ghost before = views(res@).to_set();
        if is_executable(e.is_file, e.mode) && starts_with(e.name.as_str(), prefix) {
            insert_sorted(&mut res, e.name.clone());
            assert(matching_names(prefix@, entries@.take(i + 1)) =~= before.insert(e.name@)) by {
                assert(entries@.take(i + 1)[i as int] == entries@[i as int]);
                assert forall|n: Seq<char>| #[trigger]
                    matching_names(prefix@, entries@.take(i + 1)).contains(n)
                        <==> before.insert(e.name@).contains(n) by {
                    if matching_names(prefix@, entries@.take(i + 1)).contains(n) && n != e.name@ {
                        let k = choose|k: int|
                            0 <= k < i + 1 && entry_matches(prefix@, #[trigger] entries@.take(i + 1)[k])
                                && entries@.take(i + 1)[k].name@ == n;
                        assert(entries@.take(i as int)[k] == entries@.take(i + 1)[k]);
                    }
                    if before.contains(n) {
                        let k = choose|k: int|
                            0 <= k < i && entry_matches(prefix@, #[trigger] entries@.take(i as int)[k])
                                && entries@.take(i as int)[k].name@ == n;
                        assert(entries@.take(i + 1)[k] == entries@.take(i as int)[k]);
                    }
                }
            }
        } else {
            assert(matching_names(prefix@, entries@.take(i + 1)) =~= before) by {
                assert forall|n: Seq<char>| #[trigger]
                    matching_names(prefix@, entries@.take(i + 1)).contains(n)
                        <==> before.contains(n) by {
                    if matching_names(prefix@, entries@.take(i + 1)).contains(n) {
                        let k = choose|k: int|
                            0 <= k < i + 1 && entry_matches(prefix@, #[trigger] entries@.take(i + 1)[k])
                                && entries@.take(i + 1)[k].name@ == n;
                        assert(k != i);
                        assert(entries@.take(i as int)[k] == entries@.take(i + 1)[k]);
                    }
                    if before.contains(n) {
                        let k = choose|k: int|
                            0 <= k < i && entry_matches(prefix@, #[trigger] entries@.take(i as int)[k])
                                && entries@.take(i as int)[k].name@ == n;
                        assert(entries@.take(i + 1)[k] == entries@.take(i as int)[k]);
                    }
                }
            }
        }
        i += 1;
    }
    assert(entries@.take(entries.len() as int) =~= entries@);
    res
}

} // verus!

verus! {

/// A file found for a command name in one directory of the search path:
/// whether it is a regular file, and its permission bits (0 when they
/// could not be read).
#[derive(Debug, Clone, Copy, PartialEq, Eq, Structural)]
pub struct Probe {
    pub is_file: bool,
    pub mode: u32,
}

/// The position of the first executable among `probes`, one per directory
/// of the search path in order: the command that the shell runs.
pub fn first_executable(probes: &Vec<Probe>) -> (r: Option<usize>)
    ensures
        match r {
            Some(i) => i < probes@.len() && spec_is_executable(probes@[i as int].is_file, probes@[i as int].mode)
                && forall|j: int| 0 <= j < i ==> !spec_is_executable(#[trigger] probes@[j].is_file, probes@[j].mode),
            None => forall|j: int| 0 <= j < probes@.len() ==> !spec_is_executable(#[trigger] probes@[j].is_file, probes@[j].mode),
        },
{
    let mut i: usize = 0;
    while i < probes.len()
        invariant
            i <= probes.len(),
            forall|j: int| 0 <= j < i ==> !spec_is_executable(#[trigger] probes@[j].is_file, probes@[j].mode),
        decreases probes.len() - i,
    {
        if is_executable(probes[i].is_file, probes[i].mode) {
            return Some(i);
        }
        i += 1;
    }
    None
}

} // verus!
