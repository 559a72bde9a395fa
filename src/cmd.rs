use vstd::prelude::*;
use crate::error::ShellError;
use crate::text::{i32_of, parse_i32, same_text, starts_with_text};

verus! {

/// One command of a line: a builtin with typed arguments, or an external
/// program with its arguments.
#[derive(Debug)]
pub enum Cmd {
    /// A program that is not a builtin, with its arguments.
    Ext { comm: String, args: Vec<String> },
    Pwd,
    Echo { string: String },
    Cd { path: String },
    /// Runs a program, prints its output, and ends the interpreter.
    Exec { comm: String, args: Vec<String> },
    /// Sends the signal numbered `signal` to the process `pid`.
    Kill { signal: i32, pid: i32 },
    Ps,
    Exit,
}

/// A command with its text as character sequences.
pub enum CmdView {
    Ext { comm: Seq<char>, args: Seq<Seq<char>> },
    Pwd,
    Echo { string: Seq<char> },
    Cd { path: Seq<char> },
    Exec { comm: Seq<char>, args: Seq<Seq<char>> },
    Kill { signal: i32, pid: i32 },
    Ps,
    Exit,
}

pub open spec fn texts(v: Seq<String>) -> Seq<Seq<char>> {
    v.map_values(|s: String| s@)
}

impl View for Cmd {
    type V = CmdView;

    open spec fn view(&self) -> CmdView {
        match self {
            Cmd::Ext { comm, args } => CmdView::Ext { comm: comm@, args: texts(args@) },
            Cmd::Pwd => CmdView::Pwd,
            Cmd::Echo { string } => CmdView::Echo { string: string@ },
            Cmd::Cd { path } => CmdView::Cd { path: path@ },
            Cmd::Exec { comm, args } => CmdView::Exec { comm: comm@, args: texts(args@) },
            Cmd::Kill { signal, pid } => CmdView::Kill { signal: *signal, pid: *pid },
            Cmd::Ps => CmdView::Ps,
            Cmd::Exit => CmdView::Exit,
        }
    }
}

/// A group of words whose shape is that of `kill`: the name and two arguments.
pub open spec fn is_kill_group(g: Seq<Seq<char>>) -> bool {
    g.len() == 3 && g[0] == "kill"@
}

/// The command that a group of words (the program name first) stands for,
/// for every group but those of `kill`'s shape: the first builtin whose name
/// and number of arguments match, else an external program.
pub open spec fn command_of(g: Seq<Seq<char>>) -> CmdView
    recommends
        g.len() > 0,
{
    let name = g[0];
    let n = g.len() - 1;
    if name == "pwd"@ && n == 0 {
        CmdView::Pwd
    } else if name == "echo"@ && n == 0 {
        CmdView::Echo { string: Seq::empty() }
    } else if name == "echo"@ && n == 1 {
        CmdView::Echo { string: g[1] }
    } else if name == "cd"@ && n == 1 {
        CmdView::Cd { path: g[1] }
    } else if name == "exec"@ && n >= 1 {
        CmdView::Exec { comm: g[1], args: g.skip(2) }
    } else if name == "ps"@ && n == 0 {
        CmdView::Ps
    } else if name == "exit"@ && n == 0 {
        CmdView::Exit
    } else {
        CmdView::Ext { comm: g[0], args: g.skip(1) }
    }
}

/// The signal names that nix reads on every target.
pub open spec fn signal_names() -> Seq<Seq<char>> {
    seq![
        "SIGHUP"@, "SIGINT"@, "SIGQUIT"@, "SIGILL"@,
        "SIGTRAP"@, "SIGABRT"@, "SIGBUS"@, "SIGFPE"@,
        "SIGKILL"@, "SIGUSR1"@, "SIGSEGV"@, "SIGUSR2"@,
        "SIGPIPE"@, "SIGALRM"@, "SIGTERM"@, "SIGCHLD"@,
        "SIGCONT"@, "SIGSTOP"@, "SIGTSTP"@, "SIGTTIN"@,
        "SIGTTOU"@, "SIGURG"@, "SIGXCPU"@, "SIGXFSZ"@,
        "SIGVTALRM"@, "SIGPROF"@, "SIGWINCH"@, "SIGSYS"@,
    ]
}

/// The signal names that nix reads on some targets only.
pub open spec fn target_signal_names() -> Seq<Seq<char>> {
    seq![
        "SIGSTKFLT"@, "SIGIO"@, "SIGPWR"@, "SIGEMT"@,
        "SIGINFO"@,
    ]
}

/// The signal name that a word stands for: itself where it begins with
/// `SIG`, else the word with `SIG` before it.
pub open spec fn signal_name_of(w: Seq<char>) -> Seq<char> {
    if "SIG"@.len() <= w.len() && w.subrange(0, "SIG"@.len() as int) == "SIG"@ {
        w
    } else {
        "SIG"@ + w
    }
}

/// Whether a signal word is refused on every target: a number that is not
/// positive, or a name outside nix's table.
pub open spec fn signal_refused(w: Seq<char>) -> bool {
    match i32_of(w) {
        Some(n) => n <= 0,
        None => !signal_names().contains(signal_name_of(w)) && !target_signal_names().contains(
            signal_name_of(w),
        ),
    }
}

/// Whether a signal word is accepted on every target: a name that nix reads
/// everywhere.
pub open spec fn signal_accepted(w: Seq<char>) -> bool {
    i32_of(w) is None && signal_names().contains(signal_name_of(w))
}

/// What `kill`'s arguments become once the signal word has been looked up:
/// `signal` is the number found for `signal_word`, if any.
pub open spec fn kill_outcome(signal: Option<i32>, signal_word: Seq<char>, pid_word: Seq<char>)
    -> Result<CmdView, Seq<char>>
{
    match signal {
        None => Err(signal_word),
        Some(s) => match i32_of(pid_word) {
            None => Err(pid_word),
            Some(p) => Ok(CmdView::Kill { signal: s, pid: p }),
        },
    }
}

/// Whether `r` is what classifying the group `g` gives. For `kill` the
/// signal's number, and whether a name gated by target is read, come from
/// nix's table for the target; a refused signal word or an unreadable process
/// id always fails, an accepted name with a readable id always succeeds.
pub open spec fn classifies(g: Seq<Seq<char>>, r: Result<Cmd, ShellError>) -> bool {
    if is_kill_group(g) {
        match r {
            Ok(c) => c@ matches CmdView::Kill { signal, pid } && signal > 0 && i32_of(g[2])
                == Some(pid) && (i32_of(g[1]) is Some ==> i32_of(g[1]) == Some(signal))
                && !signal_refused(g[1]),
            Err(e) => e matches ShellError::InvalidArgument(w) && ((w@ == g[1] && !signal_accepted(
                g[1],
            )) || (w@ == g[2] && i32_of(g[2]) is None && !signal_refused(g[1]))),
        }
    } else {
        r matches Ok(c) && c@ == command_of(g)
    }
}

/// Relies on nix's `Signal::from_str`: the names of its table are read (some
/// on some targets only), any other gives an error; its signals' numbers are
/// libc's, all positive.
#[verifier::external_body]
fn signal_named(name: &str) -> (r: Option<i32>)
    ensures
        r matches Some(n) ==> n > 0,
        signal_names().contains(name@) ==> r is Some,
        !signal_names().contains(name@) && !target_signal_names().contains(name@) ==> r is None,
{
    <nix::sys::signal::Signal as std::str::FromStr>::from_str(name).ok().map(|s| s as i32)
}

/// Relies on nix's `Signal::try_from(i32)`: a number is a signal's when it
/// is one of libc's signal numbers, all positive, and the signal keeps it.
#[verifier::external_body]
fn signal_numbered(n: i32) -> (r: Option<i32>)
    ensures
        r matches Some(m) ==> m == n && m > 0,
        n <= 0 ==> r is None,
{
    nix::sys::signal::Signal::try_from(n).ok().map(|s| s as i32)
}

/// The number of the signal that `word` names: a number, or a name with or
/// without its `SIG` prefix.
fn signal_of_word(word: &str) -> (r: Option<i32>)
    ensures
        r matches Some(n) ==> n > 0,
        i32_of(word@) is Some && r is Some ==> r == i32_of(word@),
        signal_refused(word@) ==> r is None,
        signal_accepted(word@) ==> r is Some,
{
    match parse_i32(word) {
        Some(n) => signal_numbered(n),
        None => {
            if starts_with_text(word, "SIG") {
                signal_named(word)
            } else {
                let mut name = "SIG".to_owned();
                name.append(word);
                proof {
                    assert(name@ == signal_name_of(word@));
                }
                signal_named(name.as_str())
            }
        },
    }
}

/// Builds `kill`'s command from the looked-up signal and the process id word.
pub fn kill_command(signal: Option<i32>, signal_word: &str, pid_word: &str) -> (r: Result<
    Cmd,
    ShellError,
>)
    ensures
        match kill_outcome(signal, signal_word@, pid_word@) {
            Ok(v) => r matches Ok(c) && c@ == v,
            Err(w) => r matches Err(ShellError::InvalidArgument(x)) && x@ == w,
        },
{
    match signal {
        None => Err(ShellError::InvalidArgument(signal_word.to_owned())),
        Some(s) => match parse_i32(pid_word) {
            None => Err(ShellError::InvalidArgument(pid_word.to_owned())),
            Some(p) => Ok(Cmd::Kill { signal: s, pid: p }),
        },
    }
}

fn clone_texts(v: &Vec<String>, from: usize) -> (r: Vec<String>)
    requires
        from <= v@.len(),
    ensures
        texts(r@) == texts(v@).skip(from as int),
{
    let mut r: Vec<String> = Vec::new();
    let mut i: usize = from;
    while i < v.len()
        invariant
            from <= i <= v@.len(),
            texts(r@) == texts(v@).subrange(from as int, i as int),
        decreases v@.len() - i,
    {
        let w = v[i].clone();
        let ghost r0 = r@;
        r.push(w);
        proof {
            assert(w@ == v@[i as int]@);
            assert(r@ == r0.push(w));
            assert(texts(r@) =~= texts(r0).push(w@));
            assert(texts(r@) =~= texts(v@).subrange(from as int, i + 1));
        }
        i += 1;
    }
    proof {
        assert(texts(v@).subrange(from as int, i as int) =~= texts(v@).skip(from as int));
    }
    r
}

/// Classifies a group of words (the program name first): a builtin where
/// the group has a builtin's name and number of arguments, else an external
/// program. Fails only on `kill` arguments that do not parse.
pub fn classify(g: &Vec<String>) -> (r: Result<Cmd, ShellError>)
    requires
        g@.len() > 0,
    ensures
        classifies(texts(g@), r),
{
    let ghost t = texts(g@);
    let n = g.len() - 1;
    let name = g[0].as_str();
    proof {
        assert(t[0] == name@);
        assert(t.len() == g@.len());
    }
    if same_text(name, "kill") && n == 2 {
        let signal = signal_of_word(g[1].as_str());
        proof {
            assert(t[1] == g@[1]@);
            assert(t[2] == g@[2]@);
        }
        return kill_command(signal, g[1].as_str(), g[2].as_str());
    }
    if same_text(name, "pwd") && n == 0 {
        Ok(Cmd::Pwd)
    } else if same_text(name, "echo") && n == 0 {
        Ok(Cmd::Echo { string: String::new() })
    } else if same_text(name, "echo") && n == 1 {
        proof {
            assert(t[1] == g@[1]@);
        }
        Ok(Cmd::Echo { string: g[1].clone() })
    } else if same_text(name, "cd") && n == 1 {
        proof {
            assert(t[1] == g@[1]@);
        }
        Ok(Cmd::Cd { path: g[1].clone() })
    } else if same_text(name, "exec") && n >= 1 {
        proof {
            assert(t[1] == g@[1]@);
            assert(texts(g@).skip(2) =~= t.skip(2));
        }
        Ok(Cmd::Exec { comm: g[1].clone(), args: clone_texts(g, 2) })
    } else if same_text(name, "ps") && n == 0 {
        Ok(Cmd::Ps)
    } else if same_text(name, "exit") && n == 0 {
        Ok(Cmd::Exit)
    } else {
        Ok(Cmd::Ext { comm: g[0].clone(), args: clone_texts(g, 1) })
    }
}

} // verus!

verus! {

/// A `kill` whose signal word is refused on every target (`BAD`, `0`) never
/// becomes a command: classifying it fails with that word, so no signal is
/// sent.
pub proof fn lemma_refused_signal_fails(g: Seq<Seq<char>>, r: Result<Cmd, ShellError>)
    requires
        is_kill_group(g),
        signal_refused(g[1]),
        classifies(g, r),
    ensures
        r matches Err(ShellError::InvalidArgument(w)) && w@ == g[1],
{
}

} // verus!
