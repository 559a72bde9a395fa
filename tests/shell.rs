use toy_shell::{
    cd_target, chdir_failure, classify, is_blank, pure_output, external_result, kill_command, parse, parse_i32,
    parse_line, ps_table, tokenize, Cmd, Evaluation, Reply, Expr, Redir, ShellError, Step, Token,
};

fn words(ws: &[&str]) -> Vec<String> {
    ws.iter().map(|w| w.to_string()).collect()
}

fn ext_name(e: &Expr) -> Option<&str> {
    match e {
        Expr::Cmd(Cmd::Ext { comm, .. }) => Some(comm.as_str()),
        _ => None,
    }
}

#[test]
fn blank_line_is_a_no_op() {
    for line in ["", "   ", "\t \n", "\u{3000}\u{a0} "] {
        assert!(is_blank(line));
        assert!(matches!(parse_line(line), Err(ShellError::MalformedInput)));
    }
    assert!(!is_blank(" x "));
}

#[test]
fn line_without_words_has_no_tree() {
    assert!(matches!(parse_line("# a note"), Err(ShellError::MalformedInput)));
    assert!(matches!(parse(Vec::new()), Err(ShellError::MalformedInput)));
}

#[test]
fn pipes_group_to_the_right() {
    let e = parse_line("a | b | c").unwrap();
    match e {
        Expr::Pipe { left, right } => {
            assert_eq!(ext_name(&left), Some("a"));
            match *right {
                Expr::Pipe { left, right } => {
                    assert_eq!(ext_name(&left), Some("b"));
                    assert_eq!(ext_name(&right), Some("c"));
                }
                _ => panic!("inner node is not a pipe"),
            }
        }
        _ => panic!("root is not a pipe"),
    }
}

#[test]
fn trailing_fork_has_no_right_side() {
    match parse_line("a &").unwrap() {
        Expr::Fork { left, right } => {
            assert_eq!(ext_name(&left), Some("a"));
            assert!(right.is_none());
        }
        _ => panic!("root is not a fork"),
    }
    match parse_line("a & b").unwrap() {
        Expr::Fork { left, right } => {
            assert_eq!(ext_name(&left), Some("a"));
            assert_eq!(ext_name(&right.unwrap()), Some("b"));
        }
        _ => panic!("root is not a fork"),
    }
}

#[test]
fn dangling_separators_are_rejected() {
    for line in ["| a", "a |", "a | | b", "& a", "a & | b"] {
        assert!(matches!(parse_line(line), Err(ShellError::DanglingPipe)), "{}", line);
    }
}

#[test]
fn unterminated_quote_is_malformed() {
    assert!(matches!(parse_line("echo 'abc"), Err(ShellError::MalformedInput)));
    assert!(matches!(parse_line("echo abc\\"), Err(ShellError::MalformedInput)));
}

#[test]
fn quoted_words_stay_whole() {
    match parse_line("echo 'a | b'").unwrap() {
        Expr::Cmd(Cmd::Echo { string }) => assert_eq!(string, "a | b"),
        _ => panic!("not an echo"),
    }
}

#[test]
fn builtins_are_classified_by_name_and_arity() {
    assert!(matches!(classify(&words(&["pwd"])), Ok(Cmd::Pwd)));
    assert!(matches!(classify(&words(&["ps"])), Ok(Cmd::Ps)));
    assert!(matches!(classify(&words(&["exit"])), Ok(Cmd::Exit)));
    match classify(&words(&["echo"])) {
        Ok(Cmd::Echo { string }) => assert_eq!(string, ""),
        _ => panic!("not an echo"),
    }
    match classify(&words(&["cd", "/tmp"])) {
        Ok(Cmd::Cd { path }) => assert_eq!(path, "/tmp"),
        _ => panic!("not a cd"),
    }
    match classify(&words(&["exec", "ls", "-l", "/"])) {
        Ok(Cmd::Exec { comm, args }) => {
            assert_eq!(comm, "ls");
            assert_eq!(args, vec!["-l", "/"]);
        }
        _ => panic!("not an exec"),
    }
    match classify(&words(&["echo", "a", "b"])) {
        Ok(Cmd::Ext { comm, args }) => {
            assert_eq!(comm, "echo");
            assert_eq!(args, vec!["a", "b"]);
        }
        _ => panic!("not external"),
    }
    match classify(&words(&["pwd", "-L"])) {
        Ok(Cmd::Ext { comm, args }) => {
            assert_eq!(comm, "pwd");
            assert_eq!(args, vec!["-L"]);
        }
        _ => panic!("not external"),
    }
}

#[test]
fn kill_with_bad_arguments_is_refused() {
    match classify(&words(&["kill", "NOPE", "1"])) {
        Err(ShellError::InvalidArgument(w)) => assert_eq!(w, "NOPE"),
        _ => panic!("bad signal accepted"),
    }
    match classify(&words(&["kill", "TERM", "x1"])) {
        Err(ShellError::InvalidArgument(w)) => assert_eq!(w, "x1"),
        _ => panic!("bad pid accepted"),
    }
    assert!(matches!(
        parse_line("kill BOGUS 12 | cat"),
        Err(ShellError::InvalidArgument(_))
    ));
}

#[test]
fn kill_signal_names_and_numbers() {
    let me: i32 = 4321;
    let pid = me.to_string();
    for name in ["TERM", "SIGTERM", "15"] {
        match classify(&words(&["kill", name, &pid])) {
            Ok(Cmd::Kill { signal, pid }) => {
                assert_eq!(signal, 15);
                assert_eq!(pid, me);
            }
            _ => panic!("{} not accepted", name),
        }
    }
}

#[test]
fn kill_command_from_looked_up_signal() {
    assert!(matches!(kill_command(Some(9), "KILL", "42"), Ok(Cmd::Kill { signal: 9, pid: 42 })));
    assert!(matches!(kill_command(Some(9), "KILL", "-7"), Ok(Cmd::Kill { signal: 9, pid: -7 })));
    match kill_command(None, "WHAT", "42") {
        Err(ShellError::InvalidArgument(w)) => assert_eq!(w, "WHAT"),
        _ => panic!("missing signal accepted"),
    }
}

#[test]
fn decimal_i32_reading() {
    assert_eq!(parse_i32("0"), Some(0));
    assert_eq!(parse_i32("+17"), Some(17));
    assert_eq!(parse_i32("-2147483648"), Some(i32::MIN));
    assert_eq!(parse_i32("2147483647"), Some(i32::MAX));
    assert_eq!(parse_i32("2147483648"), None);
    assert_eq!(parse_i32("99999999999999999999"), None);
    assert_eq!(parse_i32(""), None);
    assert_eq!(parse_i32("-"), None);
    assert_eq!(parse_i32("1a"), None);
}

#[test]
fn tokens_follow_the_separators() {
    let toks = tokenize(&words(&["ls", "-l", "|", "wc", "&"])).ok().unwrap();
    assert_eq!(toks.len(), 4);
    assert!(matches!(&toks[0], Token::Cmd(Cmd::Ext { .. })));
    assert!(matches!(&toks[1], Token::Redir(Redir::Pipe)));
    assert!(matches!(&toks[2], Token::Cmd(Cmd::Ext { .. })));
    assert!(matches!(&toks[3], Token::Redir(Redir::Fork)));
}

/// Drives an evaluation, answering each command from `answer`.
fn drive(e: Expr, answer: &dyn Fn(&Cmd, &Option<String>) -> Result<String, ShellError>) -> Step {
    let (mut ev, mut step) = Evaluation::start(e, None);
    loop {
        match step {
            Step::Run(cmd, input) => {
                let r = answer(&cmd, &input);
                let (e2, s2) = ev.resume(Reply::Ran(r));
                ev = e2;
                step = s2;
            }
            other => return other,
        }
    }
}

#[test]
fn pipe_threads_output_into_input() {
    let e = parse_line("echo hi | tr a-z A-Z").unwrap();
    let step = drive(e, &|cmd, input| match cmd {
        Cmd::Echo { string } => Ok(string.clone()),
        Cmd::Ext { comm, .. } => {
            assert_eq!(comm, "tr");
            Ok(input.clone().unwrap().to_uppercase())
        }
        _ => panic!("unexpected command"),
    });
    match step {
        Step::Done(Ok(out)) => assert_eq!(out, "HI"),
        _ => panic!("evaluation did not finish"),
    }
}

#[test]
fn failure_in_a_pipe_stops_it() {
    let e = parse_line("false | never").unwrap();
    let step = drive(e, &|cmd, _| match cmd {
        Cmd::Ext { comm, .. } if comm == "false" => {
            Err(ShellError::ExternalFailure("failed".to_string()))
        }
        _ => panic!("ran after a failure"),
    });
    match step {
        Step::Done(Err(ShellError::ExternalFailure(m))) => assert_eq!(m, "failed"),
        _ => panic!("failure not returned"),
    }
}

#[test]
fn background_job_returns_at_once() {
    let e = parse_line("sleep 5 &").unwrap();
    let (ev, step) = Evaluation::start(e, None);
    assert!(matches!(step, Step::Fork));
    let (_, step) = ev.resume(Reply::Parent(1234));
    match step {
        Step::Done(Ok(out)) => assert_eq!(out, ""),
        _ => panic!("parent waited"),
    }
}

#[test]
fn fork_parent_goes_on_with_the_right_side() {
    let e = parse_line("sleep 5 & echo now").unwrap();
    let (ev, step) = Evaluation::start(e, None);
    assert!(matches!(step, Step::Fork));
    let (_, step) = ev.resume(Reply::Parent(77));
    match step {
        Step::Run(Cmd::Echo { string }, None) => assert_eq!(string, "now"),
        _ => panic!("right side not run"),
    }
}

#[test]
fn fork_child_runs_left_and_exits() {
    let e = parse_line("echo bg & echo fg").unwrap();
    let (ev, _) = Evaluation::start(e, None);
    let (ev, step) = ev.resume(Reply::Child);
    match &step {
        Step::Run(Cmd::Echo { string }, None) => assert_eq!(string, "bg"),
        _ => panic!("left side not run"),
    }
    let (_, step) = ev.resume(Reply::Ran(Ok("bg".to_string())));
    match step {
        Step::ExitChild(Some(out)) => assert_eq!(out, "bg"),
        _ => panic!("child did not exit"),
    }
    let e = parse_line("false & true").unwrap();
    let (ev, _) = Evaluation::start(e, None);
    let (ev, _) = ev.resume(Reply::Child);
    let (_, step) = ev.resume(Reply::Ran(Err(ShellError::ExternalFailure(String::new()))));
    assert!(matches!(step, Step::ExitChild(None)));
}

#[test]
fn failed_fork_is_reported() {
    let e = parse_line("a &").unwrap();
    let (ev, _) = Evaluation::start(e, None);
    let (_, step) = ev.resume(Reply::ForkFailed("EAGAIN".to_string()));
    match step {
        Step::Done(Err(ShellError::ForkFailure(m))) => assert_eq!(m, "EAGAIN"),
        _ => panic!("fork failure lost"),
    }
}

#[test]
fn missing_directory_names_the_path() {
    match chdir_failure("/nonexistent-path".to_string(), true, "No such file".to_string()) {
        ShellError::PathNotFound(p) => assert_eq!(p, "/nonexistent-path"),
        _ => panic!("wrong error"),
    }
    match chdir_failure("/root".to_string(), false, "Permission denied".to_string()) {
        ShellError::IoFailure(m) => assert_eq!(m, "Permission denied"),
        _ => panic!("wrong error"),
    }
}

#[test]
fn home_directory_for_tilde() {
    assert_eq!(cd_target("~", Some("/home/u".to_string())).ok().unwrap(), "/home/u");
    assert_eq!(cd_target("/tmp", Some("/home/u".to_string())).ok().unwrap(), "/tmp");
    assert_eq!(cd_target("~/x", None).ok().unwrap(), "~/x");
    assert!(matches!(cd_target("~", None), Err(ShellError::IoFailure(_))));
}

#[test]
fn ps_times_become_milliseconds() {
    let raw = "    1 init            01:02:03\n   42 bash               05:07\n  777 daemon    2-00:00:01\n";
    let out = ps_table(raw);
    assert_eq!(
        out,
        "    1 init            3723000\n   42 bash               307000\n  777 daemon    172801000\n"
    );
    assert!(!out.contains(':'));
}

#[test]
fn ps_lines_that_do_not_read_are_dropped() {
    let raw = "  1 a 00:01\nbroken\n  2 b 1-02:03\n  3 c x:10\n  4 d 00:02";
    assert_eq!(ps_table(raw), "  1 a 1000\n  4 d 2000\n");
    assert_eq!(ps_table(""), "");
}

#[test]
fn external_output_is_decoded() {
    assert_eq!(external_result(true, b"hi\n", b"").ok().unwrap(), "hi\n");
    assert_eq!(external_result(true, &[0x61, 0xff], b"").ok().unwrap(), "a\u{fffd}");
    match external_result(false, b"ignored", b"boom") {
        Err(ShellError::ExternalFailure(m)) => assert_eq!(m, "boom"),
        _ => panic!("failure lost"),
    }
}

#[test]
fn echo_ignores_its_input() {
    let cmd = Cmd::Echo { string: "hi".to_string() };
    assert_eq!(pure_output(&cmd, &Some("other".to_string())), Some("hi".to_string()));
    assert_eq!(pure_output(&Cmd::Pwd, &None), None);
}
