use minishell::builtin::{exit_code, lookup, parse_code, Builtin};
use minishell::cmd::{parse, Chain, Statement};
use minishell::error::{Error, Severity};
use minishell::exec::{dispatch, Action, Cmd, Dispatch, Progress};

fn chain(line: &str) -> Chain<'_> {
    let mut chains = parse(line);
    assert_eq!(chains.len(), 1);
    chains.remove(0).unwrap()
}

/// Drives a chain with the given statuses for the statements run, and
/// returns the indices run and the chain's outcome.
fn drive(c: &Chain, statuses: &[bool]) -> (Vec<usize>, Action) {
    let mut p = Progress::start();
    let mut ran = vec![];
    loop {
        match p.step(c) {
            Action::Run(i) => {
                ran.push(i);
                p.record(statuses[ran.len() - 1]);
            }
            other => return (ran, other),
        }
    }
}

#[test]
fn and_runs_second_only_after_success() {
    let c = chain("a && b");
    assert_eq!(drive(&c, &[true, true]), (vec![0, 2], Action::Done(Some(true))));
    assert_eq!(drive(&c, &[true, false]), (vec![0, 2], Action::Done(Some(false))));
    assert_eq!(drive(&c, &[false]), (vec![0], Action::Done(Some(false))));
}

#[test]
fn or_runs_second_only_after_failure() {
    let c = chain("a || b");
    assert_eq!(drive(&c, &[true]), (vec![0], Action::Done(Some(true))));
    assert_eq!(drive(&c, &[false, true]), (vec![0, 2], Action::Done(Some(true))));
    assert_eq!(drive(&c, &[false, false]), (vec![0, 2], Action::Done(Some(false))));
}

#[test]
fn leading_operator_dangles() {
    let c = chain("&& a");
    assert_eq!(drive(&c, &[]), (vec![], Action::Abandon(Error::DanglingOperator)));
    let c = chain("a && || b");
    assert_eq!(drive(&c, &[true]), (vec![0], Action::Abandon(Error::DanglingOperator)));
}

#[test]
fn trailing_operator_leaves_no_status() {
    let c = chain("a &&");
    assert_eq!(drive(&c, &[true]), (vec![0], Action::Done(None)));
}

#[test]
fn step_state_after_run() {
    let c = chain("a && b");
    let mut p = Progress::start();
    assert_eq!(p, Progress { next: 0, last: None });
    assert_eq!(p.step(&c), Action::Run(0));
    assert_eq!(p, Progress { next: 1, last: None });
    p.record(true);
    assert_eq!(p, Progress { next: 1, last: Some(true) });
    assert_eq!(p.step(&c), Action::Run(2));
    assert_eq!(p, Progress { next: 3, last: None });
}

#[test]
fn spawn_failure_does_not_stop_later_chains() {
    let chains = parse("no_such_binary_here; echo after");
    assert_eq!(chains.len(), 2);
    let first = chains[0].as_ref().unwrap();
    assert_eq!(drive(first, &[false]), (vec![0], Action::Done(Some(false))));
    let second = chains[1].as_ref().unwrap();
    assert_eq!(drive(second, &[true]), (vec![0], Action::Done(Some(true))));
    assert_eq!(Error::SpawnFailure.severity(), Severity::Reported);
}

#[test]
fn exit_codes() {
    assert_eq!(exit_code(&vec![]), Ok(0));
    assert_eq!(exit_code(&vec!["7"]), Ok(7));
    assert_eq!(exit_code(&vec!["abc"]), Err(Error::BuiltinArgumentError));
    assert_eq!(exit_code(&vec!["-3", "x"]), Ok(-3));
}

#[test]
fn parse_code_edges() {
    assert_eq!(parse_code("0"), Some(0));
    assert_eq!(parse_code("+5"), Some(5));
    assert_eq!(parse_code("007"), Some(7));
    assert_eq!(parse_code("2147483647"), Some(i32::MAX));
    assert_eq!(parse_code("-2147483648"), Some(i32::MIN));
    assert_eq!(parse_code("2147483648"), None);
    assert_eq!(parse_code("-2147483649"), None);
    assert_eq!(parse_code("99999999999999999999"), None);
    assert_eq!(parse_code(""), None);
    assert_eq!(parse_code("-"), None);
    assert_eq!(parse_code("+-1"), None);
    assert_eq!(parse_code("12a"), None);
    assert_eq!(parse_code(" 1"), None);
}

#[test]
fn builtin_lookup() {
    assert_eq!(lookup("exit"), Some(Builtin::Exit));
    assert_eq!(lookup("exits"), None);
    assert_eq!(lookup("Exit"), None);
}

#[test]
fn dispatch_exit_builtin() {
    let c = chain("exit");
    match &c.elements[0] {
        minishell::cmd::ChainElement::Stmt(s) => assert!(matches!(dispatch(s), Dispatch::Exit(0))),
        _ => panic!("expected a statement"),
    }
    let s = Statement::try_from("exit 7").unwrap();
    assert!(matches!(dispatch(&s), Dispatch::Exit(7)));
    let s = Statement::try_from("exit abc").unwrap();
    assert!(matches!(dispatch(&s), Dispatch::Fail(Error::BuiltinArgumentError)));
}

#[test]
fn dispatch_spawn_and_pipe() {
    let s = Statement::try_from("ls -l /tmp").unwrap();
    match dispatch(&s) {
        Dispatch::Spawn(c) => {
            assert_eq!(c.program, "ls");
            assert_eq!(c.args, vec!["-l".to_string(), "/tmp".to_string()]);
        }
        _ => panic!("expected a spawn"),
    }
    let s = Statement::try_from("printf abc | cat").unwrap();
    match dispatch(&s) {
        Dispatch::Pipe(a, b) => {
            assert_eq!(a.program, "printf");
            assert_eq!(a.args, vec!["abc".to_string()]);
            assert_eq!(b.program, "cat");
            assert!(b.args.is_empty());
        }
        _ => panic!("expected a pipe"),
    }
}

#[test]
fn dispatch_nested_pipe_is_unsupported() {
    let inner = Statement::try_from("a | b").unwrap();
    let s = Statement::Pipe {
        input: Box::new(inner),
        output: Box::new(Statement::Cmd {
            binary: "c",
            args: vec![],
        }),
    };
    assert!(matches!(dispatch(&s), Dispatch::Fail(Error::UnsupportedPipeline)));
}

#[test]
fn cmd_from_string() {
    let c = Cmd::from_string("  ls  -l\t/tmp \n");
    assert_eq!(c.program, "ls");
    assert_eq!(c.args, vec!["-l".to_string(), "/tmp".to_string()]);
    let c = Cmd::from_string("pwd");
    assert_eq!(c.program, "pwd");
    assert!(c.args.is_empty());
}

#[test]
fn error_severities() {
    assert_eq!(Error::NoBinary.severity(), Severity::Silent);
    assert_eq!(Error::UnsupportedPipeline.severity(), Severity::Reported);
    assert_eq!(Error::DanglingOperator.severity(), Severity::Reported);
    assert_eq!(Error::BuiltinArgumentError.severity(), Severity::Fatal);
}
