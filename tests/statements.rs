use minishell::cmd::{Statement, Statements};
use minishell::error::Error;

#[test]
fn test_empty_line() {
    match Statements::try_from("") {
        Err(Error::NoBinary) => (),
        _ => panic!("Expected NoBinary error"),
    }
}

#[test]
fn test_single_binary() {
    assert_eq!(
        Statements::try_from("echo").unwrap(),
        Statements(vec![Statement::Cmd {
            binary: "echo",
            args: vec![]
        }])
    );
}

#[test]
fn test_binary_with_arguments() {
    assert_eq!(
        Statements::try_from("echo 1 2 3").unwrap(),
        Statements(vec![Statement::Cmd {
            binary: "echo",
            args: vec!["1", "2", "3"]
        }])
    );
}

#[test]
fn test_multiple_commands() {
    assert_eq!(
        Statements::try_from("cat test.txt; echo hello").unwrap(),
        Statements(vec![
            Statement::Cmd {
                binary: "cat",
                args: vec!["test.txt"]
            },
            Statement::Cmd {
                binary: "echo",
                args: vec!["hello"]
            }
        ])
    );
}

#[test]
fn statements_empty_segment_is_no_binary() {
    assert_eq!(Statements::try_from("a;;b"), Err(Error::NoBinary));
}

#[test]
fn statements_keep_pipes() {
    assert_eq!(
        Statements::try_from("ls | wc -l").unwrap(),
        Statements(vec![Statement::Pipe {
            input: Box::new(Statement::Cmd {
                binary: "ls",
                args: vec![]
            }),
            output: Box::new(Statement::Cmd {
                binary: "wc",
                args: vec!["-l"]
            }),
        }])
    );
}

#[test]
fn statement_with_two_pipes_is_unsupported() {
    assert_eq!(Statement::try_from("a | b | c"), Err(Error::UnsupportedPipeline));
}

#[test]
fn statement_pipe_with_empty_side_is_no_binary() {
    assert_eq!(Statement::try_from("a |"), Err(Error::NoBinary));
    assert_eq!(Statement::try_from("| b"), Err(Error::NoBinary));
}
