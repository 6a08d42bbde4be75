use minishell::cmd::{parse, parse_chain, Chain, ChainElement, ChainOp, Statement};
use minishell::error::Error;

fn cmd<'a>(binary: &'a str, args: Vec<&'a str>) -> ChainElement<'a> {
    ChainElement::Stmt(Statement::Cmd { binary, args })
}

#[test]
fn blank_lines_yield_no_chains() {
    assert_eq!(parse(""), vec![]);
    assert_eq!(parse("   "), vec![]);
    assert_eq!(parse(" ; ;\t;  \u{3000}"), vec![]);
    assert_eq!(parse(";;;"), vec![]);
}

#[test]
fn parse_single_command_with_argument() {
    assert_eq!(
        parse("ls -l"),
        vec![Ok(Chain {
            elements: vec![cmd("ls", vec!["-l"])]
        })]
    );
}

#[test]
fn parse_two_chains_in_order() {
    assert_eq!(
        parse("ls; echo hello"),
        vec![
            Ok(Chain {
                elements: vec![cmd("ls", vec![])]
            }),
            Ok(Chain {
                elements: vec![cmd("echo", vec!["hello"])]
            }),
        ]
    );
}

#[test]
fn parse_and_chain() {
    assert_eq!(
        parse("a && b"),
        vec![Ok(Chain {
            elements: vec![cmd("a", vec![]), ChainElement::Op(ChainOp::And), cmd("b", vec![])]
        })]
    );
}

#[test]
fn parse_or_chain() {
    assert_eq!(
        parse("a || b"),
        vec![Ok(Chain {
            elements: vec![cmd("a", vec![]), ChainElement::Op(ChainOp::Or), cmd("b", vec![])]
        })]
    );
}

#[test]
fn parse_pipe() {
    assert_eq!(
        parse("a | b"),
        vec![Ok(Chain {
            elements: vec![ChainElement::Stmt(Statement::Pipe {
                input: Box::new(Statement::Cmd {
                    binary: "a",
                    args: vec![]
                }),
                output: Box::new(Statement::Cmd {
                    binary: "b",
                    args: vec![]
                }),
            })]
        })]
    );
}

#[test]
fn parse_three_stage_pipe_is_unsupported() {
    assert_eq!(parse("a | b | c"), vec![Err(Error::UnsupportedPipeline)]);
}

#[test]
fn pipe_binds_tighter_than_and() {
    assert_eq!(
        parse("a x | b && c"),
        vec![Ok(Chain {
            elements: vec![
                ChainElement::Stmt(Statement::Pipe {
                    input: Box::new(Statement::Cmd {
                        binary: "a",
                        args: vec!["x"]
                    }),
                    output: Box::new(Statement::Cmd {
                        binary: "b",
                        args: vec![]
                    }),
                }),
                ChainElement::Op(ChainOp::And),
                cmd("c", vec![]),
            ]
        })]
    );
}

#[test]
fn failing_chain_does_not_hide_later_chains() {
    assert_eq!(
        parse("a | b | c; echo ok;  ; x |"),
        vec![
            Err(Error::UnsupportedPipeline),
            Ok(Chain {
                elements: vec![cmd("echo", vec!["ok"])]
            }),
            Err(Error::NoBinary),
        ]
    );
}

#[test]
fn operators_are_only_classified() {
    assert_eq!(
        parse("&& a ||"),
        vec![Ok(Chain {
            elements: vec![
                ChainElement::Op(ChainOp::And),
                cmd("a", vec![]),
                ChainElement::Op(ChainOp::Or),
            ]
        })]
    );
}

#[test]
fn parse_chain_of_blank_segment() {
    assert_eq!(parse_chain(" \t "), None);
    assert_eq!(
        parse_chain(" echo  a\tb "),
        Some(Ok(Chain {
            elements: vec![cmd("echo", vec!["a", "b"])]
        }))
    );
}
