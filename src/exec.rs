//! The executor's decisions. The interpreter runs processes; this module
//! decides what runs next and what a chain's status is.
//!
//! A chain is driven as a state machine: `Progress::step` names the next
//! statement to run, or ends the chain; `Progress::record` takes the status
//! of the statement that was run.
use vstd::prelude::*;
use crate::builtin::{builtin_of, exit_code, exit_code_of, lookup, Builtin};
use crate::cmd::{Chain, ChainElement, ChainOp, ElementModel, Statement, StatementModel};
use crate::error::Error;
use crate::text::{texts, tokenize, words};

verus! {

/// What the interpreter does next for a chain.
#[derive(Debug, Clone, Copy, PartialEq, Eq, Structural)]
pub enum Action {
    /// Evaluate the statement at this index, then record its status.
    Run(usize),
    /// The chain is over, with this status (none where it ended on an operator).
    Done(Option<bool>),
    /// The chain is abandoned with this error.
    Abandon(Error),
}

/// The state carried across one chain: the index of the next element and
/// the status of the last statement, `true` for success.
#[derive(Debug, Clone, Copy, PartialEq, Eq, Structural)]
pub struct Progress {
    pub next: usize,
    pub last: Option<bool>,
}

/// Whether `op` ends the chain after a statement whose success is `ok`.
pub open spec fn short_circuits(op: ChainOp, ok: bool) -> bool {
    match op {
        ChainOp::And => !ok,
        ChainOp::Or => ok,
    }
}

/// One step of chain evaluation: operators are passed over until a
/// statement is to run or the chain ends.
pub open spec fn advance(elems: Seq<ElementModel>, p: Progress) -> (Action, Progress)
    decreases elems.len() - p.next,
    when elems.len() <= usize::MAX
{
    if p.next >= elems.len() {
        (Action::Done(p.last), p)
    } else {
        match elems[p.next as int] {
            ElementModel::Stmt(_) => (
                Action::Run(p.next),
                Progress { next: (p.next + 1) as usize, last: p.last },
            ),
            ElementModel::Op(op) => match p.last {
                None => (
                    Action::Abandon(Error::DanglingOperator),
                    Progress { next: elems.len() as usize, last: None },
                ),
                Some(ok) => if short_circuits(op, ok) {
                    (Action::Done(Some(ok)), Progress { next: elems.len() as usize, last: Some(ok) })
                } else {
                    advance(elems, Progress { next: (p.next + 1) as usize, last: None })
                },
            },
        }
    }
}

impl Progress {
    /// The state before a chain's first element.
    pub fn start() -> (r: Progress)
        ensures
            r == (Progress { next: 0, last: None }),
    {
        Progress { next: 0, last: None }
    }

    /// Decides what to do next for `chain`.
    pub fn step(&mut self, chain: &Chain) -> (a: Action)
        ensures
            (a, *final(self)) == advance(chain@, *old(self)),
    {
        let n = chain.elements.len();
        let ghost elems = chain@;
        let ghost goal = advance(elems, *self);
        loop
            invariant
                n == chain.elements@.len(),
                elems == chain@,
                elems.len() == n,
                goal == advance(elems, *self),
                goal == advance(chain@, *old(self)),
            decreases n - self.next,
        {
            if self.next >= n {
                return Action::Done(self.last);
            }
            let i = self.next;
            assert(elems[i as int] == chain.elements@[i as int]@);
            match &chain.elements[i] {
                ChainElement::Stmt(_) => {
                    self.next = i + 1;
                    return Action::Run(i);
                },
                ChainElement::Op(op) => match self.last {
                    None => {
                        self.next = n;
                        return Action::Abandon(Error::DanglingOperator);
                    },
                    Some(ok) => {
                        let stop = match op {
                            ChainOp::And => !ok,
                            ChainOp::Or => ok,
                        };
                        if stop {
                            self.next = n;
                            return Action::Done(Some(ok));
                        }
                        self.next = i + 1;
                        self.last = None;
                    },
                },
            }
        }
    }

    /// Takes the status of the statement that the last step named.
    pub fn record(&mut self, ok: bool)
        ensures
            *final(self) == (Progress { next: old(self).next, last: Some(ok) }),
    {
        self.last = Some(ok);
    }
}

/// A command ready to be spawned: a program and its arguments.
#[derive(Debug, PartialEq)]
pub struct Cmd {
    pub program: String,
    pub args: Vec<String>,
}

pub open spec fn strings(v: Seq<String>) -> Seq<Seq<char>> {
    v.map_values(|s: String| s@)
}

impl View for Cmd {
    type V = StatementModel;

    open spec fn view(&self) -> StatementModel {
        StatementModel::Cmd { binary: self.program@, args: strings(self.args@) }
    }
}

impl Cmd {
    /// The command with program `binary` and arguments `args`.
    pub fn from_parts(binary: &str, args: &Vec<&str>) -> (r: Cmd)
        ensures
            r@ == (StatementModel::Cmd { binary: binary@, args: texts(args@) }),
    {
        let mut owned: Vec<String> = Vec::new();
        let mut i: usize = 0;
        while i < args.len()
            invariant
                i <= args.len(),
                strings(owned@) =~= texts(args@).take(i as int),
            decreases args.len() - i,
        {
            let ghost before = owned@;
            owned.push(args[i].to_owned());
            assert(strings(owned@) =~= strings(before) + seq![args@[i as int]@]);
            i = i + 1;
        }
        assert(texts(args@).take(args.len() as int) =~= texts(args@));
        Cmd { program: binary.to_owned(), args: owned }
    }

    /// The command whose program is the first token of `text` and whose
    /// arguments are the tokens after it.
    pub fn from_string(text: &str) -> (r: Cmd)
        requires
            words(text@).len() > 0,
        ensures
            r@ == (StatementModel::Cmd { binary: words(text@)[0], args: words(text@).drop_first() }),
    {
        let tokens = tokenize(text);
        let mut args: Vec<&str> = Vec::new();
        let mut i: usize = 1;
        while i < tokens.len()
            invariant
                1 <= i <= tokens.len(),
                texts(tokens@) == words(text@),
                texts(args@) =~= texts(tokens@).subrange(1, i as int),
            decreases tokens.len() - i,
        {
            let ghost before = args@;
            args.push(tokens[i]);
            assert(texts(args@) =~= texts(before) + seq![tokens@[i as int]@]);
            i = i + 1;
        }
        assert(texts(tokens@).drop_first() =~= texts(tokens@).subrange(1, tokens.len() as int));
        assert(texts(tokens@)[0] == tokens@[0]@);
        Cmd::from_parts(tokens[0], &args)
    }
}

/// How one statement is evaluated.
#[derive(Debug)]
pub enum Dispatch {
    /// Terminate the interpreter with this status.
    Exit(i32),
    /// Spawn this command and wait for it.
    Spawn(Cmd),
    /// Spawn both, the first writing into a pipe that the second reads; wait
    /// for the second.
    Pipe(Cmd, Cmd),
    /// Evaluation fails with this error.
    Fail(Error),
}

pub enum DispatchModel {
    Exit(i32),
    Spawn(StatementModel),
    Pipe(StatementModel, StatementModel),
    Fail(Error),
}

impl View for Dispatch {
    type V = DispatchModel;

    open spec fn view(&self) -> DispatchModel {
        match self {
            Dispatch::Exit(c) => DispatchModel::Exit(*c),
            Dispatch::Spawn(c) => DispatchModel::Spawn(c@),
            Dispatch::Pipe(a, b) => DispatchModel::Pipe(a@, b@),
            Dispatch::Fail(e) => DispatchModel::Fail(*e),
        }
    }
}

/// A command naming a builtin runs it in-process; any other command is
/// spawned. A pipe spawns both sides, which must be plain commands.
pub open spec fn dispatch_of(s: StatementModel) -> DispatchModel {
    match s {
        StatementModel::Cmd { binary, args } => match builtin_of(binary) {
            Some(Builtin::Exit) => match exit_code_of(args) {
                Ok(c) => DispatchModel::Exit(c),
                Err(e) => DispatchModel::Fail(e),
            },
            None => DispatchModel::Spawn(s),
        },
        StatementModel::Pipe { input, output } => if *input is Cmd && *output is Cmd {
            DispatchModel::Pipe(*input, *output)
        } else {
            DispatchModel::Fail(Error::UnsupportedPipeline)
        },
    }
}

/// Decides how `stmt` is evaluated.
pub fn dispatch(stmt: &Statement) -> (r: Dispatch)
    ensures
        r@ == dispatch_of(stmt@),
{
    match stmt {
        Statement::Cmd { binary, args } => match lookup(*binary) {
            Some(Builtin::Exit) => match exit_code(args) {
                Ok(c) => Dispatch::Exit(c),
                Err(e) => Dispatch::Fail(e),
            },
            None => Dispatch::Spawn(Cmd::from_parts(binary, args)),
        },
        Statement::Pipe { input, output } => {
            assert(stmt@ == (StatementModel::Pipe {
                input: Box::new(input.model()),
                output: Box::new(output.model()),
            }));
            match (&**input, &**output) {
                (
                    Statement::Cmd { binary: b1, args: a1 },
                    Statement::Cmd { binary: b2, args: a2 },
                ) => {
                    assert(input@ == (StatementModel::Cmd { binary: b1@, args: texts(a1@) }));
                    assert(output@ == (StatementModel::Cmd { binary: b2@, args: texts(a2@) }));
                    Dispatch::Pipe(Cmd::from_parts(b1, a1), Cmd::from_parts(b2, a2))
                },
                _ => {
                    assert(!(input@ is Cmd) || !(output@ is Cmd));
                    Dispatch::Fail(Error::UnsupportedPipeline)
                },
            }
        },
    }
}

/// After the statement before an `&&` has run with status `ok`, the statement
/// after the `&&` runs if `ok` holds, and the chain ends in failure otherwise.
pub proof fn lemma_and_runs_next_only_after_success(
    elems: Seq<ElementModel>,
    i: usize,
    ok: bool,
)
    requires
        elems.len() <= usize::MAX,
        i + 2 < elems.len(),
        elems[i + 1] == ElementModel::Op(ChainOp::And),
        elems[i + 2] is Stmt,
    ensures
        advance(elems, Progress { next: (i + 1) as usize, last: Some(ok) }).0 == (if ok {
            Action::Run((i + 2) as usize)
        } else {
            Action::Done(Some(false))
        }),
{
    if ok {
        assert(advance(elems, Progress { next: (i + 2) as usize, last: None }).0 == Action::Run(
            (i + 2) as usize,
        ));
    }
}

/// After the statement before an `||` has run with status `ok`, the statement
/// after the `||` runs if `ok` fails, and the chain ends in success otherwise.
pub proof fn lemma_or_runs_next_only_after_failure(
    elems: Seq<ElementModel>,
    i: usize,
    ok: bool,
)
    requires
        elems.len() <= usize::MAX,
        i + 2 < elems.len(),
        elems[i + 1] == ElementModel::Op(ChainOp::Or),
        elems[i + 2] is Stmt,
    ensures
        advance(elems, Progress { next: (i + 1) as usize, last: Some(ok) }).0 == (if ok {
            Action::Done(Some(true))
        } else {
            Action::Run((i + 2) as usize)
        }),
{
    if !ok {
        assert(advance(elems, Progress { next: (i + 2) as usize, last: None }).0 == Action::Run(
            (i + 2) as usize,
        ));
    }
}

} // verus!
