//! The statement model and the parser from one line to chains.
use vstd::prelude::*;
use vstd::string::StrSliceExecFns;
use crate::error::Error;
use crate::text::{lemma_span, lemma_span_bound, span, texts, tokenize, words};

verus! {

/// A plain command or a two-stage pipe.
#[derive(Debug, PartialEq)]
pub enum Statement<'a> {
    /// The standard output of `input` feeds the standard input of `output`.
    Pipe { input: Box<Statement<'a>>, output: Box<Statement<'a>> },
    /// A binary and its arguments.
    Cmd { binary: &'a str, args: Vec<&'a str> },
}

/// What a statement holds, as character sequences.
pub enum StatementModel {
    Pipe { input: Box<StatementModel>, output: Box<StatementModel> },
    Cmd { binary: Seq<char>, args: Seq<Seq<char>> },
}

impl<'a> Statement<'a> {
    pub open spec fn model(&self) -> StatementModel
        decreases self,
    {
        match self {
            Statement::Pipe { input, output } => StatementModel::Pipe {
                input: Box::new(input.model()),
                output: Box::new(output.model()),
            },
            Statement::Cmd { binary, args } => StatementModel::Cmd {
                binary: binary@,
                args: texts(args@),
            },
        }
    }
}

impl<'a> View for Statement<'a> {
    type V = StatementModel;

    open spec fn view(&self) -> StatementModel {
        self.model()
    }
}

pub open spec fn statement_result(r: Result<Statement, Error>) -> Result<StatementModel, Error> {
    match r {
        Ok(s) => Ok(s@),
        Err(e) => Err(e),
    }
}

/// The token `|`.
pub open spec fn is_pipe_token(t: Seq<char>) -> bool {
    t == seq!['|']
}

pub open spec fn pipe_stop() -> spec_fn(Seq<char>) -> bool {
    |t: Seq<char>| is_pipe_token(t)
}

/// A command span: its first token is the binary, the rest are its arguments.
pub open spec fn command_of(run: Seq<Seq<char>>) -> Result<StatementModel, Error> {
    if run.len() == 0 {
        Err(Error::NoBinary)
    } else {
        Ok(StatementModel::Cmd { binary: run[0], args: run.drop_first() })
    }
}

/// A run of tokens with no `|` is a command; with one `|`, a pipe of the
/// commands on either side; with more, an error.
pub open spec fn statement_of(run: Seq<Seq<char>>) -> Result<StatementModel, Error> {
    let k = span(run, pipe_stop()) as int;
    if k >= run.len() {
        command_of(run)
    } else if exists|i: int| k < i < run.len() && is_pipe_token(#[trigger] run[i]) {
        Err(Error::UnsupportedPipeline)
    } else {
        match command_of(run.take(k)) {
            Err(e) => Err(e),
            Ok(a) => match command_of(run.skip(k + 1)) {
                Err(e) => Err(e),
                Ok(b) => Ok(StatementModel::Pipe { input: Box::new(a), output: Box::new(b) }),
            },
        }
    }
}

fn is_pipe_text(t: &str) -> (r: bool)
    ensures
        r == is_pipe_token(t@),
{
    if t.unicode_len() == 1 {
        let c = t.get_char(0);
        if c == '|' {
            assert(t@ =~= seq!['|']);
        }
        c == '|'
    } else {
        false
    }
}

/// The command made of the tokens `tokens[lo..hi]`.
fn command_from<'a>(tokens: &Vec<&'a str>, lo: usize, hi: usize) -> (r: Result<Statement<'a>, Error>)
    requires
        lo <= hi <= tokens.len(),
    ensures
        statement_result(r) == command_of(texts(tokens@).subrange(lo as int, hi as int)),
{
    if lo == hi {
        return Err(Error::NoBinary);
    }
    let ghost run = texts(tokens@).subrange(lo as int, hi as int);
    let binary = tokens[lo];
    let mut args: Vec<&'a str> = Vec::new();
    let mut i: usize = lo + 1;
    while i < hi
        invariant
            lo < i <= hi <= tokens.len(),
            run == texts(tokens@).subrange(lo as int, hi as int),
            texts(args@) =~= run.subrange(1, i - lo),
        decreases hi - i,
    {
        let ghost before = args@;
        args.push(tokens[i]);
        assert(texts(args@) =~= texts(before) + seq![tokens@[i as int]@]);
        assert(run[i - lo] == tokens@[i as int]@);
        i = i + 1;
    }
    assert(texts(args@) =~= run.drop_first());
    Ok(Statement::Cmd { binary, args })
}

/// The statement made of the tokens `tokens[lo..hi]`.
fn statement_from<'a>(tokens: &Vec<&'a str>, lo: usize, hi: usize) -> (r: Result<Statement<'a>, Error>)
    requires
        lo <= hi <= tokens.len(),
    ensures
        statement_result(r) == statement_of(texts(tokens@).subrange(lo as int, hi as int)),
{
    let ghost all = texts(tokens@);
    let ghost run = all.subrange(lo as int, hi as int);
    let mut k: usize = lo;
    while k < hi && !is_pipe_text(tokens[k])
        invariant
            lo <= k <= hi <= tokens.len(),
            all == texts(tokens@),
            forall|i: int| lo <= i < k ==> !is_pipe_token(#[trigger] all[i]),
        decreases hi - k,
    {
        k = k + 1;
    }
    proof {
        assert forall|i: int| 0 <= i < k - lo implies !(#[trigger] pipe_stop()(run[i])) by {
            assert(run[i] == all[lo + i]);
        }
        if k < hi {
            assert(run[k - lo] == all[k as int]);
        }
        lemma_span(run, pipe_stop(), k - lo);
    }
    if k == hi {
        return command_from(tokens, lo, hi);
    }
    let mut m: usize = k + 1;
    while m < hi && !is_pipe_text(tokens[m])
        invariant
            k < m <= hi <= tokens.len(),
            all == texts(tokens@),
            forall|i: int| k < i < m ==> !is_pipe_token(#[trigger] all[i]),
        decreases hi - m,
    {
        m = m + 1;
    }
    if m < hi {
        assert(is_pipe_token(run[m - lo]));
        return Err(Error::UnsupportedPipeline);
    }
    assert forall|i: int| k - lo < i < run.len() implies !is_pipe_token(#[trigger] run[i]) by {
        assert(run[i] == all[lo + i]);
    }
    assert(run.take(k - lo) =~= all.subrange(lo as int, k as int));
    assert(run.skip(k - lo + 1) =~= all.subrange(k + 1, hi as int));
    let input = match command_from(tokens, lo, k) {
        Err(e) => return Err(e),
        Ok(s) => s,
    };
    let output = match command_from(tokens, k + 1, hi) {
        Err(e) => return Err(e),
        Ok(s) => s,
    };
    Ok(Statement::Pipe { input: Box::new(input), output: Box::new(output) })
}

/// A short-circuit operator between two chain elements.
#[derive(Debug, Clone, Copy, PartialEq, Eq, Structural)]
pub enum ChainOp {
    /// `&&`: run the next statement only after a success.
    And,
    /// `||`: run the next statement only after a failure.
    Or,
}

/// One element of a chain, in parse order.
#[derive(Debug, PartialEq)]
pub enum ChainElement<'a> {
    Stmt(Statement<'a>),
    Op(ChainOp),
}

pub enum ElementModel {
    Stmt(StatementModel),
    Op(ChainOp),
}

impl<'a> View for ChainElement<'a> {
    type V = ElementModel;

    open spec fn view(&self) -> ElementModel {
        match self {
            ChainElement::Stmt(s) => ElementModel::Stmt(s@),
            ChainElement::Op(op) => ElementModel::Op(*op),
        }
    }
}

pub open spec fn element_models(v: Seq<ChainElement>) -> Seq<ElementModel> {
    v.map_values(|e: ChainElement| e@)
}

/// One `;`-delimited segment of a line: statements joined by operators.
#[derive(Debug, PartialEq)]
pub struct Chain<'a> {
    pub elements: Vec<ChainElement<'a>>,
}

impl<'a> View for Chain<'a> {
    type V = Seq<ElementModel>;

    open spec fn view(&self) -> Seq<ElementModel> {
        element_models(self.elements@)
    }
}

pub open spec fn chain_result(r: Result<Chain, Error>) -> Result<Seq<ElementModel>, Error> {
    match r {
        Ok(c) => Ok(c@),
        Err(e) => Err(e),
    }
}

/// The operator that a token stands for, if any.
pub open spec fn op_of(t: Seq<char>) -> Option<ChainOp> {
    if t == seq!['&', '&'] {
        Some(ChainOp::And)
    } else if t == seq!['|', '|'] {
        Some(ChainOp::Or)
    } else {
        None
    }
}

pub open spec fn op_stop() -> spec_fn(Seq<char>) -> bool {
    |t: Seq<char>| op_of(t) is Some
}

pub open spec fn prepend(p: Seq<ElementModel>, r: Result<Seq<ElementModel>, Error>) -> Result<
    Seq<ElementModel>,
    Error,
> {
    match r {
        Ok(rest) => Ok(p + rest),
        Err(e) => Err(e),
    }
}

/// The elements of a chain with tokens `t`: each operator token is an
/// operator, and each maximal run of other tokens is one statement. The first
/// run that is no statement makes the whole chain an error.
pub open spec fn elements_of(t: Seq<Seq<char>>) -> Result<Seq<ElementModel>, Error>
    decreases t.len(),
{
    if t.len() == 0 {
        Ok(seq![])
    } else if let Some(op) = op_of(t[0]) {
        prepend(seq![ElementModel::Op(op)], elements_of(t.drop_first()))
    } else {
        let n = span(t, op_stop()) as int;
        proof {
            lemma_span_bound(t, op_stop());
        }
        match statement_of(t.take(n)) {
            Err(e) => Err(e),
            Ok(s) => prepend(seq![ElementModel::Stmt(s)], elements_of(t.skip(n))),
        }
    }
}

/// A segment with no tokens yields no chain; any other yields its chain or
/// the error that abandons it.
pub open spec fn chain_of(seg: Seq<char>) -> Option<Result<Seq<ElementModel>, Error>> {
    if words(seg).len() == 0 {
        None
    } else {
        Some(elements_of(words(seg)))
    }
}

pub open spec fn chain_fn() -> spec_fn(Seq<char>) -> Option<Result<Seq<ElementModel>, Error>> {
    |seg: Seq<char>| chain_of(seg)
}

/// The outcome for each segment of `line` that holds a token, in line order.
pub open spec fn parse_line(line: Seq<char>) -> Seq<Result<Seq<ElementModel>, Error>> {
    crate::text::pieces(line).filter_map(chain_fn())
}

fn op_from_text(t: &str) -> (r: Option<ChainOp>)
    ensures
        r == op_of(t@),
{
    if t.unicode_len() == 2 {
        let a = t.get_char(0);
        let b = t.get_char(1);
        if a == '&' && b == '&' {
            assert(t@ =~= seq!['&', '&']);
            Some(ChainOp::And)
        } else if a == '|' && b == '|' {
            assert(t@ =~= seq!['|', '|']);
            Some(ChainOp::Or)
        } else {
            assert(t@ != seq!['&', '&'] && t@ != seq!['|', '|']) by {
                if t@ == seq!['&', '&'] {
                    assert(t@[0] == '&' && t@[1] == '&');
                }
                if t@ == seq!['|', '|'] {
                    assert(t@[0] == '|' && t@[1] == '|');
                }
            }
            None
        }
    } else {
        None
    }
}

fn elements_from<'a>(tokens: &Vec<&'a str>) -> (r: Result<Vec<ChainElement<'a>>, Error>)
    ensures
        match r {
            Ok(v) => Ok(element_models(v@)),
            Err(e) => Err(e),
        } == elements_of(texts(tokens@)),
{
    let ghost all = texts(tokens@);
    let n = tokens.len();
    let mut out: Vec<ChainElement<'a>> = Vec::new();
    let mut i: usize = 0;
    assert(all.skip(0) =~= all);
    assert(element_models(out@) + seq![] =~= seq![]);
    assert(prepend(element_models(out@), elements_of(all)) =~= elements_of(all)) by {
        if let Ok(rest) = elements_of(all) {
            assert(element_models(out@) + rest =~= rest);
        }
    }
    while i < n
        invariant
            n == tokens.len(),
            i <= n,
            all == texts(tokens@),
            elements_of(all) == prepend(element_models(out@), elements_of(all.skip(i as int))),
        decreases n - i,
    {
        let ghost rest = all.skip(i as int);
        let ghost before = element_models(out@);
        if let Some(op) = op_from_text(tokens[i]) {
            assert(rest.drop_first() =~= all.skip(i + 1));
            out.push(ChainElement::Op(op));
            assert(element_models(out@) =~= before + seq![ElementModel::Op(op)]);
            assert(prepend(before, prepend(seq![ElementModel::Op(op)], elements_of(all.skip(i + 1))))
                == prepend(element_models(out@), elements_of(all.skip(i + 1)))) by {
                if let Ok(tail) = elements_of(all.skip(i + 1)) {
                    assert(before + (seq![ElementModel::Op(op)] + tail) =~= element_models(out@)
                        + tail);
                }
            }
            i = i + 1;
        } else {
            let mut j: usize = i + 1;
            while j < n && op_from_text(tokens[j]).is_none()
                invariant
                    n == tokens.len(),
                    i < j <= n,
                    all == texts(tokens@),
                    forall|k: int| i < k < j ==> op_of(#[trigger] all[k]) is None,
                decreases n - j,
            {
                j = j + 1;
            }
            proof {
                assert forall|k: int| 0 <= k < j - i implies !(#[trigger] op_stop()(rest[k])) by {
                    assert(rest[k] == all[i + k]);
                }
                if j < n {
                    assert(rest[j - i] == all[j as int]);
                }
                lemma_span(rest, op_stop(), j - i);
                assert(rest.take(j - i) =~= all.subrange(i as int, j as int));
                assert(rest.skip(j - i) =~= all.skip(j as int));
            }
            let st = match statement_from(tokens, i, j) {
                Err(e) => return Err(e),
                Ok(st) => st,
            };
            let ghost sm = st@;
            out.push(ChainElement::Stmt(st));
            assert(element_models(out@) =~= before + seq![ElementModel::Stmt(sm)]);
            assert(prepend(before, prepend(seq![ElementModel::Stmt(sm)], elements_of(all.skip(j as int))))
                == prepend(element_models(out@), elements_of(all.skip(j as int)))) by {
                if let Ok(tail) = elements_of(all.skip(j as int)) {
                    assert(before + (seq![ElementModel::Stmt(sm)] + tail) =~= element_models(out@)
                        + tail);
                }
            }
            i = j;
        }
    }
    assert(all.skip(n as int) =~= seq![]);
    assert(element_models(out@) + seq![] =~= element_models(out@));
    Ok(out)
}

/// Parses one `;`-free segment: `None` when it holds no token, else its
/// chain, or the error that abandons it.
pub fn parse_chain<'a>(segment: &'a str) -> (r: Option<Result<Chain<'a>, Error>>)
    ensures
        match r {
            None => None,
            Some(c) => Some(chain_result(c)),
        } == chain_of(segment@),
{
    let tokens = tokenize(segment);
    if tokens.len() == 0 {
        return None;
    }
    match elements_from(&tokens) {
        Ok(elements) => Some(Ok(Chain { elements })),
        Err(e) => Some(Err(e)),
    }
}

/// Parses a line into its chains, in line order: one entry for each
/// `;`-delimited segment that holds a token, the chain or the error that
/// abandons it. Segments without tokens are dropped.
pub fn parse<'a>(line: &'a str) -> (r: Vec<Result<Chain<'a>, Error>>)
    ensures
        r@.map_values(|c: Result<Chain<'a>, Error>| chain_result(c)) == parse_line(line@),
{
    let segments = crate::text::split_segments(line);
    let ghost segs = texts(segments@);
    let mut out: Vec<Result<Chain<'a>, Error>> = Vec::new();
    let mut i: usize = 0;
    assert(out@.map_values(|c: Result<Chain<'a>, Error>| chain_result(c)) =~= segs.take(0).filter_map(chain_fn()));
    while i < segments.len()
        invariant
            i <= segments.len(),
            segs == texts(segments@),
            segs == crate::text::pieces(line@),
            out@.map_values(|c: Result<Chain<'a>, Error>| chain_result(c)) == segs.take(i as int).filter_map(chain_fn()),
        decreases segments.len() - i,
    {
        let ghost before = out@.map_values(|c: Result<Chain<'a>, Error>| chain_result(c));
        assert(segs.take(i + 1).drop_last() =~= segs.take(i as int));
        assert(segs.take(i + 1).last() == segments@[i as int]@);
        if let Some(c) = parse_chain(segments[i]) {
            out.push(c);
            assert(out@.map_values(|c: Result<Chain<'a>, Error>| chain_result(c)) =~= before + seq![chain_result(c)]);
        }
        i = i + 1;
    }
    assert(segs.take(segments.len() as int) =~= segs);
    out
}

impl<'a> Statement<'a> {
    /// Parses `text` as one statement: its tokens with no `|` make a command,
    /// with one `|` a pipe of two commands. Operator tokens are plain words here.
    pub fn try_from(text: &'a str) -> (r: Result<Statement<'a>, Error>)
        ensures
            statement_result(r) == statement_of(words(text@)),
    {
        let tokens = tokenize(text);
        let r = statement_from(&tokens, 0, tokens.len());
        assert(texts(tokens@).subrange(0, tokens.len() as int) =~= texts(tokens@));
        r
    }
}

/// A line read as statements only, one for each `;`-delimited segment.
#[derive(Debug, PartialEq)]
pub struct Statements<'a>(pub Vec<Statement<'a>>);

impl<'a> View for Statements<'a> {
    type V = Seq<StatementModel>;

    open spec fn view(&self) -> Seq<StatementModel> {
        self.0@.map_values(|s: Statement<'a>| s@)
    }
}

/// The statement of each segment in turn, or the error of the first segment
/// that is no statement.
pub open spec fn statements_of(segs: Seq<Seq<char>>) -> Result<Seq<StatementModel>, Error>
    decreases segs.len(),
{
    if segs.len() == 0 {
        Ok(seq![])
    } else {
        match statements_of(segs.drop_last()) {
            Err(e) => Err(e),
            Ok(v) => match statement_of(words(segs.last())) {
                Err(e) => Err(e),
                Ok(s) => Ok(v.push(s)),
            },
        }
    }
}

impl<'a> Statements<'a> {
    /// Parses every `;`-delimited segment of `line` as one statement; an empty
    /// segment is a `NoBinary` error here, not skipped.
    pub fn try_from(line: &'a str) -> (r: Result<Statements<'a>, Error>)
        ensures
            match r {
                Ok(v) => Ok(v@),
                Err(e) => Err(e),
            } == statements_of(crate::text::pieces(line@)),
    {
        let segments = crate::text::split_segments(line);
        let ghost segs = texts(segments@);
        let mut out: Vec<Statement<'a>> = Vec::new();
        let mut i: usize = 0;
        assert(segs.take(0) =~= seq![]);
        assert(out@.map_values(|s: Statement<'a>| s@) =~= seq![]);
        while i < segments.len()
            invariant
                i <= segments.len(),
                segs == texts(segments@),
                segs == crate::text::pieces(line@),
                statements_of(segs.take(i as int)) == Ok::<Seq<StatementModel>, Error>(
                    out@.map_values(|s: Statement<'a>| s@),
                ),
            decreases segments.len() - i,
        {
            assert(segs.take(i + 1).drop_last() =~= segs.take(i as int));
            assert(segs.take(i + 1).last() == segments@[i as int]@);
            let ghost before = out@.map_values(|s: Statement<'a>| s@);
            match Statement::try_from(segments[i]) {
                Err(e) => {
                    proof {
                        lemma_statements_error(segs, i + 1);
                    }
                    return Err(e);
                },
                Ok(st) => {
                    out.push(st);
                    assert(out@.map_values(|s: Statement<'a>| s@) =~= before.push(st@));
                },
            }
            i = i + 1;
        }
        assert(segs.take(segments.len() as int) =~= segs);
        Ok(Statements(out))
    }
}

/// An error on a prefix of the segments is the error of all of them.
proof fn lemma_statements_error(segs: Seq<Seq<char>>, k: int)
    requires
        0 <= k <= segs.len(),
        statements_of(segs.take(k)) is Err,
    ensures
        statements_of(segs) == statements_of(segs.take(k)),
    decreases segs.len() - k,
{
    if k < segs.len() {
        assert(segs.take(k + 1).drop_last() =~= segs.take(k));
        lemma_statements_error(segs, k + 1);
    } else {
        assert(segs.take(k) =~= segs);
    }
}

/// A line of whitespace and `;` alone parses to no chain.
pub proof fn lemma_blank_line_no_chains(line: Seq<char>)
    requires
        forall|i: int| 0 <= i < line.len() ==> crate::text::is_space(#[trigger] line[i]) || line[i] == ';',
    ensures
        parse_line(line).len() == 0,
{
    let segs = crate::text::pieces(line);
    crate::text::lemma_blank_pieces(line);
    assert forall|j: int| 0 <= j < segs.len() implies #[trigger] chain_of(segs[j]) is None by {
        assert forall|i: int| 0 <= i < segs[j].len() implies crate::text::is_space(
            #[trigger] segs[j][i],
        ) by {
            assert(crate::text::is_space(segs[j][i]));
        }
        crate::text::lemma_blank_words(segs[j]);
    }
    lemma_no_chains(segs);
}

proof fn lemma_no_chains(segs: Seq<Seq<char>>)
    requires
        forall|j: int| 0 <= j < segs.len() ==> #[trigger] chain_of(segs[j]) is None,
    ensures
        segs.filter_map(chain_fn()).len() == 0,
    decreases segs.len(),
{
    if segs.len() > 0 {
        let rest = segs.drop_last();
        assert forall|j: int| 0 <= j < rest.len() implies #[trigger] chain_of(rest[j]) is None by {
            assert(rest[j] == segs[j]);
        }
        assert(chain_of(segs[segs.len() - 1]) is None);
        lemma_no_chains(rest);
    }
}

} // verus!
