use vstd::prelude::*;
use crate::cmd::Cmd;
use crate::error::ShellError;

verus! {

/// The expression tree of one line.
#[allow(inconsistent_fields)]
#[derive(Debug)]
pub enum Expr {
    Cmd(Cmd),
    /// `left | right`: the output of `left` is the input of `right`.
    Pipe { left: Box<Expr>, right: Box<Expr> },
    /// `left & right`: `left` runs in a duplicate process while `right`, if
    /// any, runs here.
    Fork { left: Box<Expr>, right: Option<Box<Expr>> },
}

/// What an evaluation asks of its driver next.
#[derive(Debug)]
pub enum Step {
    /// Run this command with this input (the output of the stage before it)
    /// and answer with `Reply::Ran`.
    Run(Cmd, Option<String>),
    /// Duplicate the process and answer with `Reply::Parent`, `Reply::Child`
    /// or `Reply::ForkFailed`, in each of the two processes.
    Fork,
    /// In a duplicate process: print the output, if any, and end the process
    /// with status 0.
    ExitChild(Option<String>),
    /// The evaluation is over, with this output or error.
    Done(Result<String, ShellError>),
}

/// What the driver reports back.
#[derive(Debug)]
pub enum Reply {
    /// The command of the last `Step::Run` gave this output or error.
    Ran(Result<String, ShellError>),
    /// This process is the original one; the duplicate has this process id.
    Parent(i32),
    /// This process is the duplicate.
    Child,
    /// The process could not be duplicated.
    ForkFailed(String),
}

/// Where an evaluation stands between two steps.
pub struct Evaluation {
    /// Right sides of pipes waiting for output, the innermost last.
    pipes: Vec<Expr>,
    /// The fork node whose duplication has been asked for, with its input.
    forking: Option<(Box<Expr>, Option<Box<Expr>>, Option<String>)>,
    /// Whether this is the duplicate process of a fork.
    in_child: bool,
}

pub enum StepView {
    Run(Cmd, Option<Seq<char>>),
    Fork,
    ExitChild(Option<Seq<char>>),
    Done(Result<Seq<char>, ShellError>),
}

pub struct EvaluationView {
    pub pipes: Seq<Expr>,
    pub forking: Option<(Expr, Option<Box<Expr>>, Option<Seq<char>>)>,
    pub in_child: bool,
}

pub open spec fn text_of(s: Option<String>) -> Option<Seq<char>> {
    match s {
        Some(s) => Some(s@),
        None => None,
    }
}

impl View for Step {
    type V = StepView;

    open spec fn view(&self) -> StepView {
        match self {
            Step::Run(c, input) => StepView::Run(*c, text_of(*input)),
            Step::Fork => StepView::Fork,
            Step::ExitChild(out) => StepView::ExitChild(text_of(*out)),
            Step::Done(Ok(s)) => StepView::Done(Ok(s@)),
            Step::Done(Err(e)) => StepView::Done(Err(*e)),
        }
    }
}

impl View for Evaluation {
    type V = EvaluationView;

    closed spec fn view(&self) -> EvaluationView {
        EvaluationView {
            pipes: self.pipes@,
            forking: match self.forking {
                Some((l, r, input)) => Some((*l, r, text_of(input))),
                None => None,
            },
            in_child: self.in_child,
        }
    }
}

/// The right sides of the pipes on the left spine of `e`, outermost first.
pub open spec fn pending(e: Expr) -> Seq<Expr>
    decreases e,
{
    match e {
        Expr::Pipe { left, right } => seq![*right] + pending(*left),
        _ => Seq::empty(),
    }
}

/// The first node of `e` to run: the end of its left spine of pipes.
pub open spec fn leftmost(e: Expr) -> Expr
    decreases e,
{
    match e {
        Expr::Pipe { left, .. } => leftmost(*left),
        _ => e,
    }
}

pub open spec fn spine(e: Expr) -> nat
    decreases e,
{
    match e {
        Expr::Pipe { left, .. } => 1 + spine(*left),
        _ => 0,
    }
}

/// Starting `e` with `input` on top of the waiting pipes: its first node
/// runs with that input, the right sides of its pipes wait.
pub open spec fn descend(e: Expr, input: Option<Seq<char>>, pipes: Seq<Expr>, in_child: bool) -> (
    EvaluationView,
    StepView,
) {
    let waiting = pipes + pending(e);
    match leftmost(e) {
        Expr::Fork { left, right } => (
            EvaluationView { pipes: waiting, forking: Some((*left, right, input)), in_child },
            StepView::Fork,
        ),
        Expr::Cmd(c) => (
            EvaluationView { pipes: waiting, forking: None, in_child },
            StepView::Run(c, input),
        ),
        Expr::Pipe { .. } => (
            EvaluationView { pipes: waiting, forking: None, in_child },
            StepView::Done(Ok(Seq::empty())),
        ),
    }
}

/// The end of an evaluation: its result, or in a duplicate process the
/// output to print before the process ends (nothing after an error).
pub open spec fn finish(in_child: bool, r: Result<Seq<char>, ShellError>) -> (
    EvaluationView,
    StepView,
) {
    (
        EvaluationView { pipes: Seq::empty(), forking: None, in_child },
        if in_child {
            StepView::ExitChild(
                match r {
                    Ok(s) => Some(s),
                    Err(_) => None,
                },
            )
        } else {
            StepView::Done(r)
        },
    )
}

/// The output `out` of the node just evaluated goes to the innermost waiting
/// pipe, or ends the evaluation.
pub open spec fn deliver(v: EvaluationView, out: Seq<char>) -> (EvaluationView, StepView) {
    if v.pipes.len() > 0 {
        descend(v.pipes.last(), Some(out), v.pipes.drop_last(), v.in_child)
    } else {
        finish(v.in_child, Ok(out))
    }
}

/// The next state and step after `ev` in state `v`: an error ends the
/// evaluation at once; in the original process a fork goes on with its right
/// side, or gives empty output; the duplicate evaluates the left side alone.
pub open spec fn after(v: EvaluationView, ev: Reply) -> (EvaluationView, StepView) {
    match ev {
        Reply::Ran(Ok(out)) => deliver(v, out@),
        Reply::Ran(Err(e)) => finish(v.in_child, Err(e)),
        Reply::ForkFailed(msg) => finish(v.in_child, Err(ShellError::ForkFailure(msg))),
        Reply::Parent(_) => {
            let (_, right, input) = v.forking->0;
            let w = EvaluationView { forking: None, ..v };
            match right {
                Some(r) => descend(*r, input, v.pipes, v.in_child),
                None => deliver(w, Seq::empty()),
            }
        },
        Reply::Child => {
            let (left, _, input) = v.forking->0;
            descend(left, input, Seq::empty(), true)
        },
    }
}

pub open spec fn answers_fork(ev: Reply) -> bool {
    ev is Parent || ev is Child || ev is ForkFailed
}

impl Evaluation {
    /// Whether the evaluation waits for the answer to a `Step::Fork`.
    pub open spec fn awaits_fork(&self) -> bool {
        self@.forking is Some
    }

    fn descend_exec(e: Expr, input: Option<String>, pipes: Vec<Expr>, in_child: bool) -> (r: (
        Evaluation,
        Step,
    ))
        ensures
            (r.0@, r.1@) == descend(e, text_of(input), pipes@, in_child),
        decreases spine(e),
    {
        match e {
            Expr::Pipe { left, right } => {
                let mut pipes = pipes;
                let ghost p0 = pipes@;
                pipes.push(*right);
                let r = Evaluation::descend_exec(*left, input, pipes, in_child);
                proof {
                    assert(p0.push(*right) + pending(*left) =~= p0 + (seq![*right] + pending(
                        *left,
                    )));
                }
                r
            },
            Expr::Cmd(c) => {
                proof {
                    assert(pipes@ + pending(Expr::Cmd(c)) =~= pipes@);
                }
                (Evaluation { pipes, forking: None, in_child }, Step::Run(c, input))
            },
            Expr::Fork { left, right } => {
                proof {
                    assert(pipes@ + pending(Expr::Fork { left, right }) =~= pipes@);
                }
                (Evaluation { pipes, forking: Some((left, right, input)), in_child }, Step::Fork)
            },
        }
    }

    fn finish_exec(in_child: bool, r: Result<String, ShellError>) -> (s: (Evaluation, Step))
        ensures
            (s.0@, s.1@) == finish(
                in_child,
                match r {
                    Ok(o) => Ok(o@),
                    Err(e) => Err(e),
                },
            ),
    {
        let step = if in_child {
            Step::ExitChild(
                match r {
                    Ok(o) => Some(o),
                    Err(_) => None,
                },
            )
        } else {
            Step::Done(r)
        };
        (Evaluation { pipes: Vec::new(), forking: None, in_child }, step)
    }

    fn deliver_exec(self, out: String) -> (r: (Evaluation, Step))
        requires
            !self.awaits_fork(),
        ensures
            (r.0@, r.1@) == deliver(self@, out@),
    {
        let mut pipes = self.pipes;
        match pipes.pop() {
            Some(next) => Evaluation::descend_exec(next, Some(out), pipes, self.in_child),
            None => Evaluation::finish_exec(self.in_child, Ok(out)),
        }
    }

    /// Begins evaluating `e` with `input` in the original process.
    pub fn start(e: Expr, input: Option<String>) -> (r: (Evaluation, Step))
        ensures
            (r.0@, r.1@) == descend(e, text_of(input), Seq::empty(), false),
    {
        Evaluation::descend_exec(e, input, Vec::new(), false)
    }

    /// Takes the driver's answer to the last step and gives the next one.
    /// After `Step::Fork` the answer is a fork event; after `Step::Run`, a
    /// `Ran`.
    pub fn resume(self, ev: Reply) -> (r: (Evaluation, Step))
        requires
            self.awaits_fork() == answers_fork(ev),
        ensures
            (r.0@, r.1@) == after(self@, ev),
    {
        let in_child = self.in_child;
        match ev {
            Reply::Ran(Ok(out)) => self.deliver_exec(out),
            Reply::Ran(Err(e)) => Evaluation::finish_exec(in_child, Err(e)),
            Reply::ForkFailed(msg) => Evaluation::finish_exec(
                in_child,
                Err(ShellError::ForkFailure(msg)),
            ),
            Reply::Parent(_) => {
                let Evaluation { pipes, forking, in_child } = self;
                let (_, right, input) = forking.unwrap();
                match right {
                    Some(r) => Evaluation::descend_exec(*r, input, pipes, in_child),
                    None => {
                        let rest = Evaluation { pipes, forking: None, in_child };
                        rest.deliver_exec(String::new())
                    },
                }
            },
            Reply::Child => {
                let (left, _, input) = self.forking.unwrap();
                Evaluation::descend_exec(*left, input, Vec::new(), true)
            },
        }
    }
}

} // verus!

verus! {

/// A pipe threads data: `a | b` first runs `a` with the caller's input, and
/// the output of `a` becomes the input of `b`.
pub proof fn lemma_pipe_threads_output(a: Cmd, b: Cmd, input: Option<Seq<char>>, out: String)
    ensures
        ({
            let e = Expr::Pipe { left: Box::new(Expr::Cmd(a)), right: Box::new(Expr::Cmd(b)) };
            let (v, s) = descend(e, input, Seq::empty(), false);
            &&& s == StepView::Run(a, input)
            &&& after(v, Reply::Ran(Ok(out))).1 == StepView::Run(b, Some(out@))
        }),
{
    let e = Expr::Pipe { left: Box::new(Expr::Cmd(a)), right: Box::new(Expr::Cmd(b)) };
    let (v, s) = descend(e, input, Seq::empty(), false);
    assert(pending(Expr::Cmd(a)) =~= Seq::<Expr>::empty());
    assert(pending(e) == seq![Expr::Cmd(b)] + pending(Expr::Cmd(a)));
    assert(pending(e) =~= seq![Expr::Cmd(b)]);
    assert(leftmost(Expr::Cmd(a)) == Expr::Cmd(a));
    assert(leftmost(e) == leftmost(Expr::Cmd(a)));
    assert(v.pipes =~= seq![Expr::Cmd(b)]);
    assert(v.pipes.drop_last() + pending(Expr::Cmd(b)) =~= Seq::<Expr>::empty());
}

/// A failure ends the evaluation of the original process with that failure:
/// no waiting stage runs after it.
pub proof fn lemma_failure_stops(v: EvaluationView, e: ShellError)
    requires
        !v.in_child,
    ensures
        after(v, Reply::Ran(Err(e))).1 == StepView::Done(Err(e)),
{
}

/// A trailing `&` does not wait: once the process is duplicated, the
/// original process is done at once, with empty output.
pub proof fn lemma_background_returns(left: Expr, input: Option<Seq<char>>, pid: i32)
    ensures
        ({
            let e = Expr::Fork { left: Box::new(left), right: None };
            let (v, s) = descend(e, input, Seq::empty(), false);
            &&& s == StepView::Fork
            &&& after(v, Reply::Parent(pid)).1 == StepView::Done(Ok(Seq::<char>::empty()))
        }),
{
    let e = Expr::Fork { left: Box::new(left), right: None };
    assert(Seq::<Expr>::empty() + pending(e) =~= Seq::<Expr>::empty());
}

/// The duplicate process of `a & ...` runs `a` alone with the fork's input,
/// then ends, printing the output of `a` or nothing if `a` failed.
pub proof fn lemma_child_runs_left(
    a: Cmd,
    right: Option<Box<Expr>>,
    input: Option<Seq<char>>,
    ran: Result<String, ShellError>,
)
    ensures
        ({
            let e = Expr::Fork { left: Box::new(Expr::Cmd(a)), right };
            let (v, _) = descend(e, input, Seq::empty(), false);
            let (w, s) = after(v, Reply::Child);
            &&& s == StepView::Run(a, input)
            &&& after(w, Reply::Ran(ran)).1 == StepView::ExitChild(
                match ran {
                    Ok(o) => Some(o@),
                    Err(_) => None,
                },
            )
        }),
{
    let e = Expr::Fork { left: Box::new(Expr::Cmd(a)), right };
    assert(Seq::<Expr>::empty() + pending(e) =~= Seq::<Expr>::empty());
    assert(Seq::<Expr>::empty() + pending(Expr::Cmd(a)) =~= Seq::<Expr>::empty());
}

} // verus!

verus! {

/// Starting `left | right` starts `left` with the same input, with `right`
/// waiting on top of the pipes for its output.
pub proof fn lemma_pipe_starts_left(
    left: Expr,
    right: Expr,
    input: Option<Seq<char>>,
    pipes: Seq<Expr>,
    in_child: bool,
)
    ensures
        descend(Expr::Pipe { left: Box::new(left), right: Box::new(right) }, input, pipes, in_child)
            == descend(left, input, pipes.push(right), in_child),
{
    let e = Expr::Pipe { left: Box::new(left), right: Box::new(right) };
    assert(pipes + pending(e) =~= pipes.push(right) + pending(left));
}

/// When the stage under way ends with output `out`, the innermost waiting
/// right side starts with exactly that output as its input; when it fails,
/// the evaluation ends with that failure and no waiting side starts.
pub proof fn lemma_output_feeds_waiting(v: EvaluationView, right: Expr, out: String, e: ShellError)
    requires
        v.pipes.len() > 0,
        v.pipes.last() == right,
    ensures
        after(v, Reply::Ran(Ok(out))) == descend(right, Some(out@), v.pipes.drop_last(), v.in_child),
        after(v, Reply::Ran(Err(e))) == finish(v.in_child, Err(e)),
        after(v, Reply::Ran(Err(e))).0.pipes.len() == 0,
{
}

} // verus!
