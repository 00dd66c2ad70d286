//! Operator-precedence evaluation order. Tokens are read left to right with
//! an operator stack, as in the shunting-yard method, and the operands and
//! operator applications are written out as a postfix program. Running that
//! program over a value stack gives the value of the expression; the only
//! outcome that depends on the values themselves is a division by zero.
use vstd::prelude::*;
use crate::lexer::texts;
use crate::vars::Vars;

verus! {

/// A binary arithmetic operator.
#[derive(Clone, Copy, Debug, PartialEq, Eq, Structural)]
pub enum Op {
    Add,
    Sub,
    Mul,
    Div,
}

/// Why an evaluation fails.
#[derive(Clone, Copy, Debug, PartialEq, Eq, Structural)]
pub enum EvalError {
    /// A token that is no number, no bound name, no parenthesis and no operator.
    InvalidToken,
    /// An operator met fewer than two operands, or nothing was left to return.
    InvalidExpression,
    /// A division whose right operand is zero.
    DivisionByZero,
    /// Something other than an operator reached the point of application.
    UnknownOperator,
}

impl EvalError {
    /// The text shown for this error.
    pub fn message(&self) -> (r: String)
        ensures
            r@ == error_text(*self),
    {
        proof {
            reveal_strlit("Invalid token");
            reveal_strlit("Invalid expression");
            reveal_strlit("Division by zero");
            reveal_strlit("Unknown operator");
        }
        match self {
            EvalError::InvalidToken => String::from_str("Invalid token"),
            EvalError::InvalidExpression => String::from_str("Invalid expression"),
            EvalError::DivisionByZero => String::from_str("Division by zero"),
            EvalError::UnknownOperator => String::from_str("Unknown operator"),
        }
    }
}

/// The text shown for each error.
pub open spec fn error_text(e: EvalError) -> Seq<char> {
    match e {
        EvalError::InvalidToken => "Invalid token"@,
        EvalError::InvalidExpression => "Invalid expression"@,
        EvalError::DivisionByZero => "Division by zero"@,
        EvalError::UnknownOperator => "Unknown operator"@,
    }
}

/// One instruction of a postfix program. Token positions index the token
/// sequence that the program was made from.
#[derive(Clone, Copy, Debug, PartialEq, Eq, Structural)]
pub enum Step {
    /// Push the number that the token at this position spells.
    Literal(usize),
    /// Push the value bound to the name at this position.
    Variable(usize),
    /// Pop `b`, then `a`, and push `a op b`.
    Apply(Op),
    /// Stop with this error.
    Fail(EvalError),
}

/// What a token stands for at evaluation time.
#[derive(Clone, Copy, Debug, PartialEq, Eq, Structural)]
pub enum Kind {
    Literal,
    Variable,
    Open,
    Close,
    Operator(Op),
    Invalid,
}

/// A number literal comes first, then a bound name, then the fixed symbols.
pub open spec fn kind_of(t: Seq<char>, numeric: bool, bound: bool) -> Kind {
    if numeric {
        Kind::Literal
    } else if bound {
        Kind::Variable
    } else if t == seq!['('] {
        Kind::Open
    } else if t == seq![')'] {
        Kind::Close
    } else if let Some(op) = op_of(t) {
        Kind::Operator(op)
    } else {
        Kind::Invalid
    }
}

/// The operator that a token spells, if it is exactly one of `+ - * /`.
pub open spec fn op_of(t: Seq<char>) -> Option<Op> {
    if t == seq!['+'] {
        Some(Op::Add)
    } else if t == seq!['-'] {
        Some(Op::Sub)
    } else if t == seq!['*'] {
        Some(Op::Mul)
    } else if t == seq!['/'] {
        Some(Op::Div)
    } else {
        None
    }
}

/// Binding strength: 1 for `+ -`, 2 for `* /`, 0 for anything else.
pub open spec fn precedence_of(op: Seq<char>) -> i32 {
    if op == seq!['+'] || op == seq!['-'] {
        1
    } else if op == seq!['*'] || op == seq!['/'] {
        2
    } else {
        0
    }
}

/// The only character of `t`, if it has exactly one.
fn single_char(t: &str) -> (r: Option<char>)
    ensures
        r == (if t@.len() == 1 { Some(t@[0]) } else { None::<char> }),
        r matches Some(c) ==> t@ == seq![c],
{
    if t.unicode_len() == 1 {
        let c = t.get_char(0);
        assert(t@ =~= seq![c]);
        Some(c)
    } else {
        None
    }
}

/// Binding strength of an operator token; anything unrecognised binds loosest.
pub fn precedence(op: &str) -> (r: i32)
    ensures
        r == precedence_of(op@),
{
    match single_char(op) {
        Some('+') | Some('-') => 1,
        Some('*') | Some('/') => 2,
        _ => 0,
    }
}

/// The operator that `t` spells, if any.
pub fn operator(t: &str) -> (r: Option<Op>)
    ensures
        r == op_of(t@),
{
    match single_char(t) {
        Some('+') => Some(Op::Add),
        Some('-') => Some(Op::Sub),
        Some('*') => Some(Op::Mul),
        Some('/') => Some(Op::Div),
        _ => None,
    }
}

/// Classifies a token, given whether it reads as a number and whether it
/// is a bound name.
pub fn classify(t: &str, numeric: bool, bound: bool) -> (r: Kind)
    ensures
        r == kind_of(t@, numeric, bound),
{
    if numeric {
        Kind::Literal
    } else if bound {
        Kind::Variable
    } else {
        match single_char(t) {
            Some('(') => Kind::Open,
            Some(')') => Kind::Close,
            _ => match operator(t) {
                Some(op) => Kind::Operator(op),
                None => Kind::Invalid,
            },
        }
    }
}

/// Whether `t` is an opening parenthesis.
fn is_open(t: &str) -> (r: bool)
    ensures
        r == (t@ == seq!['(']),
{
    match single_char(t) {
        Some('(') => true,
        _ => false,
    }
}

/// The planner's state between two tokens.
pub ghost struct Pass {
    /// Positions of the pending `(` and operator tokens, innermost last.
    pub ops: Seq<usize>,
    /// How many values the program leaves on the stack so far.
    pub depth: int,
    /// The program written so far.
    pub out: Seq<Step>,
    /// Whether the program already ends in a failure.
    pub halted: bool,
}

/// The state at the start of an expression.
pub open spec fn fresh() -> Pass {
    Pass { ops: seq![], depth: 0, out: seq![], halted: false }
}

/// Ends the program with `e`.
pub open spec fn halt(st: Pass, e: EvalError) -> Pass {
    Pass { ops: st.ops, depth: st.depth, out: st.out.push(Step::Fail(e)), halted: true }
}

/// Pops the innermost pending entry and applies it to the top two values.
pub open spec fn apply_top(toks: Seq<Seq<char>>, st: Pass) -> Pass {
    let rest = Pass { ops: st.ops.drop_last(), depth: st.depth, out: st.out, halted: st.halted };
    if st.depth < 2 {
        halt(rest, EvalError::InvalidExpression)
    } else if let Some(op) = op_of(toks[st.ops.last() as int]) {
        Pass { ops: rest.ops, depth: st.depth - 1, out: st.out.push(Step::Apply(op)), halted: false }
    } else {
        halt(rest, EvalError::UnknownOperator)
    }
}

/// Applies pending entries, innermost first, while they bind at least as
/// tightly as `prec`. Every precedence is at least 0, so with `prec == 0`
/// this applies everything still pending.
pub open spec fn reduce(toks: Seq<Seq<char>>, st: Pass, prec: i32) -> Pass
    decreases st.ops.len(),
{
    if st.halted || st.ops.len() == 0 || precedence_of(toks[st.ops.last() as int]) < prec {
        st
    } else {
        reduce(toks, apply_top(toks, st), prec)
    }
}

/// A closing parenthesis: applies pending operators up to the innermost `(`,
/// which is dropped. Running out of pending entries is no error.
pub open spec fn close(toks: Seq<Seq<char>>, st: Pass) -> Pass
    decreases st.ops.len(),
{
    if st.halted || st.ops.len() == 0 {
        st
    } else if toks[st.ops.last() as int] == seq!['('] {
        Pass { ops: st.ops.drop_last(), depth: st.depth, out: st.out, halted: false }
    } else {
        close(toks, apply_top(toks, st))
    }
}

/// Reads the token at position `i`.
pub open spec fn step(
    toks: Seq<Seq<char>>,
    numeric: Seq<bool>,
    names: Set<Seq<char>>,
    st: Pass,
    i: int,
) -> Pass {
    let t = toks[i];
    if st.halted {
        st
    } else {
        match kind_of(t, numeric[i], names.contains(t)) {
            Kind::Literal => Pass {
                ops: st.ops,
                depth: st.depth + 1,
                out: st.out.push(Step::Literal(i as usize)),
                halted: false,
            },
            Kind::Variable => Pass {
                ops: st.ops,
                depth: st.depth + 1,
                out: st.out.push(Step::Variable(i as usize)),
                halted: false,
            },
            Kind::Open => Pass { ops: st.ops.push(i as usize), depth: st.depth, out: st.out, halted: false },
            Kind::Close => close(toks, st),
            Kind::Operator(_) => {
                let r = reduce(toks, st, precedence_of(t));
                if r.halted {
                    r
                } else {
                    Pass { ops: r.ops.push(i as usize), depth: r.depth, out: r.out, halted: false }
                }
            },
            Kind::Invalid => halt(st, EvalError::InvalidToken),
        }
    }
}

/// The state after reading the tokens at positions `start .. end`.
pub open spec fn pass_over(
    toks: Seq<Seq<char>>,
    numeric: Seq<bool>,
    names: Set<Seq<char>>,
    start: int,
    end: int,
) -> Pass
    decreases end - start,
{
    if end <= start {
        fresh()
    } else {
        step(toks, numeric, names, pass_over(toks, numeric, names, start, end - 1), end - 1)
    }
}

/// The postfix program for the tokens from `start` on: every token read,
/// everything still pending applied, and a failure if no value is left.
pub open spec fn program_of(
    toks: Seq<Seq<char>>,
    numeric: Seq<bool>,
    names: Set<Seq<char>>,
    start: int,
) -> Seq<Step> {
    let last = reduce(toks, pass_over(toks, numeric, names, start, toks.len() as int), 0);
    if !last.halted && last.depth == 0 {
        last.out.push(Step::Fail(EvalError::InvalidExpression))
    } else {
        last.out
    }
}

/// Once a failure is written, reading more tokens changes nothing.
proof fn lemma_halted_stays(
    toks: Seq<Seq<char>>,
    numeric: Seq<bool>,
    names: Set<Seq<char>>,
    start: int,
    mid: int,
    end: int,
)
    requires
        start <= mid <= end,
        pass_over(toks, numeric, names, start, mid).halted,
    ensures
        pass_over(toks, numeric, names, start, end) == pass_over(toks, numeric, names, start, mid),
    decreases end - mid,
{
    if end > mid {
        lemma_halted_stays(toks, numeric, names, start, mid, end - 1);
    }
}

/// The executable planner state; its view is a `Pass`.
struct Planner {
    ops: Vec<usize>,
    depth: usize,
    out: Vec<Step>,
    halted: bool,
}

impl Planner {
    spec fn view(&self) -> Pass {
        Pass { ops: self.ops@, depth: self.depth as int, out: self.out@, halted: self.halted }
    }

    /// Every pending position lies below `n`.
    spec fn fits(&self, n: int) -> bool {
        forall|k: int| 0 <= k < self.ops@.len() ==> #[trigger] self.ops@[k] < n
    }

    fn fail(&mut self, e: EvalError)
        ensures
            final(self).view() == halt(old(self).view(), e),
    {
        self.out.push(Step::Fail(e));
        self.halted = true;
    }

    fn apply_top(&mut self, tokens: &Vec<String>)
        requires
            !old(self).halted,
            old(self).ops@.len() > 0,
            old(self).fits(tokens@.len() as int),
        ensures
            final(self).view() == apply_top(texts(tokens@), old(self).view()),
            final(self).fits(tokens@.len() as int),
            final(self).depth <= old(self).depth,
    {
        let top = self.ops.pop().unwrap();
        if self.depth < 2 {
            self.fail(EvalError::InvalidExpression);
        } else {
            match operator(tokens[top].as_str()) {
                Some(op) => {
                    self.depth = self.depth - 1;
                    self.out.push(Step::Apply(op));
                },
                None => self.fail(EvalError::UnknownOperator),
            }
        }
    }

    fn reduce(&mut self, tokens: &Vec<String>, prec: i32)
        requires
            old(self).fits(tokens@.len() as int),
        ensures
            final(self).view() == reduce(texts(tokens@), old(self).view(), prec),
            final(self).fits(tokens@.len() as int),
            final(self).depth <= old(self).depth,
    {
        let ghost toks = texts(tokens@);
        let ghost goal = reduce(toks, self.view(), prec);
        let ghost d0 = self.depth;
        while !self.halted && self.ops.len() > 0 && precedence(
            tokens[self.ops[self.ops.len() - 1]].as_str(),
        ) >= prec
            invariant
                self.fits(tokens@.len() as int),
                reduce(toks, self.view(), prec) == goal,
                self.depth <= d0,
                toks == texts(tokens@),
            decreases self.ops@.len(),
        {
            self.apply_top(tokens);
        }
    }

    fn close(&mut self, tokens: &Vec<String>)
        requires
            old(self).fits(tokens@.len() as int),
        ensures
            final(self).view() == close(texts(tokens@), old(self).view()),
            final(self).fits(tokens@.len() as int),
            final(self).depth <= old(self).depth,
    {
        let ghost toks = texts(tokens@);
        let ghost goal = close(toks, self.view());
        let ghost d0 = self.depth;
        while !self.halted && self.ops.len() > 0 && !is_open(
            tokens[self.ops[self.ops.len() - 1]].as_str(),
        )
            invariant
                self.fits(tokens@.len() as int),
                close(toks, self.view()) == goal,
                self.depth <= d0,
                toks == texts(tokens@),
            decreases self.ops@.len(),
        {
            self.apply_top(tokens);
        }
        if !self.halted && self.ops.len() > 0 {
            self.ops.pop();
        }
    }
}

/// The postfix program for the tokens from `start` on. `numeric[i]` tells
/// whether token `i` reads as a number; names bound in `vars` stand for
/// their values.
pub fn plan_expr<V>(tokens: &Vec<String>, numeric: &Vec<bool>, vars: &Vars<V>, start: usize) -> (r:
    Vec<Step>)
    requires
        numeric@.len() == tokens@.len(),
        start <= tokens@.len(),
        vars.wf(),
    ensures
        r@ == program_of(texts(tokens@), numeric@, vars.view().dom(), start as int),
        runnable(texts(tokens@), numeric@, vars.view().dom(), r@),
{
    let ghost toks = texts(tokens@);
    let ghost names = vars.view().dom();
    let mut p = Planner { ops: Vec::new(), depth: 0, out: Vec::new(), halted: false };
    let mut i: usize = start;
    while i < tokens.len() && !p.halted
        invariant
            start <= i <= tokens@.len(),
            numeric@.len() == tokens@.len(),
            vars.wf(),
            toks == texts(tokens@),
            names == vars.view().dom(),
            p.view() == pass_over(toks, numeric@, names, start as int, i as int),
            p.fits(tokens@.len() as int),
            p.depth <= i - start,
        decreases tokens@.len() - i,
    {
        let t = tokens[i].as_str();
        assert(toks[i as int] == t@);
        match classify(t, numeric[i], vars.contains(&tokens[i])) {
            Kind::Literal => {
                p.depth = p.depth + 1;
                p.out.push(Step::Literal(i));
            },
            Kind::Variable => {
                p.depth = p.depth + 1;
                p.out.push(Step::Variable(i));
            },
            Kind::Open => {
                p.ops.push(i);
            },
            Kind::Close => {
                p.close(tokens);
            },
            Kind::Operator(_) => {
                p.reduce(tokens, precedence(t));
                if !p.halted {
                    p.ops.push(i);
                }
            },
            Kind::Invalid => {
                p.fail(EvalError::InvalidToken);
            },
        }
        i = i + 1;
    }
    proof {
        if p.halted {
            lemma_halted_stays(toks, numeric@, names, start as int, i as int, tokens@.len() as int);
        }
    }
    proof {
        lemma_program_runnable(toks, numeric@, names, start as int);
    }
    p.reduce(tokens, 0);
    if !p.halted && p.depth == 0 {
        p.fail(EvalError::InvalidExpression);
    }
    p.out
}

/// How a step changes the height of the value stack.
pub open spec fn delta(s: Step) -> int {
    match s {
        Step::Literal(_) | Step::Variable(_) => 1,
        Step::Apply(_) => -1,
        Step::Fail(_) => 0,
    }
}

/// The height of the value stack after the first `k` steps.
pub open spec fn height(steps: Seq<Step>, k: int) -> int
    decreases k,
{
    if k <= 0 {
        0
    } else {
        height(steps, k - 1) + delta(steps[k - 1])
    }
}

/// The step at `k` can be carried out: a literal token reads as a number,
/// a variable token is a bound name that does not, an operator finds two
/// values, and a failure comes only last.
pub open spec fn step_ok(
    toks: Seq<Seq<char>>,
    numeric: Seq<bool>,
    names: Set<Seq<char>>,
    steps: Seq<Step>,
    k: int,
) -> bool {
    match steps[k] {
        Step::Literal(i) => i < toks.len() && numeric[i as int],
        Step::Variable(i) => i < toks.len() && !numeric[i as int] && names.contains(toks[i as int]),
        Step::Apply(_) => height(steps, k) >= 2,
        Step::Fail(_) => k == steps.len() - 1,
    }
}

/// Every step can be carried out, and a program that does not fail leaves
/// at least one value.
pub open spec fn runnable(
    toks: Seq<Seq<char>>,
    numeric: Seq<bool>,
    names: Set<Seq<char>>,
    steps: Seq<Step>,
) -> bool {
    &&& forall|k: int| 0 <= k < steps.len() ==> #[trigger] step_ok(toks, numeric, names, steps, k)
    &&& (steps.len() == 0 || !(steps.last() is Fail)) ==> height(steps, steps.len() as int) >= 1
}

/// What the planner keeps true of the program it is writing.
pub open spec fn tidy(
    toks: Seq<Seq<char>>,
    numeric: Seq<bool>,
    names: Set<Seq<char>>,
    out: Seq<Step>,
    depth: int,
    halted: bool,
) -> bool {
    &&& depth >= 0
    &&& depth == height(out, out.len() as int)
    &&& forall|k: int| 0 <= k < out.len() ==> #[trigger] step_ok(toks, numeric, names, out, k)
    &&& halted <==> (out.len() > 0 && out.last() is Fail)
}

pub open spec fn tidy_pass(toks: Seq<Seq<char>>, numeric: Seq<bool>, names: Set<Seq<char>>, st: Pass) -> bool {
    tidy(toks, numeric, names, st.out, st.depth, st.halted)
}

proof fn lemma_height_push(steps: Seq<Step>, x: Step, k: int)
    requires
        0 <= k <= steps.len(),
    ensures
        height(steps.push(x), k) == height(steps, k),
    decreases k,
{
    if k > 0 {
        lemma_height_push(steps, x, k - 1);
    }
}

/// Appending a step that can be carried out keeps the program tidy.
proof fn lemma_extend(
    toks: Seq<Seq<char>>,
    numeric: Seq<bool>,
    names: Set<Seq<char>>,
    out: Seq<Step>,
    depth: int,
    x: Step,
)
    requires
        tidy(toks, numeric, names, out, depth, false),
        x is Apply ==> depth >= 2,
        !(x is Apply) ==> step_ok(toks, numeric, names, out.push(x), out.len() as int),
    ensures
        tidy(toks, numeric, names, out.push(x), depth + delta(x), x is Fail),
{
    let o2 = out.push(x);
    lemma_height_push(out, x, out.len() as int);
    assert forall|k: int| 0 <= k < o2.len() implies #[trigger] step_ok(toks, numeric, names, o2, k) by {
        if k < out.len() {
            assert(step_ok(toks, numeric, names, out, k));
            lemma_height_push(out, x, k);
        }
    }
}

proof fn lemma_tidy_apply_top(toks: Seq<Seq<char>>, numeric: Seq<bool>, names: Set<Seq<char>>, st: Pass)
    requires
        tidy_pass(toks, numeric, names, st),
        !st.halted,
    ensures
        tidy_pass(toks, numeric, names, apply_top(toks, st)),
{
    if st.depth < 2 {
        lemma_extend(toks, numeric, names, st.out, st.depth, Step::Fail(EvalError::InvalidExpression));
    } else if let Some(op) = op_of(toks[st.ops.last() as int]) {
        lemma_extend(toks, numeric, names, st.out, st.depth, Step::Apply(op));
    } else {
        lemma_extend(toks, numeric, names, st.out, st.depth, Step::Fail(EvalError::UnknownOperator));
    }
}

proof fn lemma_tidy_reduce(
    toks: Seq<Seq<char>>,
    numeric: Seq<bool>,
    names: Set<Seq<char>>,
    st: Pass,
    prec: i32,
)
    requires
        tidy_pass(toks, numeric, names, st),
    ensures
        tidy_pass(toks, numeric, names, reduce(toks, st, prec)),
    decreases st.ops.len(),
{
    if !(st.halted || st.ops.len() == 0 || precedence_of(toks[st.ops.last() as int]) < prec) {
        lemma_tidy_apply_top(toks, numeric, names, st);
        lemma_tidy_reduce(toks, numeric, names, apply_top(toks, st), prec);
    }
}

proof fn lemma_tidy_close(toks: Seq<Seq<char>>, numeric: Seq<bool>, names: Set<Seq<char>>, st: Pass)
    requires
        tidy_pass(toks, numeric, names, st),
    ensures
        tidy_pass(toks, numeric, names, close(toks, st)),
    decreases st.ops.len(),
{
    if !(st.halted || st.ops.len() == 0) && toks[st.ops.last() as int] != seq!['('] {
        lemma_tidy_apply_top(toks, numeric, names, st);
        lemma_tidy_close(toks, numeric, names, apply_top(toks, st));
    }
}

proof fn lemma_tidy_pass_over(
    toks: Seq<Seq<char>>,
    numeric: Seq<bool>,
    names: Set<Seq<char>>,
    start: int,
    end: int,
)
    requires
        0 <= start,
        end <= toks.len() <= usize::MAX,
        numeric.len() == toks.len(),
    ensures
        tidy_pass(toks, numeric, names, pass_over(toks, numeric, names, start, end)),
    decreases end - start,
{
    if end > start {
        lemma_tidy_pass_over(toks, numeric, names, start, end - 1);
        let st = pass_over(toks, numeric, names, start, end - 1);
        let i = end - 1;
        let t = toks[i];
        if !st.halted {
            match kind_of(t, numeric[i], names.contains(t)) {
                Kind::Literal => lemma_extend(toks, numeric, names, st.out, st.depth, Step::Literal(i as usize)),
                Kind::Variable => lemma_extend(toks, numeric, names, st.out, st.depth, Step::Variable(i as usize)),
                Kind::Close => lemma_tidy_close(toks, numeric, names, st),
                Kind::Operator(_) => lemma_tidy_reduce(toks, numeric, names, st, precedence_of(t)),
                Kind::Invalid => lemma_extend(toks, numeric, names, st.out, st.depth, Step::Fail(EvalError::InvalidToken)),
                Kind::Open => {},
            }
        }
    }
}

/// Every program the planner writes can be run over a value stack without
/// running short of values, and looks up only tokens that read as numbers
/// or are bound names.
pub proof fn lemma_program_runnable(
    toks: Seq<Seq<char>>,
    numeric: Seq<bool>,
    names: Set<Seq<char>>,
    start: int,
)
    requires
        0 <= start <= toks.len() <= usize::MAX,
        numeric.len() == toks.len(),
    ensures
        runnable(toks, numeric, names, program_of(toks, numeric, names, start)),
{
    let st = pass_over(toks, numeric, names, start, toks.len() as int);
    lemma_tidy_pass_over(toks, numeric, names, start, toks.len() as int);
    lemma_tidy_reduce(toks, numeric, names, st, 0);
    let last = reduce(toks, st, 0);
    if !last.halted && last.depth == 0 {
        lemma_extend(toks, numeric, names, last.out, last.depth, Step::Fail(EvalError::InvalidExpression));
    }
}

/// An input line of the form `name = expression`: more than two tokens,
/// the second of them `=`.
pub open spec fn is_assignment(toks: Seq<Seq<char>>) -> bool {
    toks.len() > 2 && toks[1] == seq!['=']
}

/// Where the expression of a line begins: after `name =`, or at the start.
pub open spec fn expr_start(toks: Seq<Seq<char>>) -> int {
    if is_assignment(toks) {
        2
    } else {
        0
    }
}

/// What evaluating one line amounts to: run `steps`, and when they end
/// with a value, bind it to `target` if there is one.
pub struct Plan {
    pub target: Option<String>,
    pub steps: Vec<Step>,
}

/// Whether `t` is the assignment sign.
fn is_assign_sign(t: &str) -> (r: bool)
    ensures
        r == (t@ == seq!['=']),
{
    match single_char(t) {
        Some('=') => true,
        _ => false,
    }
}

/// Plans one line of tokens. `numeric[i]` tells whether token `i` reads as
/// a number; names bound in `vars` stand for their values. In the form
/// `name = expression` the first token is the target, taken as a name
/// whatever it spells, and only the expression is planned.
pub fn parse_expr<V>(tokens: &Vec<String>, numeric: &Vec<bool>, vars: &Vars<V>) -> (p: Plan)
    requires
        numeric@.len() == tokens@.len(),
        vars.wf(),
    ensures
        p.target is Some <==> is_assignment(texts(tokens@)),
        p.target matches Some(name) ==> name@ == tokens@[0]@,
        p.steps@ == program_of(
            texts(tokens@),
            numeric@,
            vars.view().dom(),
            expr_start(texts(tokens@)),
        ),
        runnable(texts(tokens@), numeric@, vars.view().dom(), p.steps@),
{
    let ghost toks = texts(tokens@);
    if tokens.len() > 2 && is_assign_sign(tokens[1].as_str()) {
        assert(toks[1] == tokens@[1]@);
        Plan { target: Some(tokens[0].clone()), steps: plan_expr(tokens, numeric, vars, 2) }
    } else {
        assert(tokens@.len() > 2 ==> toks[1] == tokens@[1]@);
        Plan { target: None, steps: plan_expr(tokens, numeric, vars, 0) }
    }
}

/// Evaluation is deterministic: the same tokens, read the same way, with the
/// same names bound, give the same program, whatever values the names hold.
pub proof fn lemma_plan_deterministic<V>(
    toks: Seq<Seq<char>>,
    numeric: Seq<bool>,
    env1: Map<Seq<char>, V>,
    env2: Map<Seq<char>, V>,
)
    requires
        env1.dom() == env2.dom(),
    ensures
        program_of(toks, numeric, env1.dom(), expr_start(toks)) == program_of(
            toks,
            numeric,
            env2.dom(),
            expr_start(toks),
        ),
{
}

} // verus!
