//! Small-step reference interpreter for the reduced core (the operational oracle).
//!
//! The reduction relation is specified over term models by `step_m`: β, let, case-zero,
//! case-succ, unfold (`fix` and `fix*`), the array rules, H-return, the lazy H-op rules
//! (a clause that never mentions its continuation does not capture one) and one-shot
//! `resume`.  `Machine::step` is proved to compute exactly `step_m`, and `Machine::eval`
//! exactly the budgeted iteration `eval_m`.

use vstd::prelude::*;

use crate::core_ast::{
    binding_view, bindings_view, clause_view, clauses_view, first_clause, lemma_first_clause, group_binds, is_value_m, lemma_bindings_view,
    handler_view, lemma_clauses_view, lemma_terms_view, nat_m, normalize_m, subst_m, term_view, terms_view, ContId, FixBinding,
    FixBindingM, Handler, HandlerM, OpClause, OpClauseM, RecursionTag, Term, TermM,
};
use crate::grade::Label;
use crate::text::str_eq;

verus! {

broadcast use vstd::std_specs::vec::group_vec_axioms, vstd::seq::group_seq_axioms;

#[derive(Debug, Clone, Copy, PartialEq, Eq, Structural)]
pub enum Rule {
    Beta,
    Let,
    CaseZero,
    CaseSucc,
    Unfold,
    HReturn,
    HOp,
    Resume,
    ArrayNew,
    ArrayGet,
    ArraySet,
    ArrayLen,
    Move,
    Freeze,
    Mark,
}

#[derive(Debug, Clone, Copy, PartialEq, Eq, Structural)]
pub enum Outcome {
    Value,
    Stepable,
    StuckDoubleResume,
    StuckUnhandledOperation,
    BudgetExhaustedDiv,
    BoundsTrap,
    InternalMalformed,
}

#[derive(Debug, PartialEq, Eq)]
pub struct EvalReport {
    pub outcome: Outcome,
    pub final_term: Term,
    pub trace: Vec<Rule>,
    pub max_frame: u32,
    pub data_allocs: u64,
}

/// Model of an evaluation report.
pub struct EvalReportM {
    pub outcome: Outcome,
    pub final_term: TermM,
    pub trace: Seq<Rule>,
    pub max_frame: u32,
    pub data_allocs: u64,
}

impl View for EvalReport {
    type V = EvalReportM;

    open spec fn view(&self) -> EvalReportM {
        EvalReportM {
            outcome: self.outcome,
            final_term: self.final_term@,
            trace: self.trace@,
            max_frame: self.max_frame,
            data_allocs: self.data_allocs,
        }
    }
}

impl EvalReport {
    /// The same report with continuation ids normalized.
    pub fn normalized_for_determinism(&self) -> (r: Self)
        ensures
            r@ == (EvalReportM { final_term: normalize_m(self@.final_term), ..self@ }),
    {
        let mut trace: Vec<Rule> = Vec::new();
        let mut i: usize = 0;
        while i < self.trace.len()
            invariant
                i <= self.trace@.len(),
                trace@ == self.trace@.subrange(0, i as int),
            decreases self.trace@.len() - i,
        {
            trace.push(self.trace[i]);
            i += 1;
            assert(trace@ =~= self.trace@.subrange(0, i as int));
        }
        assert(trace@ =~= self.trace@);
        Self {
            outcome: self.outcome,
            final_term: self.final_term.normalize_cont_ids(),
            trace,
            max_frame: self.max_frame,
            data_allocs: self.data_allocs,
        }
    }
}

/// The normalized form of a report model.
pub open spec fn report_normalized_m(r: EvalReportM) -> EvalReportM {
    EvalReportM { final_term: normalize_m(r.final_term), ..r }
}

/// Evaluating the same term with the same budget gives the same normalized report, and
/// normalizing a report twice is normalizing it once.
pub proof fn lemma_report_determinism(t: TermM, budget: nat, expect_div: bool)
    ensures
        ({
            let r = eval_m(initial_machine(), t, budget, expect_div, Seq::empty()).1;
            report_normalized_m(report_normalized_m(r)) == report_normalized_m(r)
        }),
{
    let r = eval_m(initial_machine(), t, budget, expect_div, Seq::empty()).1;
    crate::core_ast::lemma_normalize_idempotent(r.final_term);
}

/// One evaluation-context layer.
#[derive(Debug, PartialEq, Eq)]
enum Frame {
    AppFun(Box<Term>),
    AppArg(Box<Term>),
    Let { var: String, body: Box<Term> },
    Perform(Label),
    ResumeKont(Box<Term>),
    ResumeArg(Box<Term>),
    Succ,
    CaseNat { zero_body: Box<Term>, succ_var: String, succ_body: Box<Term> },
    Handle(Handler),
    MkArrayLen(Box<Term>),
    MkArrayFill(Box<Term>),
    ArrayGetArray(Box<Term>),
    ArrayGetIndex(Box<Term>),
    ArraySetArray(Box<Term>, Box<Term>),
    ArraySetIndex(Box<Term>, Box<Term>),
    ArraySetValue(Box<Term>, Box<Term>),
    ArrayLen,
    Move,
    Inplace,
    Freeze,
}

/// Model of an evaluation-context layer.
pub enum FrameM {
    AppFun(TermM),
    AppArg(TermM),
    Let { var: Seq<char>, body: TermM },
    Perform(Seq<char>),
    ResumeKont(TermM),
    ResumeArg(TermM),
    Succ,
    CaseNat { zero_body: TermM, succ_var: Seq<char>, succ_body: TermM },
    Handle(HandlerM),
    MkArrayLen(TermM),
    MkArrayFill(TermM),
    ArrayGetArray(TermM),
    ArrayGetIndex(TermM),
    ArraySetArray(TermM, TermM),
    ArraySetIndex(TermM, TermM),
    ArraySetValue(TermM, TermM),
    ArrayLen,
    Move,
    Inplace,
    Freeze,
}

spec fn frame_view(f: Frame) -> FrameM {
    match f {
        Frame::AppFun(a) => FrameM::AppFun(a@),
        Frame::AppArg(a) => FrameM::AppArg(a@),
        Frame::Let { var, body } => FrameM::Let { var: var@, body: body@ },
        Frame::Perform(l) => FrameM::Perform(l@),
        Frame::ResumeKont(a) => FrameM::ResumeKont(a@),
        Frame::ResumeArg(a) => FrameM::ResumeArg(a@),
        Frame::Succ => FrameM::Succ,
        Frame::CaseNat { zero_body, succ_var, succ_body } => FrameM::CaseNat {
            zero_body: zero_body@,
            succ_var: succ_var@,
            succ_body: succ_body@,
        },
        Frame::Handle(h) => FrameM::Handle(h@),
        Frame::MkArrayLen(a) => FrameM::MkArrayLen(a@),
        Frame::MkArrayFill(a) => FrameM::MkArrayFill(a@),
        Frame::ArrayGetArray(a) => FrameM::ArrayGetArray(a@),
        Frame::ArrayGetIndex(a) => FrameM::ArrayGetIndex(a@),
        Frame::ArraySetArray(a, b) => FrameM::ArraySetArray(a@, b@),
        Frame::ArraySetIndex(a, b) => FrameM::ArraySetIndex(a@, b@),
        Frame::ArraySetValue(a, b) => FrameM::ArraySetValue(a@, b@),
        Frame::ArrayLen => FrameM::ArrayLen,
        Frame::Move => FrameM::Move,
        Frame::Inplace => FrameM::Inplace,
        Frame::Freeze => FrameM::Freeze,
    }
}

spec fn frames_view(s: Seq<Frame>) -> Seq<FrameM> {
    s.map_values(|f: Frame| frame_view(f))
}

/// Plugging a term into one context layer.
pub open spec fn plug1_m(f: FrameM, t: TermM) -> TermM {
    match f {
        FrameM::AppFun(arg) => TermM::App(Box::new(t), Box::new(arg)),
        FrameM::AppArg(fun) => TermM::App(Box::new(fun), Box::new(t)),
        FrameM::Let { var, body } => TermM::Let { var, expr: Box::new(t), body: Box::new(body) },
        FrameM::Perform(l) => TermM::Perform(l, Box::new(t)),
        FrameM::MkArrayLen(fill) => TermM::MkArray(Box::new(t), Box::new(fill)),
        FrameM::MkArrayFill(len) => TermM::MkArray(Box::new(len), Box::new(t)),
        FrameM::ArrayGetArray(index) => TermM::ArrayGet(Box::new(t), Box::new(index)),
        FrameM::ArrayGetIndex(array) => TermM::ArrayGet(Box::new(array), Box::new(t)),
        FrameM::ArraySetArray(index, value) => TermM::ArraySet(
            Box::new(t),
            Box::new(index),
            Box::new(value),
        ),
        FrameM::ArraySetIndex(array, value) => TermM::ArraySet(
            Box::new(array),
            Box::new(t),
            Box::new(value),
        ),
        FrameM::ArraySetValue(array, index) => TermM::ArraySet(
            Box::new(array),
            Box::new(index),
            Box::new(t),
        ),
        FrameM::ArrayLen => TermM::ArrayLen(Box::new(t)),
        FrameM::Move => TermM::Move(Box::new(t)),
        FrameM::Inplace => TermM::Inplace(Box::new(t)),
        FrameM::Freeze => TermM::Freeze(Box::new(t)),
        FrameM::ResumeKont(arg) => TermM::Resume { kont: Box::new(t), arg: Box::new(arg) },
        FrameM::ResumeArg(kont) => TermM::Resume { kont: Box::new(kont), arg: Box::new(t) },
        FrameM::Succ => TermM::Succ(Box::new(t)),
        FrameM::CaseNat { zero_body, succ_var, succ_body } => TermM::CaseNat {
            scrutinee: Box::new(t),
            zero_body: Box::new(zero_body),
            succ_var,
            succ_body: Box::new(succ_body),
        },
        FrameM::Handle(h) => TermM::Handle { body: Box::new(t), handler: h },
    }
}

/// Plugging a term into a context given outermost-first.
pub open spec fn plug_m(t: TermM, frames: Seq<FrameM>) -> TermM
    decreases frames.len(),
{
    if frames.len() == 0 {
        t
    } else {
        plug_m(plug1_m(frames.last(), t), frames.drop_last())
    }
}

/// A value-argument `perform` found under evaluation contexts that do not handle it:
/// label, argument, and the captured context (outermost first).
pub struct CapturedM {
    pub label: Seq<char>,
    pub arg: TermM,
    pub frames: Seq<FrameM>,
}

/// Finds the operation that evaluation would perform next, capturing the context below
/// the enclosing handler; nested handlers are delimiters only for labels they handle.
pub open spec fn decompose_m(t: TermM, frames: Seq<FrameM>) -> Option<CapturedM>
    decreases t,
{
    match t {
        TermM::Perform(l, arg) => if is_value_m(*arg) {
            Some(CapturedM { label: l, arg: *arg, frames })
        } else {
            decompose_m(*arg, frames.push(FrameM::Perform(l)))
        },
        TermM::MkArray(len, fill) => if !is_value_m(*len) {
            decompose_m(*len, frames.push(FrameM::MkArrayLen(*fill)))
        } else if !is_value_m(*fill) {
            decompose_m(*fill, frames.push(FrameM::MkArrayFill(*len)))
        } else {
            None
        },
        TermM::ArrayGet(array, index) => if !is_value_m(*array) {
            decompose_m(*array, frames.push(FrameM::ArrayGetArray(*index)))
        } else if !is_value_m(*index) {
            decompose_m(*index, frames.push(FrameM::ArrayGetIndex(*array)))
        } else {
            None
        },
        TermM::ArraySet(array, index, value) => if !is_value_m(*array) {
            decompose_m(*array, frames.push(FrameM::ArraySetArray(*index, *value)))
        } else if !is_value_m(*index) {
            decompose_m(*index, frames.push(FrameM::ArraySetIndex(*array, *value)))
        } else if !is_value_m(*value) {
            decompose_m(*value, frames.push(FrameM::ArraySetValue(*array, *index)))
        } else {
            None
        },
        TermM::ArrayLen(a) => if !is_value_m(*a) {
            decompose_m(*a, frames.push(FrameM::ArrayLen))
        } else {
            None
        },
        TermM::Move(i) => if !is_value_m(*i) {
            decompose_m(*i, frames.push(FrameM::Move))
        } else {
            None
        },
        TermM::Inplace(i) => if !is_value_m(*i) {
            decompose_m(*i, frames.push(FrameM::Inplace))
        } else {
            None
        },
        TermM::Freeze(i) => if !is_value_m(*i) {
            decompose_m(*i, frames.push(FrameM::Freeze))
        } else {
            None
        },
        TermM::Succ(i) => if !is_value_m(*i) {
            decompose_m(*i, frames.push(FrameM::Succ))
        } else {
            None
        },
        TermM::CaseNat { scrutinee, zero_body, succ_var, succ_body } => if !is_value_m(
            *scrutinee,
        ) {
            decompose_m(
                *scrutinee,
                frames.push(
                    FrameM::CaseNat { zero_body: *zero_body, succ_var, succ_body: *succ_body },
                ),
            )
        } else {
            None
        },
        TermM::App(f, a) => if !is_value_m(*f) {
            decompose_m(*f, frames.push(FrameM::AppFun(*a)))
        } else if !is_value_m(*a) {
            decompose_m(*a, frames.push(FrameM::AppArg(*f)))
        } else {
            None
        },
        TermM::Let { var, expr, body } => if !is_value_m(*expr) {
            decompose_m(*expr, frames.push(FrameM::Let { var, body: *body }))
        } else {
            None
        },
        TermM::Resume { kont, arg } => if !is_value_m(*kont) {
            decompose_m(*kont, frames.push(FrameM::ResumeKont(*arg)))
        } else if !is_value_m(*arg) {
            decompose_m(*arg, frames.push(FrameM::ResumeArg(*kont)))
        } else {
            None
        },
        TermM::Handle { body, handler } => match decompose_m(
            *body,
            frames.push(FrameM::Handle(handler)),
        ) {
            Some(c) => if first_clause(handler.clauses, c.label) is Some {
                None
            } else {
                Some(c)
            },
            None => None,
        },
        _ => None,
    }
}

/// Whether `x` occurs free in `t`.
pub open spec fn mentions_m(t: TermM, x: Seq<char>) -> bool
    decreases t, 0nat,
{
    match t {
        TermM::Var(v) => v == x,
        TermM::Unit | TermM::Zero | TermM::Cont(_) | TermM::Array(_) => false,
        TermM::Succ(i) | TermM::Perform(_, i) | TermM::ArrayLen(i) | TermM::Move(i)
        | TermM::Inplace(i) | TermM::Freeze(i) | TermM::Mark(_, i) => mentions_m(*i, x),
        TermM::MkArray(a, b) | TermM::ArrayGet(a, b) => mentions_m(*a, x) || mentions_m(*b, x),
        TermM::ArraySet(a, b, c) => mentions_m(*a, x) || mentions_m(*b, x) || mentions_m(*c, x),
        TermM::Lam { param, body, .. } => param != x && mentions_m(*body, x),
        TermM::App(f, a) => mentions_m(*f, x) || mentions_m(*a, x),
        TermM::Let { var, expr, body } => mentions_m(*expr, x) || (var != x && mentions_m(
            *body,
            x,
        )),
        TermM::Fix { func, param, body, .. } => func != x && param != x && mentions_m(*body, x),
        TermM::FixGroup { bindings, .. } => !group_binds(bindings, x) && bindings_mention_m(
            bindings,
            x,
        ),
        TermM::CaseNat { scrutinee, zero_body, succ_var, succ_body } => mentions_m(*scrutinee, x)
            || mentions_m(*zero_body, x) || (succ_var != x && mentions_m(*succ_body, x)),
        TermM::Handle { body, handler } => mentions_m(*body, x) || (handler.return_var != x
            && mentions_m(*handler.return_body, x)) || clauses_mention_m(handler.clauses, x),
        TermM::Resume { kont, arg } => mentions_m(*kont, x) || mentions_m(*arg, x),
    }
}

pub open spec fn bindings_mention_m(s: Seq<FixBindingM>, x: Seq<char>) -> bool
    decreases s, 0nat,
{
    if s.len() == 0 {
        false
    } else {
        bindings_mention_m(s.drop_last(), x) || (s.last().param != x && mentions_m(
            *s.last().body,
            x,
        ))
    }
}

pub open spec fn clauses_mention_m(s: Seq<OpClauseM>, x: Seq<char>) -> bool
    decreases s, 0nat,
{
    if s.len() == 0 {
        false
    } else {
        clauses_mention_m(s.drop_last(), x) || (s.last().op_param != x && s.last().op_k != x
            && mentions_m(*s.last().op_body, x))
    }
}

/// The number a numeral denotes.
pub open spec fn nat_value_m(t: TermM) -> Option<nat>
    decreases t,
{
    match t {
        TermM::Zero => Some(0),
        TermM::Succ(i) => match nat_value_m(*i) {
            Some(n) => Some(n + 1),
            None => None,
        },
        _ => None,
    }
}

/// Model of a captured one-shot continuation.
pub struct ContM {
    pub used: bool,
    pub frames: Seq<FrameM>,
    pub handler: HandlerM,
    pub frame_size: u32,
}

/// Model of the machine state.
pub struct MachineM {
    pub conts: Seq<ContM>,
    pub max_frame: u32,
    pub data_allocs: u64,
}

pub enum StepM {
    Stepped(TermM, Rule),
    Stuck(Outcome, TermM),
}

pub open spec fn max_u32(a: u32, b: u32) -> u32 {
    if a >= b {
        a
    } else {
        b
    }
}

pub open spec fn bump(n: u64) -> u64 {
    if n < u64::MAX {
        (n + 1) as u64
    } else {
        n
    }
}

/// A step taken inside one context layer.
pub open spec fn nested_m(r: (MachineM, StepM), f: FrameM) -> (MachineM, StepM) {
    match r.1 {
        StepM::Stepped(t, rule) => (r.0, StepM::Stepped(plug1_m(f, t), rule)),
        StepM::Stuck(o, t) => (r.0, StepM::Stuck(o, plug1_m(f, t))),
    }
}

/// The unfolding of `fix*` at `entry`: the member's lambda with every group name bound
/// to the projection of the same group.
pub open spec fn unfold_group_m(bindings: Seq<FixBindingM>, body: TermM, k: nat) -> TermM
    decreases k,
{
    if k == 0 {
        body
    } else {
        let member = bindings[k - 1];
        subst_m(
            unfold_group_m(bindings, body, (k - 1) as nat),
            member.func,
            TermM::FixGroup { bindings, entry: member.func },
        )
    }
}

/// Index of the group member named `entry`.
pub open spec fn member_index(bindings: Seq<FixBindingM>, entry: Seq<char>) -> Option<int>
    decreases bindings.len(),
{
    if bindings.len() == 0 {
        None
    } else if bindings[0].func == entry {
        Some(0)
    } else {
        match member_index(bindings.drop_first(), entry) {
            Some(i) => Some(i + 1),
            None => None,
        }
    }
}

/// Array element replacement.
pub open spec fn array_update(vals: Seq<TermM>, i: int, v: TermM) -> Seq<TermM> {
    vals.update(i, v)
}

/// One reduction step, together with the machine effects (continuation table, frame
/// high-water mark, data-allocation counter).
pub open spec fn step_m(ms: MachineM, t: TermM) -> (MachineM, StepM)
    decreases t,
{
    match t {
        TermM::App(f, a) => if !is_value_m(*f) {
            nested_m(step_m(ms, *f), FrameM::AppFun(*a))
        } else if !is_value_m(*a) {
            nested_m(step_m(ms, *a), FrameM::AppArg(*f))
        } else {
            match *f {
                TermM::Lam { param, body, .. } => (
                    ms,
                    StepM::Stepped(subst_m(*body, param, *a), Rule::Beta),
                ),
                _ => (ms, StepM::Stuck(Outcome::InternalMalformed, t)),
            }
        },
        TermM::Let { var, expr, body } => if is_value_m(*expr) {
            (ms, StepM::Stepped(subst_m(*body, var, *expr), Rule::Let))
        } else {
            nested_m(step_m(ms, *expr), FrameM::Let { var, body: *body })
        },
        TermM::Succ(i) => if is_value_m(*i) {
            (ms, StepM::Stuck(Outcome::InternalMalformed, t))
        } else {
            nested_m(step_m(ms, *i), FrameM::Succ)
        },
        TermM::MkArray(len, fill) => if !is_value_m(*len) {
            nested_m(step_m(ms, *len), FrameM::MkArrayLen(*fill))
        } else if !is_value_m(*fill) {
            nested_m(step_m(ms, *fill), FrameM::MkArrayFill(*len))
        } else {
            match nat_value_m(*len) {
                Some(n) => if n <= u64::MAX && n <= usize::MAX {
                    (
                        MachineM { data_allocs: bump(ms.data_allocs), ..ms },
                        StepM::Stepped(TermM::Array(Seq::new(n, |i: int| *fill)), Rule::ArrayNew),
                    )
                } else {
                    (ms, StepM::Stuck(Outcome::InternalMalformed, t))
                },
                None => (ms, StepM::Stuck(Outcome::InternalMalformed, t)),
            }
        },
        TermM::ArrayGet(array, index) => if !is_value_m(*array) {
            nested_m(step_m(ms, *array), FrameM::ArrayGetArray(*index))
        } else if !is_value_m(*index) {
            nested_m(step_m(ms, *index), FrameM::ArrayGetIndex(*array))
        } else {
            match (*array, nat_value_m(*index)) {
                (TermM::Array(vals), Some(i)) => if i <= u64::MAX {
                    if i < vals.len() {
                        (ms, StepM::Stepped(vals[i as int], Rule::ArrayGet))
                    } else {
                        (
                            ms,
                            StepM::Stuck(
                                Outcome::BoundsTrap,
                                TermM::ArrayGet(array, Box::new(nat_m(i))),
                            ),
                        )
                    }
                } else {
                    (ms, StepM::Stuck(Outcome::InternalMalformed, t))
                },
                _ => (ms, StepM::Stuck(Outcome::InternalMalformed, t)),
            }
        },
        TermM::ArraySet(array, index, value) => if !is_value_m(*array) {
            nested_m(step_m(ms, *array), FrameM::ArraySetArray(*index, *value))
        } else if !is_value_m(*index) {
            nested_m(step_m(ms, *index), FrameM::ArraySetIndex(*array, *value))
        } else if !is_value_m(*value) {
            nested_m(step_m(ms, *value), FrameM::ArraySetValue(*array, *index))
        } else {
            array_set_m(ms, *array, *index, *value)
        },
        TermM::ArrayLen(array) => if !is_value_m(*array) {
            nested_m(step_m(ms, *array), FrameM::ArrayLen)
        } else {
            match *array {
                TermM::Array(vals) => (ms, StepM::Stepped(nat_m(vals.len()), Rule::ArrayLen)),
                _ => (ms, StepM::Stuck(Outcome::InternalMalformed, t)),
            }
        },
        TermM::Move(i) => if is_value_m(*i) {
            (ms, StepM::Stepped(*i, Rule::Move))
        } else {
            nested_m(step_m(ms, *i), FrameM::Move)
        },
        TermM::Freeze(i) => if is_value_m(*i) {
            (ms, StepM::Stepped(*i, Rule::Freeze))
        } else {
            nested_m(step_m(ms, *i), FrameM::Freeze)
        },
        TermM::Inplace(i) => match *i {
            TermM::ArraySet(array, index, value) => if !is_value_m(*array) {
                nested_m(step_m(ms, *array), FrameM::ArraySetArray(*index, *value))
            } else if !is_value_m(*index) {
                nested_m(step_m(ms, *index), FrameM::ArraySetIndex(*array, *value))
            } else if !is_value_m(*value) {
                nested_m(step_m(ms, *value), FrameM::ArraySetValue(*array, *index))
            } else {
                array_set_m(ms, *array, *index, *value)
            },
            _ => if is_value_m(*i) {
                (ms, StepM::Stepped(*i, Rule::Move))
            } else {
                nested_m(step_m(ms, *i), FrameM::Inplace)
            },
        },
        TermM::Mark(_, i) => (ms, StepM::Stepped(*i, Rule::Mark)),
        TermM::CaseNat { scrutinee, zero_body, succ_var, succ_body } => if !is_value_m(
            *scrutinee,
        ) {
            nested_m(
                step_m(ms, *scrutinee),
                FrameM::CaseNat { zero_body: *zero_body, succ_var, succ_body: *succ_body },
            )
        } else {
            match *scrutinee {
                TermM::Zero => (ms, StepM::Stepped(*zero_body, Rule::CaseZero)),
                TermM::Succ(v) => if is_value_m(*v) {
                    (ms, StepM::Stepped(subst_m(*succ_body, succ_var, *v), Rule::CaseSucc))
                } else {
                    (ms, StepM::Stuck(Outcome::InternalMalformed, t))
                },
                _ => (ms, StepM::Stuck(Outcome::InternalMalformed, t)),
            }
        },
        TermM::Fix { func, param, param_ty, body, tag } => (
            ms,
            StepM::Stepped(
                TermM::Lam { param, param_ty, body: Box::new(subst_m(*body, func, t)) },
                Rule::Unfold,
            ),
        ),
        TermM::FixGroup { bindings, entry } => match member_index(bindings, entry) {
            Some(i) => (
                ms,
                StepM::Stepped(
                    TermM::Lam {
                        param: bindings[i].param,
                        param_ty: bindings[i].param_ty,
                        body: Box::new(
                            unfold_group_m(bindings, *bindings[i].body, bindings.len()),
                        ),
                    },
                    Rule::Unfold,
                ),
            ),
            None => (ms, StepM::Stuck(Outcome::InternalMalformed, t)),
        },
        TermM::Perform(l, arg) => if is_value_m(*arg) {
            (ms, StepM::Stuck(Outcome::StuckUnhandledOperation, t))
        } else {
            nested_m(step_m(ms, *arg), FrameM::Perform(l))
        },
        TermM::Handle { body, handler } => if is_value_m(*body) {
            (ms, StepM::Stepped(subst_m(*handler.return_body, handler.return_var, *body), Rule::HReturn))
        } else {
            match decompose_m(*body, Seq::empty()) {
                Some(c) => match first_clause(handler.clauses, c.label) {
                    Some(ci) => handle_op_m(ms, *body, handler, handler.clauses[ci], c),
                    None => nested_m(step_m(ms, *body), FrameM::Handle(handler)),
                },
                None => nested_m(step_m(ms, *body), FrameM::Handle(handler)),
            }
        },
        TermM::Resume { kont, arg } => if !is_value_m(*kont) {
            nested_m(step_m(ms, *kont), FrameM::ResumeKont(*arg))
        } else if !is_value_m(*arg) {
            nested_m(step_m(ms, *arg), FrameM::ResumeArg(*kont))
        } else {
            match *kont {
                TermM::Cont(id) => resume_m(ms, id, *arg),
                _ => (ms, StepM::Stuck(Outcome::InternalMalformed, t)),
            }
        },
        _ => (ms, StepM::Stuck(Outcome::InternalMalformed, t)),
    }
}

/// `set` on value operands: functional array update (always-copy oracle semantics).
pub open spec fn array_set_m(ms: MachineM, array: TermM, index: TermM, value: TermM) -> (
    MachineM,
    StepM,
) {
    let whole = TermM::ArraySet(Box::new(array), Box::new(index), Box::new(value));
    match (array, nat_value_m(index)) {
        (TermM::Array(vals), Some(i)) => if i <= u64::MAX {
            if i < vals.len() {
                (
                    MachineM { data_allocs: bump(ms.data_allocs), ..ms },
                    StepM::Stepped(TermM::Array(array_update(vals, i as int, value)), Rule::ArraySet),
                )
            } else {
                (
                    ms,
                    StepM::Stuck(
                        Outcome::BoundsTrap,
                        TermM::ArraySet(Box::new(array), Box::new(nat_m(i)), Box::new(value)),
                    ),
                )
            }
        } else {
            (ms, StepM::Stuck(Outcome::InternalMalformed, whole))
        },
        _ => (ms, StepM::Stuck(Outcome::InternalMalformed, whole)),
    }
}

/// H-op: the clause receives the operation argument; only a clause that mentions its
/// continuation variable captures the context as a fresh one-shot continuation.
#[verifier::opaque]
pub open spec fn handle_op_m(
    ms: MachineM,
    body: TermM,
    handler: HandlerM,
    clause: OpClauseM,
    c: CapturedM,
) -> (
    MachineM,
    StepM,
) {
    let with_param = subst_m(*clause.op_body, clause.op_param, c.arg);
    if !mentions_m(*clause.op_body, clause.op_k) {
        (ms, StepM::Stepped(with_param, Rule::HOp))
    } else if c.frames.len() <= u32::MAX && ms.conts.len() < u64::MAX && ms.conts.len()
        < usize::MAX {
        let size = c.frames.len() as u32;
        let id = ContId(ms.conts.len() as u64);
        (
            MachineM {
                conts: ms.conts.push(
                    ContM { used: false, frames: c.frames, handler, frame_size: size },
                ),
                max_frame: max_u32(ms.max_frame, size),
                ..ms
            },
            StepM::Stepped(subst_m(with_param, clause.op_k, TermM::Cont(id)), Rule::HOp),
        )
    } else {
        (
            ms,
            StepM::Stuck(
                Outcome::InternalMalformed,
                TermM::Handle { body: Box::new(body), handler },
            ),
        )
    }
}

/// `resume κ v`: re-enter the captured context under its handler, once.
pub open spec fn resume_m(ms: MachineM, id: ContId, arg: TermM) -> (MachineM, StepM) {
    if id.0 < ms.conts.len() {
        let cont = ms.conts[id.0 as int];
        if cont.used {
            (
                ms,
                StepM::Stuck(
                    Outcome::StuckDoubleResume,
                    TermM::Resume { kont: Box::new(TermM::Cont(id)), arg: Box::new(arg) },
                ),
            )
        } else {
            (
                MachineM {
                    conts: ms.conts.update(id.0 as int, ContM { used: true, ..cont }),
                    max_frame: max_u32(ms.max_frame, cont.frame_size),
                    ..ms
                },
                StepM::Stepped(
                    TermM::Handle { body: Box::new(plug_m(arg, cont.frames)), handler: cont.handler },
                    Rule::Resume,
                ),
            )
        }
    } else {
        (ms, StepM::Stuck(Outcome::InternalMalformed, TermM::Cont(id)))
    }
}

/// Node count of the evaluation positions of a term (the measure of `step`).
pub open spec fn size_m(t: TermM) -> nat
    decreases t,
{
    match t {
        TermM::Succ(i) | TermM::ArrayLen(i) | TermM::Move(i) | TermM::Inplace(i)
        | TermM::Freeze(i) | TermM::Mark(_, i) | TermM::Perform(_, i) => 1 + size_m(*i),
        TermM::MkArray(a, b) | TermM::ArrayGet(a, b) | TermM::App(a, b) => 1 + size_m(*a)
            + size_m(*b),
        TermM::ArraySet(a, b, c) => 1 + size_m(*a) + size_m(*b) + size_m(*c),
        TermM::Let { expr, body, .. } => 1 + size_m(*expr) + size_m(*body),
        TermM::CaseNat { scrutinee, .. } => 1 + size_m(*scrutinee),
        TermM::Handle { body, .. } => 1 + size_m(*body),
        TermM::Resume { kont, arg } => 1 + size_m(*kont) + size_m(*arg),
        _ => 1,
    }
}

impl Frame {
    fn duplicate(&self) -> (r: Self)
        ensures
            frame_view(r) == frame_view(*self),
    {
        match self {
            Frame::AppFun(a) => Frame::AppFun(Box::new(a.duplicate())),
            Frame::AppArg(a) => Frame::AppArg(Box::new(a.duplicate())),
            Frame::Let { var, body } => Frame::Let { var: var.clone(), body: Box::new(body.duplicate()) },
            Frame::Perform(l) => Frame::Perform(*l),
            Frame::ResumeKont(a) => Frame::ResumeKont(Box::new(a.duplicate())),
            Frame::ResumeArg(a) => Frame::ResumeArg(Box::new(a.duplicate())),
            Frame::Succ => Frame::Succ,
            Frame::CaseNat { zero_body, succ_var, succ_body } => Frame::CaseNat {
                zero_body: Box::new(zero_body.duplicate()),
                succ_var: succ_var.clone(),
                succ_body: Box::new(succ_body.duplicate()),
            },
            Frame::Handle(h) => Frame::Handle(h.duplicate()),
            Frame::MkArrayLen(a) => Frame::MkArrayLen(Box::new(a.duplicate())),
            Frame::MkArrayFill(a) => Frame::MkArrayFill(Box::new(a.duplicate())),
            Frame::ArrayGetArray(a) => Frame::ArrayGetArray(Box::new(a.duplicate())),
            Frame::ArrayGetIndex(a) => Frame::ArrayGetIndex(Box::new(a.duplicate())),
            Frame::ArraySetArray(a, b) => Frame::ArraySetArray(
                Box::new(a.duplicate()),
                Box::new(b.duplicate()),
            ),
            Frame::ArraySetIndex(a, b) => Frame::ArraySetIndex(
                Box::new(a.duplicate()),
                Box::new(b.duplicate()),
            ),
            Frame::ArraySetValue(a, b) => Frame::ArraySetValue(
                Box::new(a.duplicate()),
                Box::new(b.duplicate()),
            ),
            Frame::ArrayLen => Frame::ArrayLen,
            Frame::Move => Frame::Move,
            Frame::Inplace => Frame::Inplace,
            Frame::Freeze => Frame::Freeze,
        }
    }
}

/// Plugs `term` into one context layer.
fn plug1(frame: Frame, term: Term) -> (r: Term)
    ensures
        r@ == plug1_m(frame_view(frame), term@),
{
    match frame {
        Frame::AppFun(arg) => Term::App(Box::new(term), arg),
        Frame::AppArg(fun) => Term::App(fun, Box::new(term)),
        Frame::Let { var, body } => Term::Let { var, expr: Box::new(term), body },
        Frame::Perform(label) => Term::Perform(label, Box::new(term)),
        Frame::MkArrayLen(fill) => Term::MkArray(Box::new(term), fill),
        Frame::MkArrayFill(len) => Term::MkArray(len, Box::new(term)),
        Frame::ArrayGetArray(index) => Term::ArrayGet(Box::new(term), index),
        Frame::ArrayGetIndex(array) => Term::ArrayGet(array, Box::new(term)),
        Frame::ArraySetArray(index, value) => Term::ArraySet(Box::new(term), index, value),
        Frame::ArraySetIndex(array, value) => Term::ArraySet(array, Box::new(term), value),
        Frame::ArraySetValue(array, index) => Term::ArraySet(array, index, Box::new(term)),
        Frame::ArrayLen => Term::ArrayLen(Box::new(term)),
        Frame::Move => Term::Move(Box::new(term)),
        Frame::Inplace => Term::Inplace(Box::new(term)),
        Frame::Freeze => Term::Freeze(Box::new(term)),
        Frame::ResumeKont(arg) => Term::Resume { kont: Box::new(term), arg },
        Frame::ResumeArg(kont) => Term::Resume { kont, arg: Box::new(term) },
        Frame::Succ => Term::Succ(Box::new(term)),
        Frame::CaseNat { zero_body, succ_var, succ_body } => Term::CaseNat {
            scrutinee: Box::new(term),
            zero_body,
            succ_var,
            succ_body,
        },
        Frame::Handle(handler) => Term::Handle { body: Box::new(term), handler },
    }
}

/// Plugs `term` into a context given outermost-first.
fn plug(term: Term, frames: &Vec<Frame>) -> (r: Term)
    ensures
        r@ == plug_m(term@, frames_view(frames@)),
{
    let mut t = term;
    let mut i = frames.len();
    assert(frames@.subrange(0, frames@.len() as int) =~= frames@);
    while i > 0
        invariant
            i <= frames@.len(),
            plug_m(t@, frames_view(frames@.subrange(0, i as int))) == plug_m(
                term@,
                frames_view(frames@),
            ),
        decreases i,
    {
        let ghost pre = frames@.subrange(0, i as int);
        proof {
            assert(frames_view(pre).drop_last() =~= frames_view(frames@.subrange(0, i - 1)));
            assert(frames_view(pre).last() == frame_view(frames@[i - 1]));
        }
        t = plug1(frames[i - 1].duplicate(), t);
        i -= 1;
    }
    proof {
        assert(frames@.subrange(0, 0) =~= Seq::<Frame>::empty());
        assert(frames_view(frames@.subrange(0, 0)) =~= Seq::<FrameM>::empty());
    }
    t
}

struct Captured {
    label: Label,
    arg: Term,
    frames: Vec<Frame>,
}

/// The clause that `first_clause` picks in a handler's model is the model of the clause
/// at that index.
proof fn lemma_first_clause_view(h: Handler, label: Seq<char>)
    requires
        first_clause(h@.clauses, label) is Some,
    ensures
        0 <= first_clause(h@.clauses, label)->0 < h.clauses@.len(),
        h.clauses@[first_clause(h@.clauses, label)->0]@ == h@.clauses[first_clause(
            h@.clauses,
            label,
        )->0],
{
    lemma_clauses_view(h.clauses@);
    lemma_first_clause(h@.clauses, label);
}

/// Pushes one frame onto a context (by value).
fn with_frame(frames: Vec<Frame>, frame: Frame) -> (r: Vec<Frame>)
    ensures
        frames_view(r@) == frames_view(frames@).push(frame_view(frame)),
{
    let mut next = frames;
    let ghost before = next@;
    next.push(frame);
    assert(frames_view(next@) =~= frames_view(before).push(frame_view(frame)));
    next
}

/// The operation that evaluation would perform next, with its captured context.
fn decompose(term: &Term, frames: Vec<Frame>) -> (r: Option<Captured>)
    ensures
        match decompose_m(term@, frames_view(frames@)) {
            Some(c) => r matches Some(rc) && rc.label@ == c.label && rc.arg@ == c.arg
                && frames_view(rc.frames@) == c.frames,
            None => r is None,
        },
    decreases term,
{
    match term {
        Term::Perform(label, arg) => {
            if arg.is_value() {
                Some(Captured { label: *label, arg: arg.duplicate(), frames })
            } else {
                decompose(arg, with_frame(frames, Frame::Perform(*label)))
            }
        },
        Term::MkArray(len, fill) => {
            if !len.is_value() {
                decompose(len, with_frame(frames, Frame::MkArrayLen(Box::new(fill.duplicate()))))
            } else if !fill.is_value() {
                decompose(fill, with_frame(frames, Frame::MkArrayFill(Box::new(len.duplicate()))))
            } else {
                None
            }
        },
        Term::ArrayGet(array, index) => {
            if !array.is_value() {
                decompose(
                    array,
                    with_frame(frames, Frame::ArrayGetArray(Box::new(index.duplicate()))),
                )
            } else if !index.is_value() {
                decompose(
                    index,
                    with_frame(frames, Frame::ArrayGetIndex(Box::new(array.duplicate()))),
                )
            } else {
                None
            }
        },
        Term::ArraySet(array, index, value) => {
            if !array.is_value() {
                decompose(
                    array,
                    with_frame(
                        frames,
                        Frame::ArraySetArray(
                            Box::new(index.duplicate()),
                            Box::new(value.duplicate()),
                        ),
                    ),
                )
            } else if !index.is_value() {
                decompose(
                    index,
                    with_frame(
                        frames,
                        Frame::ArraySetIndex(
                            Box::new(array.duplicate()),
                            Box::new(value.duplicate()),
                        ),
                    ),
                )
            } else if !value.is_value() {
                decompose(
                    value,
                    with_frame(
                        frames,
                        Frame::ArraySetValue(
                            Box::new(array.duplicate()),
                            Box::new(index.duplicate()),
                        ),
                    ),
                )
            } else {
                None
            }
        },
        Term::ArrayLen(array) => {
            if !array.is_value() {
                decompose(array, with_frame(frames, Frame::ArrayLen))
            } else {
                None
            }
        },
        Term::Move(inner) => {
            if !inner.is_value() {
                decompose(inner, with_frame(frames, Frame::Move))
            } else {
                None
            }
        },
        Term::Inplace(inner) => {
            if !inner.is_value() {
                decompose(inner, with_frame(frames, Frame::Inplace))
            } else {
                None
            }
        },
        Term::Freeze(inner) => {
            if !inner.is_value() {
                decompose(inner, with_frame(frames, Frame::Freeze))
            } else {
                None
            }
        },
        Term::Succ(inner) => {
            if !inner.is_value() {
                decompose(inner, with_frame(frames, Frame::Succ))
            } else {
                None
            }
        },
        Term::CaseNat { scrutinee, zero_body, succ_var, succ_body } => {
            if !scrutinee.is_value() {
                decompose(
                    scrutinee,
                    with_frame(
                        frames,
                        Frame::CaseNat {
                            zero_body: Box::new(zero_body.duplicate()),
                            succ_var: succ_var.clone(),
                            succ_body: Box::new(succ_body.duplicate()),
                        },
                    ),
                )
            } else {
                None
            }
        },
        Term::App(fun, arg) => {
            if !fun.is_value() {
                decompose(fun, with_frame(frames, Frame::AppFun(Box::new(arg.duplicate()))))
            } else if !arg.is_value() {
                decompose(arg, with_frame(frames, Frame::AppArg(Box::new(fun.duplicate()))))
            } else {
                None
            }
        },
        Term::Let { var, expr, body } => {
            if !expr.is_value() {
                decompose(
                    expr,
                    with_frame(
                        frames,
                        Frame::Let { var: var.clone(), body: Box::new(body.duplicate()) },
                    ),
                )
            } else {
                None
            }
        },
        Term::Resume { kont, arg } => {
            if !kont.is_value() {
                decompose(kont, with_frame(frames, Frame::ResumeKont(Box::new(arg.duplicate()))))
            } else if !arg.is_value() {
                decompose(arg, with_frame(frames, Frame::ResumeArg(Box::new(kont.duplicate()))))
            } else {
                None
            }
        },
        Term::Handle { body, handler } => {
            let captured = decompose(body, with_frame(frames, Frame::Handle(handler.duplicate())));
            match captured {
                Some(c) => {
                    if handler.clause_for(c.label).is_some() {
                        None
                    } else {
                        Some(c)
                    }
                },
                None => None,
            }
        },
        _ => None,
    }
}

/// Whether `name` occurs free in `term`.
fn term_mentions_var(term: &Term, name: &str) -> (r: bool)
    ensures
        r == mentions_m(term@, name@),
    decreases term, 0nat,
{
    match term {
        Term::Var(var) => {
            str_eq(var.as_str(), name)
        },
        Term::Unit | Term::Zero | Term::Cont(_) | Term::Array(_) => false,
        Term::Succ(inner) => term_mentions_var(inner, name),
        Term::Perform(_, inner) => term_mentions_var(inner, name),
        Term::ArrayLen(inner) => term_mentions_var(inner, name),
        Term::Move(inner) => term_mentions_var(inner, name),
        Term::Inplace(inner) => term_mentions_var(inner, name),
        Term::Freeze(inner) => term_mentions_var(inner, name),
        Term::Mark(_, inner) => term_mentions_var(inner, name),
        Term::MkArray(a, b) => term_mentions_var(a, name) || term_mentions_var(b, name),
        Term::ArrayGet(a, b) => term_mentions_var(a, name) || term_mentions_var(b, name),
        Term::ArraySet(a, b, c) => term_mentions_var(a, name) || term_mentions_var(b, name)
            || term_mentions_var(c, name),
        Term::Lam { param, body, .. } => !str_eq(param.as_str(), name) && term_mentions_var(
            body,
            name,
        ),
        Term::App(f, a) => term_mentions_var(f, name) || term_mentions_var(a, name),
        Term::Let { var, expr, body } => term_mentions_var(expr, name) || (!str_eq(
            var.as_str(),
            name,
        ) && term_mentions_var(body, name)),
        Term::Fix { func, param, body, .. } => !str_eq(func.as_str(), name) && !str_eq(
            param.as_str(),
            name,
        ) && term_mentions_var(body, name),
        Term::FixGroup { bindings, .. } => {
            let bound = group_binds_exec(bindings, name);
            !bound && bindings_mention(bindings, name)
        },
        Term::CaseNat { scrutinee, zero_body, succ_var, succ_body } => term_mentions_var(
            scrutinee,
            name,
        ) || term_mentions_var(zero_body, name) || (!str_eq(succ_var.as_str(), name)
            && term_mentions_var(succ_body, name)),
        Term::Handle { body, handler } => {
            proof {
                let hv = handler_view(*handler);
                assert(hv.return_var == handler.return_var@);
                assert(*hv.return_body == handler.return_body@);
                assert(hv.clauses == clauses_view(handler.clauses@));
            }
            term_mentions_var(body, name) || (!str_eq(handler.return_var.as_str(), name)
                && term_mentions_var(&handler.return_body, name)) || clauses_mention(
                &handler.clauses,
                name,
            )
        },
        Term::Resume { kont, arg } => term_mentions_var(kont, name) || term_mentions_var(
            arg,
            name,
        ),
    }
}

fn group_binds_exec(bindings: &Vec<FixBinding>, name: &str) -> (r: bool)
    ensures
        r == group_binds(bindings_view(bindings@), name@),
{
    proof {
        lemma_bindings_view(bindings@);
    }
    let mut i: usize = 0;
    while i < bindings.len()
        invariant
            i <= bindings@.len(),
            bindings_view(bindings@).len() == bindings@.len(),
            forall|j: int| 0 <= j < bindings@.len() ==> #[trigger] bindings_view(bindings@)[j]
                == binding_view(bindings@[j]),
            forall|j: int| 0 <= j < i ==> bindings@[j].func@ != name@,
        decreases bindings@.len() - i,
    {
        if str_eq(bindings[i].func.as_str(), name) {
            assert(bindings_view(bindings@)[i as int].func == name@);
            return true;
        }
        i += 1;
    }
    proof {
        assert forall|j: int| 0 <= j < bindings@.len() implies #[trigger] bindings_view(
            bindings@,
        )[j].func != name@ by {
            assert(bindings_view(bindings@)[j] == binding_view(bindings@[j]));
        }
    }
    false
}

fn bindings_mention(v: &Vec<FixBinding>, name: &str) -> (r: bool)
    ensures
        r == bindings_mention_m(bindings_view(v@), name@),
    decreases v, 1nat,
{
    let mut acc = false;
    let mut i: usize = 0;
    while i < v.len()
        invariant
            i <= v@.len(),
            acc == bindings_mention_m(bindings_view(v@.subrange(0, i as int)), name@),
        decreases v@.len() - i,
    {
        proof {
            assert(decreases_to!(v => v@));
            assert(decreases_to!(v@ => v@[i as int]));
            let pre = v@.subrange(0, i as int);
            assert(v@.subrange(0, i + 1).drop_last() =~= pre);
            assert(bindings_view(v@.subrange(0, i + 1)).drop_last() =~= bindings_view(pre));
        }
        let b = &v[i];
        let here = !str_eq(b.param.as_str(), name) && term_mentions_var(&b.body, name);
        proof {
            let sub1 = v@.subrange(0, i + 1);
            assert(sub1.last() == v@[i as int]);
            assert(bindings_view(sub1) == bindings_view(sub1.drop_last()).push(
                binding_view(sub1.last()),
            ));
            assert(bindings_view(sub1).last() == binding_view(v@[i as int]));
        }
        acc = acc || here;
        i += 1;
    }
    assert(v@.subrange(0, v@.len() as int) =~= v@);
    acc
}

fn clauses_mention(v: &Vec<OpClause>, name: &str) -> (r: bool)
    ensures
        r == clauses_mention_m(clauses_view(v@), name@),
    decreases v, 1nat,
{
    let mut acc = false;
    let mut i: usize = 0;
    while i < v.len()
        invariant
            i <= v@.len(),
            acc == clauses_mention_m(clauses_view(v@.subrange(0, i as int)), name@),
        decreases v@.len() - i,
    {
        proof {
            assert(decreases_to!(v => v@));
            assert(decreases_to!(v@ => v@[i as int]));
            let pre = v@.subrange(0, i as int);
            assert(v@.subrange(0, i + 1).drop_last() =~= pre);
            assert(clauses_view(v@.subrange(0, i + 1)).drop_last() =~= clauses_view(pre));
        }
        let c = &v[i];
        let here = !str_eq(c.op_param.as_str(), name) && !str_eq(c.op_k.as_str(), name)
            && term_mentions_var(&c.op_body, name);
        proof {
            let sub1 = v@.subrange(0, i + 1);
            assert(sub1.last() == v@[i as int]);
            assert(clauses_view(sub1) == clauses_view(sub1.drop_last()).push(
                clause_view(sub1.last()),
            ));
            assert(clauses_view(sub1).last() == clause_view(v@[i as int]));
        }
        acc = acc || here;
        i += 1;
    }
    assert(v@.subrange(0, v@.len() as int) =~= v@);
    acc
}

/// The number a numeral denotes, when it fits in `u64`.
fn nat_to_u64(term: &Term) -> (r: Option<u64>)
    ensures
        r matches Some(v) ==> nat_value_m(term@) == Some(v as nat),
        r is None ==> (nat_value_m(term@) matches Some(n) ==> n > u64::MAX),
    decreases term,
{
    match term {
        Term::Zero => Some(0),
        Term::Succ(inner) => match nat_to_u64(inner) {
            Some(v) => {
                if v < u64::MAX {
                    Some(v + 1)
                } else {
                    None
                }
            },
            None => None,
        },
        _ => None,
    }
}

/// Result of one step.
#[derive(Debug, PartialEq, Eq)]
pub enum StepResult {
    Stepped { term: Term, rule: Rule },
    Stuck(Outcome, Term),
}

impl View for StepResult {
    type V = StepM;

    open spec fn view(&self) -> StepM {
        match self {
            StepResult::Stepped { term, rule } => StepM::Stepped(term@, *rule),
            StepResult::Stuck(o, t) => StepM::Stuck(*o, t@),
        }
    }
}

/// A step taken inside one context layer.
fn nested(r: StepResult, frame: Frame) -> (out: StepResult)
    ensures
        out@ == (match r@ {
            StepM::Stepped(t, rule) => StepM::Stepped(plug1_m(frame_view(frame), t), rule),
            StepM::Stuck(o, t) => StepM::Stuck(o, plug1_m(frame_view(frame), t)),
        }),
{
    match r {
        StepResult::Stepped { term, rule } => StepResult::Stepped { term: plug1(frame, term), rule },
        StepResult::Stuck(outcome, term) => StepResult::Stuck(outcome, plug1(frame, term)),
    }
}

#[derive(Debug, PartialEq, Eq)]
struct Continuation {
    used: bool,
    frames: Vec<Frame>,
    handler: Handler,
    frame_size: u32,
}

/// The abstract machine: one-shot continuation table, frame high-water mark, and the
/// data-allocation counter.
#[derive(Debug, PartialEq, Eq)]
pub struct Machine {
    continuations: Vec<Continuation>,
    max_frame: u32,
    data_allocs: u64,
}

spec fn cont_view(c: Continuation) -> ContM {
    ContM { used: c.used, frames: frames_view(c.frames@), handler: c.handler@, frame_size: c.frame_size }
}

impl View for Machine {
    type V = MachineM;

    closed spec fn view(&self) -> MachineM {
        MachineM {
            conts: Seq::new(
                self.continuations@.len(),
                |i: int| cont_view(self.continuations@[i]),
            ),
            max_frame: self.max_frame,
            data_allocs: self.data_allocs,
        }
    }
}

/// The initial machine state.
pub open spec fn initial_machine() -> MachineM {
    MachineM { conts: Seq::empty(), max_frame: 0, data_allocs: 0 }
}

impl Default for Machine {
    fn default() -> (r: Self)
        ensures
            r@ == initial_machine(),
    {
        Self::new()
    }
}

/// Budgeted evaluation: steps until a value, a stuck state, or the budget runs out.
pub open spec fn eval_m(ms: MachineM, t: TermM, fuel: nat, expect_div: bool, trace: Seq<Rule>) -> (
    MachineM,
    EvalReportM,
)
    decreases fuel,
{
    if fuel == 0 {
        (
            ms,
            EvalReportM {
                outcome: if expect_div {
                    Outcome::BudgetExhaustedDiv
                } else {
                    Outcome::InternalMalformed
                },
                final_term: t,
                trace,
                max_frame: ms.max_frame,
                data_allocs: ms.data_allocs,
            },
        )
    } else if is_value_m(t) {
        (
            ms,
            EvalReportM {
                outcome: Outcome::Value,
                final_term: t,
                trace,
                max_frame: ms.max_frame,
                data_allocs: ms.data_allocs,
            },
        )
    } else {
        let (ms2, r) = step_m(ms, t);
        match r {
            StepM::Stepped(t2, rule) => eval_m(ms2, t2, (fuel - 1) as nat, expect_div, trace.push(rule)),
            StepM::Stuck(o, t2) => (
                ms2,
                EvalReportM {
                    outcome: o,
                    final_term: t2,
                    trace,
                    max_frame: ms2.max_frame,
                    data_allocs: ms2.data_allocs,
                },
            ),
        }
    }
}

/// A step never lowers the frame high-water mark, and a stuck step reports neither a
/// value, nor a term that could step, nor an exhausted budget.
pub open spec fn step_sound(ms: MachineM, r: (MachineM, StepM)) -> bool {
    &&& r.0.max_frame >= ms.max_frame
    &&& r.1 matches StepM::Stuck(o, _) ==> o != Outcome::Value && o != Outcome::Stepable && o
        != Outcome::BudgetExhaustedDiv
}

#[verifier::rlimit(80)]
pub proof fn lemma_step_sound(ms: MachineM, t: TermM)
    ensures
        step_sound(ms, step_m(ms, t)),
    decreases t,
{
    match t {
        TermM::Succ(a) => lemma_step_sound(ms, *a),
        TermM::ArrayLen(a) => lemma_step_sound(ms, *a),
        TermM::Move(a) => lemma_step_sound(ms, *a),
        TermM::Freeze(a) => lemma_step_sound(ms, *a),
        TermM::Perform(_, a) => lemma_step_sound(ms, *a),
        TermM::Inplace(a) => {
            lemma_step_sound(ms, *a);
            if let TermM::ArraySet(x, y, z) = *a {
                lemma_step_sound(ms, *x);
                lemma_step_sound(ms, *y);
                lemma_step_sound(ms, *z);
            }
        },
        TermM::MkArray(a, b) | TermM::ArrayGet(a, b) | TermM::App(a, b) => {
            lemma_step_sound(ms, *a);
            lemma_step_sound(ms, *b);
        },
        TermM::Resume { kont, arg } => {
            lemma_step_sound(ms, *kont);
            lemma_step_sound(ms, *arg);
        },
        TermM::ArraySet(a, b, c) => {
            lemma_step_sound(ms, *a);
            lemma_step_sound(ms, *b);
            lemma_step_sound(ms, *c);
        },
        TermM::CaseNat { scrutinee, .. } => lemma_step_sound(ms, *scrutinee),
        TermM::Let { expr, .. } => lemma_step_sound(ms, *expr),
        TermM::Handle { body, .. } => {
            reveal(handle_op_m);
            lemma_step_sound(ms, *body);
        },
        _ => {},
    }
}

/// Evaluation for `fuel` steps after `trace`: the trace only grows, by at most one rule a
/// step; the outcome is never a term that could still step; `Value` comes with a value;
/// an exhausted budget only when divergence was expected and every step was taken; and the
/// frame high-water mark never falls.
pub proof fn lemma_eval_laws(ms: MachineM, t: TermM, fuel: nat, expect_div: bool, trace: Seq<Rule>)
    ensures
        ({
            let (ms2, r) = eval_m(ms, t, fuel, expect_div, trace);
            &&& trace.len() <= r.trace.len() <= trace.len() + fuel
            &&& r.trace.subrange(0, trace.len() as int) == trace
            &&& r.outcome != Outcome::Stepable
            &&& (r.outcome == Outcome::Value ==> is_value_m(r.final_term))
            &&& (r.outcome == Outcome::BudgetExhaustedDiv ==> expect_div && r.trace.len() == trace.len() + fuel)
            &&& r.max_frame == ms2.max_frame
            &&& ms2.max_frame >= ms.max_frame
        }),
    decreases fuel,
{
    assert(trace.subrange(0, trace.len() as int) =~= trace);
    if fuel > 0 && !is_value_m(t) {
        lemma_step_sound(ms, t);
        let (ms2, r) = step_m(ms, t);
        match r {
            StepM::Stepped(t2, rule) => {
                lemma_eval_laws(ms2, t2, (fuel - 1) as nat, expect_div, trace.push(rule));
                let out = eval_m(ms2, t2, (fuel - 1) as nat, expect_div, trace.push(rule)).1.trace;
                assert(out.subrange(0, trace.len() as int) =~= out.subrange(0, (trace.len() + 1) as int).subrange(
                    0,
                    trace.len() as int,
                ));
                assert(trace.push(rule).subrange(0, trace.len() as int) =~= trace);
            },
            StepM::Stuck(_, _) => {},
        }
    }
}

impl Machine {
    pub fn new() -> (r: Self)
        ensures
            r@ == initial_machine(),
    {
        let r = Self { continuations: Vec::new(), max_frame: 0, data_allocs: 0 };
        assert(r@.conts =~= Seq::<ContM>::empty());
        r
    }

    pub fn max_frame(&self) -> (r: u32)
        ensures
            r == self@.max_frame,
    {
        self.max_frame
    }

    /// Evaluates `term` for at most `budget` steps.
    pub fn eval(&mut self, term: Term, budget: usize, expect_div: bool) -> (r: EvalReport)
        ensures
            (final(self)@, r@) == eval_m(old(self)@, term@, budget as nat, expect_div, Seq::empty()),
    {
        let mut current = term;
        let mut trace: Vec<Rule> = Vec::new();
        let mut i: usize = 0;
        while i < budget
            invariant
                i <= budget,
                eval_m(self@, current@, (budget - i) as nat, expect_div, trace@) == eval_m(
                    old(self)@,
                    term@,
                    budget as nat,
                    expect_div,
                    Seq::empty(),
                ),
            decreases budget - i,
        {
            if current.is_value() {
                return EvalReport {
                    outcome: Outcome::Value,
                    final_term: current,
                    trace,
                    max_frame: self.max_frame,
                    data_allocs: self.data_allocs,
                };
            }
            let ghost before = self@;
            match self.step(current) {
                StepResult::Stepped { term: next, rule } => {
                    current = next;
                    trace.push(rule);
                },
                StepResult::Stuck(outcome, stuck) => {
                    return EvalReport {
                        outcome,
                        final_term: stuck,
                        trace,
                        max_frame: self.max_frame,
                        data_allocs: self.data_allocs,
                    };
                },
            }
            i += 1;
        }
        EvalReport {
            outcome: if expect_div {
                Outcome::BudgetExhaustedDiv
            } else {
                Outcome::InternalMalformed
            },
            final_term: current,
            trace,
            max_frame: self.max_frame,
            data_allocs: self.data_allocs,
        }
    }

    /// One reduction step.
    pub fn step(&mut self, term: Term) -> (r: StepResult)
        ensures
            (final(self)@, r@) == step_m(old(self)@, term@),
        decreases size_m(term@), 3nat,
    {
        match term {
            Term::App(fun, arg) => self.step_app(*fun, *arg),
            Term::Let { var, expr, body } => self.step_let(var, *expr, *body),
            Term::Succ(inner) => self.step_succ(*inner),
            Term::MkArray(len, fill) => self.step_mkarray(*len, *fill),
            Term::ArrayGet(array, index) => self.step_array_get(*array, *index),
            Term::ArraySet(array, index, value) => self.step_array_set(*array, *index, *value),
            Term::ArrayLen(array) => self.step_array_len(*array),
            Term::Move(inner) => self.step_move(*inner),
            Term::Inplace(inner) => self.step_inplace(*inner),
            Term::Freeze(inner) => self.step_freeze(*inner),
            Term::Mark(_, inner) => StepResult::Stepped { term: *inner, rule: Rule::Mark },
            Term::CaseNat { scrutinee, zero_body, succ_var, succ_body } => self.step_case_nat(
                *scrutinee,
                *zero_body,
                succ_var,
                *succ_body,
            ),
            Term::Fix { func, param, param_ty, body, tag } => {
                let fix = Term::Fix {
                    func: func.clone(),
                    param: param.clone(),
                    param_ty: param_ty.duplicate(),
                    body: Box::new(body.duplicate()),
                    tag,
                };
                let unfolded_body = body.subst(func.as_str(), &fix);
                StepResult::Stepped {
                    term: Term::Lam { param, param_ty, body: Box::new(unfolded_body) },
                    rule: Rule::Unfold,
                }
            },
            Term::FixGroup { bindings, entry } => self.step_fix_group(bindings, entry),
            Term::Perform(label, arg) => self.step_perform(label, *arg),
            Term::Handle { body, handler } => self.step_handle(*body, handler),
            Term::Resume { kont, arg } => self.step_resume(*kont, *arg),
            value_or_var => StepResult::Stuck(Outcome::InternalMalformed, value_or_var),
        }
    }

    fn step_fix_group(&mut self, bindings: Vec<FixBinding>, entry: String) -> (r: StepResult)
        ensures
            (final(self)@, r@) == step_m(
                old(self)@,
                TermM::FixGroup { bindings: bindings_view(bindings@), entry: entry@ },
            ),
    {
        let ghost bm = bindings_view(bindings@);
        proof {
            lemma_bindings_view(bindings@);
        }
        let mut found: Option<usize> = None;
        let mut i: usize = 0;
        while i < bindings.len()
            invariant
                i <= bindings@.len(),
                bm == bindings_view(bindings@),
                bm.len() == bindings@.len(),
                forall|j: int| 0 <= j < bm.len() ==> #[trigger] bm[j] == binding_view(bindings@[j]),
                found matches Some(k) ==> member_index(bm, entry@) == Some(k as int) && k < bindings@.len(),
                found is None ==> forall|j: int| 0 <= j < i ==> bm[j].func != entry@,
            decreases bindings@.len() - i,
        {
            if found.is_none() && str_eq(bindings[i].func.as_str(), entry.as_str()) {
                proof {
                    lemma_member_index(bm, entry@, i as int);
                }
                found = Some(i);
            }
            i += 1;
        }
        let k = match found {
            Some(k) => k,
            None => {
                proof {
                    lemma_member_index_none(bm, entry@);
                }
                return StepResult::Stuck(Outcome::InternalMalformed, Term::FixGroup { bindings, entry });
            },
        };
        let binding = bindings[k].duplicate();
        let mut unfolded_body = binding.body.duplicate();
        let mut m: usize = 0;
        while m < bindings.len()
            invariant
                m <= bindings@.len(),
                bm == bindings_view(bindings@),
                bm.len() == bindings@.len(),
                forall|j: int| 0 <= j < bm.len() ==> #[trigger] bm[j] == binding_view(bindings@[j]),
                unfolded_body@ == unfold_group_m(bm, *binding@.body, m as nat),
            decreases bindings@.len() - m,
        {
            let projection = Term::FixGroup {
                bindings: dup_bindings(&bindings),
                entry: bindings[m].func.clone(),
            };
            unfolded_body = unfolded_body.subst(bindings[m].func.as_str(), &projection);
            m += 1;
        }
        StepResult::Stepped {
            term: Term::Lam {
                param: binding.param,
                param_ty: binding.param_ty,
                body: Box::new(unfolded_body),
            },
            rule: Rule::Unfold,
        }
    }

    fn step_succ(&mut self, inner: Term) -> (r: StepResult)
        ensures
            (final(self)@, r@) == step_m(old(self)@, TermM::Succ(Box::new(inner@))),
        decreases size_m(TermM::Succ(Box::new(inner@))), 0nat,
    {
        if inner.is_value() {
            StepResult::Stuck(Outcome::InternalMalformed, Term::Succ(Box::new(inner)))
        } else {
            let r = self.step(inner);
            nested(r, Frame::Succ)
        }
    }

    fn step_case_nat(&mut self, scrutinee: Term, zero_body: Term, succ_var: String, succ_body: Term) -> (r:
        StepResult)
        ensures
            (final(self)@, r@) == step_m(
                old(self)@,
                TermM::CaseNat {
                    scrutinee: Box::new(scrutinee@),
                    zero_body: Box::new(zero_body@),
                    succ_var: succ_var@,
                    succ_body: Box::new(succ_body@),
                },
            ),
        decreases size_m(
            TermM::CaseNat {
                scrutinee: Box::new(scrutinee@),
                zero_body: Box::new(zero_body@),
                succ_var: succ_var@,
                succ_body: Box::new(succ_body@),
            },
        ), 0nat,
    {
        if !scrutinee.is_value() {
            let r = self.step(scrutinee);
            return nested(
                r,
                Frame::CaseNat { zero_body: Box::new(zero_body), succ_var, succ_body: Box::new(succ_body) },
            );
        }
        match scrutinee {
            Term::Zero => StepResult::Stepped { term: zero_body, rule: Rule::CaseZero },
            Term::Succ(value) => {
                if value.is_value() {
                    StepResult::Stepped {
                        term: succ_body.subst(succ_var.as_str(), &value),
                        rule: Rule::CaseSucc,
                    }
                } else {
                    StepResult::Stuck(
                        Outcome::InternalMalformed,
                        Term::CaseNat {
                            scrutinee: Box::new(Term::Succ(value)),
                            zero_body: Box::new(zero_body),
                            succ_var,
                            succ_body: Box::new(succ_body),
                        },
                    )
                }
            },
            other => StepResult::Stuck(
                Outcome::InternalMalformed,
                Term::CaseNat {
                    scrutinee: Box::new(other),
                    zero_body: Box::new(zero_body),
                    succ_var,
                    succ_body: Box::new(succ_body),
                },
            ),
        }
    }

    fn step_mkarray(&mut self, len: Term, fill: Term) -> (r: StepResult)
        ensures
            (final(self)@, r@) == step_m(old(self)@, TermM::MkArray(Box::new(len@), Box::new(fill@))),
        decreases size_m(TermM::MkArray(Box::new(len@), Box::new(fill@))), 0nat,
    {
        if !len.is_value() {
            let r = self.step(len);
            return nested(r, Frame::MkArrayLen(Box::new(fill)));
        }
        if !fill.is_value() {
            let r = self.step(fill);
            return nested(r, Frame::MkArrayFill(Box::new(len)));
        }
        let n = match nat_to_u64(&len) {
            Some(n) => n,
            None => {
                return StepResult::Stuck(
                    Outcome::InternalMalformed,
                    Term::MkArray(Box::new(len), Box::new(fill)),
                );
            },
        };
        if n > usize::MAX as u64 {
            return StepResult::Stuck(
                Outcome::InternalMalformed,
                Term::MkArray(Box::new(len), Box::new(fill)),
            );
        }
        let count = n as usize;
        let mut values: Vec<Term> = Vec::new();
        let mut i: usize = 0;
        while i < count
            invariant
                i <= count,
                terms_view(values@) == Seq::new(i as nat, |j: int| fill@),
            decreases count - i,
        {
            let ghost before = values@;
            values.push(fill.duplicate());
            proof {
                assert(values@.drop_last() =~= before);
                assert(terms_view(values@) =~= Seq::new((i + 1) as nat, |j: int| fill@));
            }
            i += 1;
        }
        self.data_allocs = if self.data_allocs < u64::MAX { self.data_allocs + 1 } else { self.data_allocs };
        proof {
            assert(self@.conts =~= old(self)@.conts);
        }
        StepResult::Stepped { term: Term::Array(values), rule: Rule::ArrayNew }
    }

    fn step_array_get(&mut self, array: Term, index: Term) -> (r: StepResult)
        ensures
            (final(self)@, r@) == step_m(old(self)@, TermM::ArrayGet(Box::new(array@), Box::new(index@))),
        decreases size_m(TermM::ArrayGet(Box::new(array@), Box::new(index@))), 0nat,
    {
        if !array.is_value() {
            let r = self.step(array);
            return nested(r, Frame::ArrayGetArray(Box::new(index)));
        }
        if !index.is_value() {
            let r = self.step(index);
            return nested(r, Frame::ArrayGetIndex(Box::new(array)));
        }
        let idx = nat_to_u64(&index);
        match (&array, idx) {
            (Term::Array(values), Some(i)) => {
                proof {
                    lemma_terms_view(values@);
                }
                if i < values.len() as u64 {
                    StepResult::Stepped { term: values[i as usize].duplicate(), rule: Rule::ArrayGet }
                } else {
                    StepResult::Stuck(
                        Outcome::BoundsTrap,
                        Term::ArrayGet(Box::new(array), Box::new(Term::natural(i))),
                    )
                }
            },
            _ => StepResult::Stuck(
                Outcome::InternalMalformed,
                Term::ArrayGet(Box::new(array), Box::new(index)),
            ),
        }
    }

    fn step_array_set(&mut self, array: Term, index: Term, value: Term) -> (r: StepResult)
        ensures
            (final(self)@, r@) == step_m(
                old(self)@,
                TermM::ArraySet(Box::new(array@), Box::new(index@), Box::new(value@)),
            ),
        decreases size_m(TermM::ArraySet(Box::new(array@), Box::new(index@), Box::new(value@))), 0nat,
    {
        if !array.is_value() {
            let r = self.step(array);
            return nested(r, Frame::ArraySetArray(Box::new(index), Box::new(value)));
        }
        if !index.is_value() {
            let r = self.step(index);
            return nested(r, Frame::ArraySetIndex(Box::new(array), Box::new(value)));
        }
        if !value.is_value() {
            let r = self.step(value);
            return nested(r, Frame::ArraySetValue(Box::new(array), Box::new(index)));
        }
        self.set_values(array, index, value)
    }

    /// `set` on value operands.
    fn set_values(&mut self, array: Term, index: Term, value: Term) -> (r: StepResult)
        ensures
            (final(self)@, r@) == array_set_m(old(self)@, array@, index@, value@),
    {
        let idx = nat_to_u64(&index);
        match (&array, idx) {
            (Term::Array(values), Some(i)) => {
                proof {
                    lemma_terms_view(values@);
                }
                if i < values.len() as u64 {
                    let at = i as usize;
                    let mut next: Vec<Term> = Vec::new();
                    let mut j: usize = 0;
                    while j < values.len()
                        invariant
                            j <= values@.len(),
                            at < values@.len(),
                            terms_view(values@).len() == values@.len(),
                            forall|q: int| 0 <= q < values@.len() ==> #[trigger] terms_view(values@)[q] == term_view(values@[q]),
                            terms_view(next@) == array_update(terms_view(values@), at as int, value@).subrange(0, j as int),
                        decreases values@.len() - j,
                    {
                        let ghost before = next@;
                        let t = if j == at { value.duplicate() } else { values[j].duplicate() };
                        next.push(t);
                        proof {
                            assert(next@.drop_last() =~= before);
                            assert(terms_view(next@) =~= array_update(terms_view(values@), at as int, value@).subrange(0, j + 1));
                        }
                        j += 1;
                    }
                    assert(array_update(terms_view(values@), at as int, value@).subrange(0, values@.len() as int) =~= array_update(terms_view(values@), at as int, value@));
                    self.data_allocs = if self.data_allocs < u64::MAX { self.data_allocs + 1 } else { self.data_allocs };
                    proof {
                        assert(self@.conts =~= old(self)@.conts);
                    }
                    StepResult::Stepped { term: Term::Array(next), rule: Rule::ArraySet }
                } else {
                    StepResult::Stuck(
                        Outcome::BoundsTrap,
                        Term::ArraySet(Box::new(array), Box::new(Term::natural(i)), Box::new(value)),
                    )
                }
            },
            _ => StepResult::Stuck(
                Outcome::InternalMalformed,
                Term::ArraySet(Box::new(array), Box::new(index), Box::new(value)),
            ),
        }
    }

    fn step_array_len(&mut self, array: Term) -> (r: StepResult)
        ensures
            (final(self)@, r@) == step_m(old(self)@, TermM::ArrayLen(Box::new(array@))),
        decreases size_m(TermM::ArrayLen(Box::new(array@))), 0nat,
    {
        if !array.is_value() {
            let r = self.step(array);
            return nested(r, Frame::ArrayLen);
        }
        match array {
            Term::Array(values) => {
                proof {
                    lemma_terms_view(values@);
                }
                StepResult::Stepped { term: Term::natural(values.len() as u64), rule: Rule::ArrayLen }
            },
            other => StepResult::Stuck(Outcome::InternalMalformed, Term::ArrayLen(Box::new(other))),
        }
    }

    fn step_move(&mut self, inner: Term) -> (r: StepResult)
        ensures
            (final(self)@, r@) == step_m(old(self)@, TermM::Move(Box::new(inner@))),
        decreases size_m(TermM::Move(Box::new(inner@))), 0nat,
    {
        if inner.is_value() {
            StepResult::Stepped { term: inner, rule: Rule::Move }
        } else {
            let r = self.step(inner);
            nested(r, Frame::Move)
        }
    }

    fn step_freeze(&mut self, inner: Term) -> (r: StepResult)
        ensures
            (final(self)@, r@) == step_m(old(self)@, TermM::Freeze(Box::new(inner@))),
        decreases size_m(TermM::Freeze(Box::new(inner@))), 0nat,
    {
        if inner.is_value() {
            StepResult::Stepped { term: inner, rule: Rule::Freeze }
        } else {
            let r = self.step(inner);
            nested(r, Frame::Freeze)
        }
    }

    fn step_inplace(&mut self, inner: Term) -> (r: StepResult)
        ensures
            (final(self)@, r@) == step_m(old(self)@, TermM::Inplace(Box::new(inner@))),
        decreases size_m(TermM::Inplace(Box::new(inner@))), 0nat,
    {
        match inner {
            Term::ArraySet(array, index, value) => self.step_array_set(*array, *index, *value),
            other => {
                if other.is_value() {
                    StepResult::Stepped { term: other, rule: Rule::Move }
                } else {
                    let r = self.step(other);
                    nested(r, Frame::Inplace)
                }
            },
        }
    }

    fn step_app(&mut self, fun: Term, arg: Term) -> (r: StepResult)
        ensures
            (final(self)@, r@) == step_m(old(self)@, TermM::App(Box::new(fun@), Box::new(arg@))),
        decreases size_m(TermM::App(Box::new(fun@), Box::new(arg@))), 0nat,
    {
        if !fun.is_value() {
            let r = self.step(fun);
            return nested(r, Frame::AppFun(Box::new(arg)));
        }
        if !arg.is_value() {
            let r = self.step(arg);
            return nested(r, Frame::AppArg(Box::new(fun)));
        }
        match fun {
            Term::Lam { param, body, .. } => StepResult::Stepped {
                term: body.subst(param.as_str(), &arg),
                rule: Rule::Beta,
            },
            other => StepResult::Stuck(
                Outcome::InternalMalformed,
                Term::App(Box::new(other), Box::new(arg)),
            ),
        }
    }

    fn step_let(&mut self, var: String, expr: Term, body: Term) -> (r: StepResult)
        ensures
            (final(self)@, r@) == step_m(
                old(self)@,
                TermM::Let { var: var@, expr: Box::new(expr@), body: Box::new(body@) },
            ),
        decreases size_m(TermM::Let { var: var@, expr: Box::new(expr@), body: Box::new(body@) }), 0nat,
    {
        if expr.is_value() {
            StepResult::Stepped { term: body.subst(var.as_str(), &expr), rule: Rule::Let }
        } else {
            let r = self.step(expr);
            nested(r, Frame::Let { var, body: Box::new(body) })
        }
    }

    fn step_perform(&mut self, label: Label, arg: Term) -> (r: StepResult)
        ensures
            (final(self)@, r@) == step_m(old(self)@, TermM::Perform(label@, Box::new(arg@))),
        decreases size_m(TermM::Perform(label@, Box::new(arg@))), 0nat,
    {
        if arg.is_value() {
            StepResult::Stuck(Outcome::StuckUnhandledOperation, Term::Perform(label, Box::new(arg)))
        } else {
            let r = self.step(arg);
            nested(r, Frame::Perform(label))
        }
    }

    fn step_handle(&mut self, body: Term, handler: Handler) -> (r: StepResult)
        ensures
            (final(self)@, r@) == step_m(
                old(self)@,
                TermM::Handle { body: Box::new(body@), handler: handler@ },
            ),
        decreases size_m(TermM::Handle { body: Box::new(body@), handler: handler@ }), 2nat,
    {
        if body.is_value() {
            StepResult::Stepped {
                term: handler.return_body.subst(handler.return_var.as_str(), &body),
                rule: Rule::HReturn,
            }
        } else {
            self.step_handled_body(body, handler)
        }
    }

    /// A `handle` whose body is not yet a value: a handled operation, or a step inside.
    fn step_handled_body(&mut self, body: Term, handler: Handler) -> (r: StepResult)
        requires
            !is_value_m(body@),
        ensures
            (final(self)@, r@) == match decompose_m(body@, Seq::empty()) {
                Some(c) => match first_clause(handler@.clauses, c.label) {
                    Some(ci) => handle_op_m(old(self)@, body@, handler@, handler@.clauses[ci], c),
                    None => nested_m(step_m(old(self)@, body@), FrameM::Handle(handler@)),
                },
                None => nested_m(step_m(old(self)@, body@), FrameM::Handle(handler@)),
            },
        decreases size_m(TermM::Handle { body: Box::new(body@), handler: handler@ }), 1nat,
    {
        let empty: Vec<Frame> = Vec::new();
        proof {
            assert(frames_view(empty@) =~= Seq::<FrameM>::empty());
        }
        match decompose(&body, empty) {
            Some(captured) => match self.step_handled_op(&body, &handler, captured) {
                Some(r) => r,
                None => self.step_inside_handler(body, handler),
            },
            None => self.step_inside_handler(body, handler),
        }
    }

    /// A `handle` whose body performs an operation: the first clause for it runs, if the
    /// handler has one (`None`, with the machine untouched, if not).
    fn step_handled_op(&mut self, body: &Term, handler: &Handler, captured: Captured) -> (r:
        Option<StepResult>)
        ensures
            match first_clause(handler@.clauses, captured.label@) {
                Some(ci) => r matches Some(res) && (final(self)@, res@) == handle_op_m(
                    old(self)@,
                    body@,
                    handler@,
                    handler@.clauses[ci],
                    CapturedM {
                        label: captured.label@,
                        arg: captured.arg@,
                        frames: frames_view(captured.frames@),
                    },
                ),
                None => r is None && final(self)@ == old(self)@,
            },
    {
        match handler.clause_for(captured.label) {
            Some(clause) => {
                proof {
                    lemma_first_clause_view(*handler, captured.label@);
                }
                Some(self.handle_op(body.duplicate(), handler, clause, captured))
            },
            None => None,
        }
    }

    /// A step of the handled body, inside the handler's frame.
    fn step_inside_handler(&mut self, body: Term, handler: Handler) -> (r: StepResult)
        ensures
            (final(self)@, r@) == nested_m(step_m(old(self)@, body@), FrameM::Handle(handler@)),
        decreases size_m(TermM::Handle { body: Box::new(body@), handler: handler@ }), 0nat,
    {
        let r = self.step(body);
        nested(r, Frame::Handle(handler))
    }

    fn handle_op(&mut self, body: Term, handler: &Handler, clause: &OpClause, captured: Captured) -> (r:
        StepResult)
        ensures
            (final(self)@, r@) == handle_op_m(
                old(self)@,
                body@,
                handler@,
                clause@,
                CapturedM {
                    label: captured.label@,
                    arg: captured.arg@,
                    frames: frames_view(captured.frames@),
                },
            ),
    {
        reveal(handle_op_m);
        let with_param = clause.op_body.subst(clause.op_param.as_str(), &captured.arg);
        if !term_mentions_var(&clause.op_body, clause.op_k.as_str()) {
            return StepResult::Stepped { term: with_param, rule: Rule::HOp };
        }
        if captured.frames.len() > u32::MAX as usize || self.continuations.len() as u64 == u64::MAX
            || self.continuations.len() == usize::MAX {
            return StepResult::Stuck(
                Outcome::InternalMalformed,
                Term::Handle { body: Box::new(body), handler: handler.duplicate() },
            );
        }
        let frame_size = captured.frames.len() as u32;
        self.max_frame = if self.max_frame >= frame_size { self.max_frame } else { frame_size };
        let id = ContId(self.continuations.len() as u64);
        self.continuations.push(
            Continuation { used: false, frames: captured.frames, handler: handler.duplicate(), frame_size },
        );
        proof {
            assert(self@.conts =~= old(self)@.conts.push(
                ContM {
                    used: false,
                    frames: frames_view(captured.frames@),
                    handler: handler@,
                    frame_size,
                },
            ));
        }
        let with_k = with_param.subst(clause.op_k.as_str(), &Term::Cont(id));
        StepResult::Stepped { term: with_k, rule: Rule::HOp }
    }

    fn step_resume(&mut self, kont: Term, arg: Term) -> (r: StepResult)
        ensures
            (final(self)@, r@) == step_m(
                old(self)@,
                TermM::Resume { kont: Box::new(kont@), arg: Box::new(arg@) },
            ),
        decreases size_m(TermM::Resume { kont: Box::new(kont@), arg: Box::new(arg@) }), 0nat,
    {
        if !kont.is_value() {
            let r = self.step(kont);
            return nested(r, Frame::ResumeKont(Box::new(arg)));
        }
        if !arg.is_value() {
            let r = self.step(arg);
            return nested(r, Frame::ResumeArg(Box::new(kont)));
        }
        match kont {
            Term::Cont(id) => self.resume_continuation(id, arg),
            other => StepResult::Stuck(
                Outcome::InternalMalformed,
                Term::Resume { kont: Box::new(other), arg: Box::new(arg) },
            ),
        }
    }

    #[verifier::rlimit(60)]
    fn resume_continuation(&mut self, id: ContId, arg: Term) -> (r: StepResult)
        ensures
            (final(self)@, r@) == resume_m(old(self)@, id, arg@),
    {
        if id.0 >= self.continuations.len() as u64 {
            return StepResult::Stuck(Outcome::InternalMalformed, Term::Cont(id));
        }
        let at = id.0 as usize;
        proof {
            assert(self@.conts[at as int] == cont_view(self.continuations@[at as int]));
        }
        if self.continuations[at].used {
            let kont = Term::Cont(id);
            assert(kont@ == TermM::Cont(id));
            let stuck = Term::Resume { kont: Box::new(kont), arg: Box::new(arg) };
            assert(stuck@ == TermM::Resume { kont: Box::new(TermM::Cont(id)), arg: Box::new(arg@) });
            return StepResult::Stuck(Outcome::StuckDoubleResume, stuck);
        }
        let frame_size = self.continuations[at].frame_size;
        self.max_frame = if self.max_frame >= frame_size { self.max_frame } else { frame_size };
        let handler = self.continuations[at].handler.duplicate();
        let resumed_body = plug(arg, &self.continuations[at].frames);
        let spent = Continuation {
            used: true,
            frames: dup_frames(&self.continuations[at].frames),
            handler: self.continuations[at].handler.duplicate(),
            frame_size,
        };
        self.continuations.set(at, spent);
        proof {
            let cont = old(self)@.conts[at as int];
            assert(self@.conts =~= old(self)@.conts.update(at as int, ContM { used: true, ..cont }));
        }
        StepResult::Stepped {
            term: Term::Handle { body: Box::new(resumed_body), handler },
            rule: Rule::Resume,
        }
    }
}

fn dup_frames(v: &Vec<Frame>) -> (r: Vec<Frame>)
    ensures
        frames_view(r@) == frames_view(v@),
{
    let mut out: Vec<Frame> = Vec::new();
    let mut i: usize = 0;
    while i < v.len()
        invariant
            i <= v@.len(),
            out@.len() == i,
            forall|j: int| 0 <= j < i ==> #[trigger] frame_view(out@[j]) == frame_view(v@[j]),
        decreases v@.len() - i,
    {
        out.push(v[i].duplicate());
        i += 1;
    }
    assert(frames_view(out@) =~= frames_view(v@));
    out
}

fn dup_bindings(v: &Vec<FixBinding>) -> (r: Vec<FixBinding>)
    ensures
        bindings_view(r@) == bindings_view(v@),
{
    let mut out: Vec<FixBinding> = Vec::new();
    let mut i: usize = 0;
    while i < v.len()
        invariant
            i <= v@.len(),
            bindings_view(out@) == bindings_view(v@.subrange(0, i as int)),
        decreases v@.len() - i,
    {
        let b = v[i].duplicate();
        let ghost before = out@;
        out.push(b);
        proof {
            assert(out@.drop_last() =~= before);
            assert(v@.subrange(0, i + 1).drop_last() =~= v@.subrange(0, i as int));
        }
        i += 1;
    }
    assert(v@.subrange(0, v@.len() as int) =~= v@);
    out
}

proof fn lemma_member_index(bm: Seq<FixBindingM>, entry: Seq<char>, i: int)
    requires
        0 <= i < bm.len(),
        bm[i].func == entry,
        forall|j: int| 0 <= j < i ==> bm[j].func != entry,
    ensures
        member_index(bm, entry) == Some(i),
    decreases bm.len(),
{
    if i > 0 {
        lemma_member_index(bm.drop_first(), entry, i - 1);
    }
}

proof fn lemma_member_index_none(bm: Seq<FixBindingM>, entry: Seq<char>)
    requires
        forall|j: int| 0 <= j < bm.len() ==> bm[j].func != entry,
    ensures
        member_index(bm, entry) is None,
    decreases bm.len(),
{
    if bm.len() > 0 {
        lemma_member_index_none(bm.drop_first(), entry);
    }
}

/// Evaluates `term` on a fresh machine.
pub fn eval(term: Term, budget: usize, expect_div: bool) -> (r: EvalReport)
    ensures
        r@ == eval_m(initial_machine(), term@, budget as nat, expect_div, Seq::empty()).1,
{
    Machine::new().eval(term, budget, expect_div)
}

/// Whether `term` is a value, can step, or is stuck (and how).
pub fn classify_progress(term: Term) -> (r: Outcome)
    ensures
        r == (if is_value_m(term@) {
            Outcome::Value
        } else {
            match step_m(initial_machine(), term@).1 {
                StepM::Stepped(_, _) => Outcome::Stepable,
                StepM::Stuck(o, _) => o,
            }
        }),
{
    if term.is_value() {
        return Outcome::Value;
    }
    match Machine::new().step(term) {
        StepResult::Stepped { .. } => Outcome::Stepable,
        StepResult::Stuck(outcome, _) => outcome,
    }
}

pub fn has_top_level_perform(term: &Term, label: Label) -> (r: bool)
    ensures
        r == (term@ matches TermM::Perform(found, arg) && found == label@ && is_value_m(*arg)),
{
    match term {
        Term::Perform(found, arg) => found.same(&label) && arg.is_value(),
        _ => false,
    }
}

/// The recursion tag of the `fix` in function position, if any.
pub open spec fn fix_tag_m(t: TermM) -> Option<RecursionTag>
    decreases t,
{
    match t {
        TermM::Fix { tag, .. } => Some(tag),
        TermM::App(f, _) => fix_tag_m(*f),
        _ => None,
    }
}

pub fn fix_tag(term: &Term) -> (r: Option<RecursionTag>)
    ensures
        r == fix_tag_m(term@),
    decreases term,
{
    match term {
        Term::Fix { tag, .. } => Some(*tag),
        Term::App(fun, _) => fix_tag(fun),
        _ => None,
    }
}

} // verus!
