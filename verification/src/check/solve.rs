//! Boundedness constraint solver: strongly connected components of the unknowns'
//! dependency graph are solved one after another by bounded Kleene iteration, widening
//! to `ω` when an SCC has not converged after `SOLVER_THRESHOLD_K` rounds.
//!
//! A `PendingGrade` is write-only solver state; only `certify`, given the sealed
//! `SolverCertificate` that `solve` alone produces, turns it into a readable
//! `CertifiedGrade`.

use std::marker::PhantomData;

use vstd::prelude::*;

use crate::grade::{bound_join, bound_seq, Bound};

verus! {

broadcast use vstd::std_specs::vec::group_vec_axioms, vstd::seq::group_seq_axioms;

pub const SOLVER_THRESHOLD_K: usize = 6;

#[derive(Debug, Clone, Copy, PartialEq, Eq, PartialOrd, Ord, Hash, Structural)]
pub struct UnknownId(pub usize);

#[derive(Debug, PartialEq, Eq)]
pub enum BoundExpr {
    Const(Bound),
    Unknown(UnknownId),
    Add(Box<BoundExpr>, Box<BoundExpr>),
    Join(Box<BoundExpr>, Box<BoundExpr>),
}

/// Value of a bound expression when unknown `i` stands for `vals[i]` (and `0` when the
/// assignment has no entry for it).
pub open spec fn eval_m(e: BoundExpr, vals: Seq<Bound>) -> Bound
    decreases e,
{
    match e {
        BoundExpr::Const(b) => b,
        BoundExpr::Unknown(id) => if id.0 < vals.len() {
            vals[id.0 as int]
        } else {
            Bound::Finite(0)
        },
        BoundExpr::Add(l, r) => bound_seq(eval_m(*l, vals), eval_m(*r, vals)),
        BoundExpr::Join(l, r) => bound_join(eval_m(*l, vals), eval_m(*r, vals)),
    }
}

/// Whether unknown `id` occurs in `e`.
pub open spec fn mentions(e: BoundExpr, id: usize) -> bool
    decreases e,
{
    match e {
        BoundExpr::Const(_) => false,
        BoundExpr::Unknown(u) => u.0 == id,
        BoundExpr::Add(l, r) => mentions(*l, id) || mentions(*r, id),
        BoundExpr::Join(l, r) => mentions(*l, id) || mentions(*r, id),
    }
}

impl Clone for BoundExpr {
    fn clone(&self) -> (r: Self)
        ensures
            r == *self,
    {
        self.duplicate()
    }
}

impl BoundExpr {
    pub fn duplicate(&self) -> (r: Self)
        ensures
            r == *self,
        decreases self,
    {
        match self {
            Self::Const(b) => Self::Const(*b),
            Self::Unknown(id) => Self::Unknown(*id),
            Self::Add(l, r) => Self::Add(Box::new(l.duplicate()), Box::new(r.duplicate())),
            Self::Join(l, r) => Self::Join(Box::new(l.duplicate()), Box::new(r.duplicate())),
        }
    }

    pub fn constant(bound: Bound) -> (r: Self)
        ensures
            r == BoundExpr::Const(bound),
    {
        Self::Const(bound)
    }

    pub fn unknown(id: UnknownId) -> (r: Self)
        ensures
            r == BoundExpr::Unknown(id),
    {
        Self::Unknown(id)
    }

    /// Sequential nesting `self ⊕ rhs`.
    pub fn seq(self, rhs: Self) -> (r: Self)
        ensures
            r == BoundExpr::Add(Box::new(self), Box::new(rhs)),
    {
        Self::Add(Box::new(self), Box::new(rhs))
    }

    /// Branch join `self ⊔ rhs`.
    pub fn join(self, rhs: Self) -> (r: Self)
        ensures
            r == BoundExpr::Join(Box::new(self), Box::new(rhs)),
    {
        Self::Join(Box::new(self), Box::new(rhs))
    }

    pub fn eval(&self, values: &SolverCertificate) -> (r: Bound)
        ensures
            r == eval_m(*self, values@),
    {
        self.eval_in(&values.values)
    }

    fn eval_in(&self, values: &Vec<Bound>) -> (r: Bound)
        ensures
            r == eval_m(*self, values@),
        decreases self,
    {
        match self {
            Self::Const(bound) => *bound,
            Self::Unknown(id) => {
                if id.0 < values.len() {
                    values[id.0]
                } else {
                    Bound::ZERO()
                }
            },
            Self::Add(lhs, rhs) => lhs.eval_in(values).sequential(rhs.eval_in(values)),
            Self::Join(lhs, rhs) => lhs.eval_in(values).join(rhs.eval_in(values)),
        }
    }

    /// Marks every unknown of the expression (below `marks.len()`).
    fn mark_deps(&self, marks: &mut Vec<bool>)
        ensures
            final(marks)@.len() == old(marks)@.len(),
            forall|i: int|
                0 <= i < old(marks)@.len() ==> #[trigger] final(marks)@[i] == (old(marks)@[i]
                    || mentions(*self, i as usize)),
        decreases self,
    {
        match self {
            Self::Const(_) => {},
            Self::Unknown(id) => {
                if id.0 < marks.len() {
                    marks.set(id.0, true);
                }
            },
            Self::Add(lhs, rhs) | Self::Join(lhs, rhs) => {
                lhs.mark_deps(marks);
                rhs.mark_deps(marks);
            },
        }
    }
}

#[derive(Debug, Clone, PartialEq, Eq)]
pub struct Constraint {
    pub target: UnknownId,
    pub expr: BoundExpr,
}

impl Constraint {
    pub fn duplicate(&self) -> (r: Self)
        ensures
            r == *self,
    {
        Constraint { target: self.target, expr: self.expr.duplicate() }
    }
}

#[derive(Debug, Clone, PartialEq, Eq, Default)]
pub struct ConstraintSystem {
    next: usize,
    constraints: Vec<Constraint>,
}

impl ConstraintSystem {
    /// Number of unknowns allocated so far.
    pub closed spec fn unknowns(&self) -> nat {
        self.next as nat
    }

    /// The recorded constraints, in order.
    pub closed spec fn constraint_seq(&self) -> Seq<Constraint> {
        self.constraints@
    }

    pub fn new() -> (r: Self)
        ensures
            r.unknowns() == 0,
            r.constraint_seq() == Seq::<Constraint>::empty(),
    {
        Self { next: 0, constraints: Vec::new() }
    }

    pub fn fresh_unknown(&mut self) -> (r: UnknownId)
        requires
            old(self).unknowns() < usize::MAX,
        ensures
            r.0 == old(self).unknowns(),
            final(self).unknowns() == old(self).unknowns() + 1,
            final(self).constraint_seq() == old(self).constraint_seq(),
    {
        let id = UnknownId(self.next);
        self.next = self.next + 1;
        id
    }

    /// Records `target ⊒ expr`.
    pub fn constrain(&mut self, target: UnknownId, expr: BoundExpr)
        requires
            target.0 < old(self).unknowns(),
        ensures
            final(self).unknowns() == old(self).unknowns(),
            final(self).constraint_seq() == old(self).constraint_seq().push(
                Constraint { target, expr },
            ),
    {
        self.constraints.push(Constraint { target, expr });
    }

    pub fn len(&self) -> (r: usize)
        ensures
            r == self.unknowns(),
    {
        self.next
    }

    pub fn is_empty(&self) -> (r: bool)
        ensures
            r == (self.unknowns() == 0),
    {
        self.next == 0
    }

    pub fn constraints(&self) -> (r: &[Constraint])
        ensures
            r@ == self.constraint_seq(),
    {
        self.constraints.as_slice()
    }
}

#[derive(Debug, Clone, PartialEq, Eq, Default)]
pub struct SolverStats {
    pub scc_count: usize,
    pub scc_sizes: Vec<usize>,
    pub iterations: Vec<usize>,
    pub widening_fires: usize,
}

/// The solved assignment; only `solve` constructs one.
#[derive(Debug, Clone, PartialEq, Eq)]
pub struct SolverCertificate {
    values: Vec<Bound>,
}

impl View for SolverCertificate {
    type V = Seq<Bound>;

    closed spec fn view(&self) -> Seq<Bound> {
        self.values@
    }
}

impl SolverCertificate {
    /// The solved value of `id` (`0` for an unknown the system never allocated).
    pub fn value(&self, id: UnknownId) -> (r: Bound)
        ensures
            r == eval_m(BoundExpr::Unknown(id), self@),
    {
        if id.0 < self.values.len() {
            self.values[id.0]
        } else {
            Bound::ZERO()
        }
    }
}

#[derive(Debug, Clone, PartialEq, Eq)]
pub struct SolverOutput {
    pub certificate: SolverCertificate,
    pub stats: SolverStats,
}

/// Pending grade state: write-only until certified.
pub struct PendingGrade<T> {
    expr: BoundExpr,
    _phase: PhantomData<T>,
}

/// Certified grade: the SCC fixpoint has converged or safely widened upward.
#[derive(Debug, Clone, Copy, PartialEq, Eq, Structural)]
pub struct CertifiedGrade(Bound);

impl<T> PendingGrade<T> {
    pub closed spec fn expr(&self) -> BoundExpr {
        self.expr
    }

    pub fn new(expr: BoundExpr) -> (r: Self)
        ensures
            r.expr() == expr,
    {
        Self { expr, _phase: PhantomData }
    }

    pub fn certify(self, values: &SolverCertificate) -> (r: CertifiedGrade)
        ensures
            r.bound() == eval_m(self.expr(), values@),
    {
        CertifiedGrade(self.expr.eval(values))
    }
}

impl CertifiedGrade {
    pub closed spec fn bound(&self) -> Bound {
        self.0
    }

    pub fn get(self) -> (r: Bound)
        ensures
            r == self.bound(),
    {
        self.0
    }
}

// ---------------------------------------------------------------------------------------
// Specification of the fixpoint computation.
/// `⊔` of `0` and every right-hand side constrained onto `id`, evaluated at `vals`.
pub open spec fn rhs_m(cs: Seq<Constraint>, vals: Seq<Bound>, id: usize) -> Bound
    decreases cs.len(),
{
    if cs.len() == 0 {
        Bound::Finite(0)
    } else {
        let prev = rhs_m(cs.drop_last(), vals, id);
        if cs.last().target.0 == id {
            bound_join(prev, eval_m(cs.last().expr, vals))
        } else {
            prev
        }
    }
}

/// `next` strictly grows over `current` among finite bounds.
pub open spec fn grows(current: Bound, next: Bound) -> bool {
    match (current, next) {
        (Bound::Finite(a), Bound::Finite(b)) => b > a,
        _ => false,
    }
}

/// The new value of `id` in one round: old value joined with its right-hand sides,
/// widened to `ω` when asked and growing.
pub open spec fn step_value(cs: Seq<Constraint>, vals: Seq<Bound>, id: usize, widen: bool) -> Bound {
    let candidate = bound_join(vals[id as int], rhs_m(cs, vals, id));
    if widen && grows(vals[id as int], candidate) {
        Bound::Omega
    } else {
        candidate
    }
}

/// One simultaneous round over the members of `scc`.
pub open spec fn round_m(cs: Seq<Constraint>, vals: Seq<Bound>, scc: Seq<UnknownId>, widen: bool) -> Seq<
    Bound,
> {
    Seq::new(
        vals.len(),
        |j: int|
            if scc.contains(UnknownId(j as usize)) {
                step_value(cs, vals, j as usize, widen)
            } else {
                vals[j]
            },
    )
}

/// Whether a round leaves every member of `scc` unchanged.
pub open spec fn stable(vals: Seq<Bound>, next: Seq<Bound>, scc: Seq<UnknownId>) -> bool {
    forall|k: int| 0 <= k < scc.len() ==> vals[scc[k].0 as int] == next[scc[k].0 as int]
}

/// Kleene rounds `iteration ..= K`; returns the values, the iteration recorded in the
/// statistics, and whether the SCC converged.
pub open spec fn iterate_m(
    cs: Seq<Constraint>,
    vals: Seq<Bound>,
    scc: Seq<UnknownId>,
    iteration: nat,
) -> (Seq<Bound>, nat, bool)
    decreases SOLVER_THRESHOLD_K + 1 - iteration,
{
    if iteration > SOLVER_THRESHOLD_K {
        (vals, iteration, false)
    } else {
        let next = round_m(cs, vals, scc, false);
        if stable(vals, next, scc) {
            (vals, iteration, true)
        } else {
            iterate_m(cs, next, scc, iteration + 1)
        }
    }
}

/// Number of members that the widening round sends from finite to `ω`.
pub open spec fn fires_m(vals: Seq<Bound>, next: Seq<Bound>, scc: Seq<UnknownId>) -> nat
    decreases scc.len(),
{
    if scc.len() == 0 {
        0
    } else {
        let id = scc.last().0 as int;
        fires_m(vals, next, scc.drop_last()) + if next[id] == Bound::Omega && vals[id]
            != Bound::Omega {
            1nat
        } else {
            0nat
        }
    }
}

/// Solving one SCC: values, recorded iteration, widening fires.
pub open spec fn solve_scc_m(cs: Seq<Constraint>, vals: Seq<Bound>, scc: Seq<UnknownId>) -> (
    Seq<Bound>,
    nat,
    nat,
) {
    let (after, iteration, converged) = iterate_m(cs, vals, scc, 1);
    if converged {
        (after, iteration, 0)
    } else {
        let widened = round_m(cs, after, scc, true);
        (widened, (SOLVER_THRESHOLD_K + 1) as nat, fires_m(after, widened, scc))
    }
}

/// Solving the SCCs in order: values, recorded iterations, total widening fires.
pub open spec fn solve_all_m(cs: Seq<Constraint>, vals: Seq<Bound>, sccs: Seq<Seq<UnknownId>>) -> (
    Seq<Bound>,
    Seq<nat>,
    nat,
)
    decreases sccs.len(),
{
    if sccs.len() == 0 {
        (vals, Seq::empty(), 0)
    } else {
        let (v, its, fires) = solve_all_m(cs, vals, sccs.drop_last());
        let (v2, it, f) = solve_scc_m(cs, v, sccs.last());
        (v2, its.push(it), fires + f)
    }
}

/// Concatenation of the components.
pub open spec fn flatten(sccs: Seq<Seq<UnknownId>>) -> Seq<UnknownId>
    decreases sccs.len(),
{
    if sccs.len() == 0 {
        Seq::empty()
    } else {
        flatten(sccs.drop_last()) + sccs.last()
    }
}

/// Components over the unknowns `0..n`: non-empty and no unknown in two places.
pub open spec fn components_over(sccs: Seq<Seq<UnknownId>>, n: nat) -> bool {
    &&& forall|i: int| 0 <= i < sccs.len() ==> #[trigger] sccs[i].len() > 0
    &&& flatten(sccs).no_duplicates()
    &&& forall|x: UnknownId| #[trigger] flatten(sccs).contains(x) ==> x.0 < n
}

/// Every unknown `0..n` lies in some component.
pub open spec fn covers(sccs: Seq<Seq<UnknownId>>, n: nat) -> bool {
    forall|u: usize| u < n ==> #[trigger] flatten(sccs).contains(UnknownId(u))
}

/// Concatenation keeps distinctness exactly when the parts are distinct and disjoint.
pub proof fn lemma_concat(a: Seq<UnknownId>, b: Seq<UnknownId>)
    ensures
        (a + b).no_duplicates() <==> (a.no_duplicates() && b.no_duplicates() && forall|x: UnknownId|
            a.contains(x) ==> !b.contains(x)),
        forall|x: UnknownId| #[trigger] (a + b).contains(x) <==> (a.contains(x) || b.contains(x)),
{
    let c = a + b;
    assert forall|x: UnknownId| #[trigger] c.contains(x) <==> (a.contains(x) || b.contains(x)) by {
        if c.contains(x) {
            let i = choose|i: int| 0 <= i < c.len() && c[i] == x;
            if i >= a.len() {
                assert(b[i - a.len()] == x);
            }
        }
        if a.contains(x) {
            let i = choose|i: int| 0 <= i < a.len() && a[i] == x;
            assert(c[i] == x);
        }
        if b.contains(x) {
            let i = choose|i: int| 0 <= i < b.len() && b[i] == x;
            assert(c[a.len() + i] == x);
        }
    }
    if c.no_duplicates() {
        assert forall|i: int, j: int| 0 <= i < j < a.len() implies a[i] != a[j] by {
            assert(c[i] == a[i] && c[j] == a[j]);
        }
        assert forall|i: int, j: int| 0 <= i < j < b.len() implies b[i] != b[j] by {
            assert(c[a.len() + i] == b[i] && c[a.len() + j] == b[j]);
        }
        assert forall|x: UnknownId| a.contains(x) implies !b.contains(x) by {
            let i = choose|i: int| 0 <= i < a.len() && a[i] == x;
            if b.contains(x) {
                let j = choose|j: int| 0 <= j < b.len() && b[j] == x;
                assert(c[i] == c[a.len() + j]);
            }
        }
    }
    if a.no_duplicates() && b.no_duplicates() && forall|x: UnknownId|
        a.contains(x) ==> !b.contains(x) {
        assert forall|i: int, j: int| 0 <= i < j < c.len() implies c[i] != c[j] by {
            if j < a.len() {
            } else if i >= a.len() {
                assert(c[i] == b[i - a.len()] && c[j] == b[j - a.len()]);
            } else {
                assert(a.contains(c[i]));
                assert(b.contains(c[j])) by {
                    assert(b[j - a.len()] == c[j]);
                }
            }
        }
    }
}

/// What a single component inherits from the family.
pub proof fn lemma_component(s: Seq<Seq<UnknownId>>, k: int, n: nat)
    requires
        components_over(s, n),
        0 <= k < s.len(),
    ensures
        s[k].no_duplicates(),
        forall|q: int| 0 <= q < s[k].len() ==> (#[trigger] s[k][q]).0 < n,
        flatten(s.subrange(0, k + 1)) == flatten(s.subrange(0, k)) + s[k],
        flatten(s.subrange(0, k + 1)).len() <= flatten(s).len(),
{
    lemma_flatten_prefix(s, k + 1);
    assert(s.subrange(0, k + 1).drop_last() =~= s.subrange(0, k));
    let p = flatten(s.subrange(0, k + 1));
    let f = flatten(s);
    assert(p.no_duplicates()) by {
        assert forall|i: int, j: int| 0 <= i < j < p.len() implies p[i] != p[j] by {
            assert(p[i] == f[i] && p[j] == f[j]);
        }
    }
    lemma_concat(flatten(s.subrange(0, k)), s[k]);
    assert forall|q: int| 0 <= q < s[k].len() implies (#[trigger] s[k][q]).0 < n by {
        assert(p.contains(s[k][q]));
        let i = choose|i: int| 0 <= i < p.len() && p[i] == s[k][q];
        assert(f[i] == s[k][q]);
        assert(f.contains(s[k][q]));
    }
}

/// All-zero assignment for `n` unknowns.
pub open spec fn zeros(n: nat) -> Seq<Bound> {
    Seq::new(n, |i: int| Bound::Finite(0))
}

pub open spec fn ids_view(v: Vec<UnknownId>) -> Seq<UnknownId> {
    v@
}

// ---------------------------------------------------------------------------------------
// Executable solver.
/// Solves the system SCC by SCC (dependency components in the order Tarjan's algorithm
/// reports them, reversed).
pub fn solve(system: &ConstraintSystem) -> (r: SolverOutput)
    requires
        system.unknowns() < usize::MAX,
    ensures
        r.certificate@.len() == system.unknowns(),
        ({
            let sccs = sccs_m(system.constraint_seq(), system.unknowns());
            &&& components_over(sccs, system.unknowns())
            &&& covers(sccs, system.unknowns())
            &&& r.stats.scc_count == sccs.len()
            &&& r.stats.scc_sizes@ == sccs.map_values(|c: Seq<UnknownId>| c.len() as usize)
            &&& ({
                let (vals, its, fires) = solve_all_m(
                    system.constraint_seq(),
                    zeros(system.unknowns()),
                    sccs,
                );
                &&& r.certificate@ == vals
                &&& r.stats.iterations@ == its.map_values(|i: nat| i as usize)
                &&& r.stats.widening_fires == fires
            })
        }),
{
    let n = system.next;
    let mut values: Vec<Bound> = Vec::new();
    let mut i: usize = 0;
    while i < n
        invariant
            i <= n,
            values@ == zeros(i as nat),
        decreases n - i,
    {
        values.push(Bound::ZERO());
        i += 1;
        assert(values@ =~= zeros(i as nat));
    }
    let sccs = strongly_connected_components(system);
    let ghost order = sccs@.map_values(|c: Vec<UnknownId>| c@);
    let mut scc_sizes: Vec<usize> = Vec::new();
    let mut iterations: Vec<usize> = Vec::new();
    let mut widening_fires: usize = 0;
    let mut k: usize = 0;
    while k < sccs.len()
        invariant
            k <= sccs@.len(),
            order == sccs@.map_values(|c: Vec<UnknownId>| c@),
            components_over(order, n as nat),
            n == system.unknowns(),
            n < usize::MAX,
            values@.len() == n,
            scc_sizes@ == order.subrange(0, k as int).map_values(
                |c: Seq<UnknownId>| c.len() as usize,
            ),
            ({
                let (vals, its, fires) = solve_all_m(
                    system.constraint_seq(),
                    zeros(n as nat),
                    order.subrange(0, k as int),
                );
                &&& values@ == vals
                &&& iterations@ == its.map_values(|i: nat| i as usize)
                &&& widening_fires == fires
            }),
            widening_fires <= flatten(order.subrange(0, k as int)).len(),
        decreases sccs@.len() - k,
    {
        let scc = &sccs[k];
        let ghost before = values@;
        let ghost pre = order.subrange(0, k as int);
        proof {
            assert(order.subrange(0, k + 1).drop_last() =~= pre);
            assert(order[k as int] == scc@);
            lemma_component(order, k as int, n as nat);
            lemma_flatten_len_bound(order, n as nat);
        }
        let (next_values, iteration, fires) = solve_component(system, values, scc);
        values = next_values;
        scc_sizes.push(scc.len());
        iterations.push(iteration);
        widening_fires = widening_fires + fires;
        proof {
            assert(scc_sizes@ =~= order.subrange(0, k + 1).map_values(
                |c: Seq<UnknownId>| c.len() as usize,
            ));
            let (_, its, _) = solve_all_m(system.constraint_seq(), zeros(n as nat), pre);
            assert(iterations@ =~= its.push(iteration as nat).map_values(|i: nat| i as usize));
        }
        k += 1;
    }
    proof {
        assert(order.subrange(0, sccs@.len() as int) =~= order);
    }
    let stats = SolverStats { scc_count: sccs.len(), scc_sizes, iterations, widening_fires };
    SolverOutput { certificate: SolverCertificate { values }, stats }
}

proof fn lemma_flatten_prefix(s: Seq<Seq<UnknownId>>, k: int)
    requires
        0 <= k <= s.len(),
    ensures
        flatten(s.subrange(0, k)).len() <= flatten(s).len(),
        forall|j: int| 0 <= j < flatten(s.subrange(0, k)).len() ==> flatten(s.subrange(0, k))[j]
            == flatten(s)[j],
    decreases s.len() - k,
{
    if k < s.len() {
        lemma_flatten_prefix(s, k + 1);
        assert(s.subrange(0, k + 1).drop_last() =~= s.subrange(0, k));
    } else {
        assert(s.subrange(0, k) =~= s);
    }
}

proof fn lemma_flatten_len_bound(s: Seq<Seq<UnknownId>>, n: nat)
    requires
        flatten(s).no_duplicates(),
        forall|x: UnknownId| #[trigger] flatten(s).contains(x) ==> x.0 < n,
    ensures
        flatten(s).len() <= n,
{
    let f = flatten(s);
    let ids = f.map_values(|u: UnknownId| u.0 as int);
    assert(ids.no_duplicates()) by {
        assert forall|a: int, b: int| 0 <= a < b < ids.len() implies ids[a] != ids[b] by {
            assert(f[a] != f[b]);
            assert(ids[a] == f[a].0 as int);
            assert(ids[b] == f[b].0 as int);
        }
    }
    ids.unique_seq_to_set();
    assert(ids.to_set().subset_of(vstd::set_lib::set_int_range(0, n as int))) by {
        assert forall|x: int| ids.to_set().contains(x) implies 0 <= x < n by {
            let i = choose|i: int| 0 <= i < ids.len() && ids[i] == x;
            assert(ids[i] == f[i].0 as int);
            assert(f.contains(f[i]));
        }
    }
    vstd::set_lib::lemma_int_range(0, n as int);
    vstd::set_lib::lemma_len_subset(ids.to_set(), vstd::set_lib::set_int_range(0, n as int));
}

/// The join of all right-hand sides constrained onto `id`.
fn rhs(system: &ConstraintSystem, values: &Vec<Bound>, id: UnknownId) -> (r: Bound)
    ensures
        r == rhs_m(system.constraint_seq(), values@, id.0),
{
    let mut acc = Bound::ZERO();
    let mut i: usize = 0;
    while i < system.constraints.len()
        invariant
            i <= system.constraints@.len(),
            acc == rhs_m(system.constraints@.subrange(0, i as int), values@, id.0),
        decreases system.constraints@.len() - i,
    {
        let c = &system.constraints[i];
        proof {
            assert(system.constraints@.subrange(0, i + 1).drop_last() =~= system.constraints@.subrange(
                0,
                i as int,
            ));
        }
        if c.target.0 == id.0 {
            acc = acc.join(c.expr.eval_in(values));
        }
        i += 1;
    }
    assert(system.constraints@.subrange(0, system.constraints@.len() as int)
        =~= system.constraints@);
    acc
}

/// Whether `id` is a member of `scc`.
fn member(scc: &Vec<UnknownId>, id: usize) -> (r: bool)
    ensures
        r == scc@.contains(UnknownId(id)),
{
    let mut i: usize = 0;
    while i < scc.len()
        invariant
            i <= scc@.len(),
            forall|j: int| 0 <= j < i ==> scc@[j] != UnknownId(id),
        decreases scc@.len() - i,
    {
        if scc[i].0 == id {
            assert(scc@[i as int] == UnknownId(id));
            return true;
        }
        i += 1;
    }
    false
}

/// One simultaneous round over the members of `scc`.
fn round(system: &ConstraintSystem, values: &Vec<Bound>, scc: &Vec<UnknownId>, widen: bool) -> (r:
    Vec<Bound>)
    ensures
        r@ == round_m(system.constraint_seq(), values@, scc@, widen),
{
    let mut next: Vec<Bound> = Vec::new();
    let mut j: usize = 0;
    while j < values.len()
        invariant
            j <= values@.len(),
            next@ == round_m(system.constraint_seq(), values@, scc@, widen).subrange(0, j as int),
        decreases values@.len() - j,
    {
        let v = if member(scc, j) {
            let current = values[j];
            let candidate = current.join(rhs(system, values, UnknownId(j)));
            let grew = match (current, candidate) {
                (Bound::Finite(a), Bound::Finite(b)) => b > a,
                _ => false,
            };
            if widen && grew {
                Bound::Omega
            } else {
                candidate
            }
        } else {
            values[j]
        };
        next.push(v);
        j += 1;
        assert(next@ =~= round_m(system.constraint_seq(), values@, scc@, widen).subrange(
            0,
            j as int,
        ));
    }
    assert(next@ =~= round_m(system.constraint_seq(), values@, scc@, widen));
    next
}

/// Whether a round left every member of `scc` unchanged.
fn unchanged(values: &Vec<Bound>, next: &Vec<Bound>, scc: &Vec<UnknownId>) -> (r: bool)
    requires
        next@.len() == values@.len(),
        forall|q: int| 0 <= q < scc@.len() ==> (#[trigger] scc@[q]).0 < values@.len(),
    ensures
        r == stable(values@, next@, scc@),
{
    let mut k: usize = 0;
    while k < scc.len()
        invariant
            k <= scc@.len(),
            next@.len() == values@.len(),
            forall|q: int| 0 <= q < scc@.len() ==> (#[trigger] scc@[q]).0 < values@.len(),
            forall|q: int| 0 <= q < k ==> values@[scc@[q].0 as int] == next@[scc@[q].0 as int],
        decreases scc@.len() - k,
    {
        let id = scc[k].0;
        if values[id] != next[id] {
            return false;
        }
        k += 1;
    }
    true
}

/// Solves one SCC starting from `values`.
fn solve_component(system: &ConstraintSystem, initial: Vec<Bound>, scc: &Vec<UnknownId>) -> (r: (
    Vec<Bound>,
    usize,
    usize,
))
    requires
        forall|k: int| 0 <= k < scc@.len() ==> (#[trigger] scc@[k]).0 < initial@.len(),
        scc@.no_duplicates(),
    ensures
        r.0@ == solve_scc_m(system.constraint_seq(), initial@, scc@).0,
        r.1 as nat == solve_scc_m(system.constraint_seq(), initial@, scc@).1,
        r.2 as nat == solve_scc_m(system.constraint_seq(), initial@, scc@).2,
        r.0@.len() == initial@.len(),
        r.2 <= scc@.len(),
{
    let ghost cs = system.constraint_seq();
    let ghost start = initial@;
    let mut values = initial;
    let mut iteration: usize = 1;
    while iteration <= SOLVER_THRESHOLD_K
        invariant
            1 <= iteration <= SOLVER_THRESHOLD_K + 1,
            values@.len() == start.len(),
            iterate_m(cs, values@, scc@, iteration as nat) == iterate_m(cs, start, scc@, 1),
            cs == system.constraint_seq(),
            start == initial@,
            forall|q: int| 0 <= q < scc@.len() ==> (#[trigger] scc@[q]).0 < start.len(),
        decreases SOLVER_THRESHOLD_K + 1 - iteration,
    {
        let next = round(system, &values, scc, false);
        let same = unchanged(&values, &next, scc);
        if same {
            proof {
                assert(iterate_m(cs, values@, scc@, iteration as nat) == (
                    values@,
                    iteration as nat,
                    true,
                ));
                assert(solve_scc_m(cs, start, scc@) == (values@, iteration as nat, 0nat));
                assert(solve_scc_m(system.constraint_seq(), start, scc@).0 == values@);
                assert(solve_scc_m(system.constraint_seq(), start, scc@).1 == iteration as nat);
            }
            return (values, iteration, 0);
        }
        values = next;
        iteration += 1;
    }
    let widened = round(system, &values, scc, true);
    let mut fires: usize = 0;
    let mut k: usize = 0;
    while k < scc.len()
        invariant
            k <= scc@.len(),
            widened@.len() == values@.len(),
            forall|q: int| 0 <= q < scc@.len() ==> (#[trigger] scc@[q]).0 < values@.len(),
            fires as nat == fires_m(values@, widened@, scc@.subrange(0, k as int)),
            fires <= k,
        decreases scc@.len() - k,
    {
        let id = scc[k].0;
        proof {
            assert(scc@.subrange(0, k + 1).drop_last() =~= scc@.subrange(0, k as int));
        }
        if widened[id] == Bound::Omega && values[id] != Bound::Omega {
            fires += 1;
        }
        k += 1;
    }
    assert(scc@.subrange(0, scc@.len() as int) =~= scc@);
    (widened, SOLVER_THRESHOLD_K + 1, fires)
}

// ---------------------------------------------------------------------------------------
// Tarjan's strongly connected components.
/// Number of indexed vertices.
pub open spec fn indexed_count(s: Seq<Option<usize>>) -> nat
    decreases s.len(),
{
    if s.len() == 0 {
        0
    } else {
        indexed_count(s.drop_last()) + if s.last() is Some {
            1nat
        } else {
            0nat
        }
    }
}

pub proof fn lemma_indexed_count(s: Seq<Option<usize>>, i: int, x: usize)
    requires
        0 <= i < s.len(),
        s[i] is None,
    ensures
        indexed_count(s.update(i, Some(x))) == indexed_count(s) + 1,
        indexed_count(s) < s.len(),
    decreases s.len(),
{
    if i < s.len() - 1 {
        lemma_indexed_count(s.drop_last(), i, x);
        assert(s.update(i, Some(x)).drop_last() =~= s.drop_last().update(i, Some(x)));
    } else {
        assert(s.update(i, Some(x)).drop_last() =~= s.drop_last());
        lemma_indexed_count_le(s.drop_last());
    }
}

pub proof fn lemma_indexed_count_le(s: Seq<Option<usize>>)
    ensures
        indexed_count(s) <= s.len(),
    decreases s.len(),
{
    if s.len() > 0 {
        lemma_indexed_count_le(s.drop_last());
    }
}

// ---------------------------------------------------------------------------------------
// The component order, as a function of the system: the dependency graph and Tarjan's
// algorithm on it.
/// Some constraint on `t` mentions `j`: `t` depends on `j`.
pub open spec fn depends_m(cs: Seq<Constraint>, t: usize, j: usize) -> bool {
    exists|c: int| 0 <= c < cs.len() && (#[trigger] cs[c]).target.0 == t && mentions(cs[c].expr, j)
}

/// The unknowns below `j` that `t` depends on, ascending.
pub open spec fn deps_below_m(cs: Seq<Constraint>, t: usize, j: nat) -> Seq<usize>
    decreases j,
{
    if j == 0 {
        Seq::empty()
    } else {
        let before = deps_below_m(cs, t, (j - 1) as nat);
        if depends_m(cs, t, (j - 1) as usize) {
            before.push((j - 1) as usize)
        } else {
            before
        }
    }
}

/// The dependency graph over the unknowns `0..n`: each unknown lists what it depends on.
pub open spec fn graph_m(cs: Seq<Constraint>, n: nat) -> Seq<Seq<usize>> {
    Seq::new(n, |t: int| deps_below_m(cs, t as usize, n))
}

/// The state of Tarjan's algorithm: the next index, the stack, which vertices are on it,
/// their indices and low links, and the components completed so far.
pub struct TarjanM {
    pub index: usize,
    pub stack: Seq<usize>,
    pub on_stack: Seq<bool>,
    pub indices: Seq<Option<usize>>,
    pub lowlinks: Seq<usize>,
    pub sccs: Seq<Seq<UnknownId>>,
}

pub open spec fn init_m(n: nat) -> TarjanM {
    TarjanM {
        index: 0,
        stack: Seq::empty(),
        on_stack: Seq::new(n, |i: int| false),
        indices: Seq::new(n, |i: int| None),
        lowlinks: Seq::new(n, |i: int| 0),
        sccs: Seq::empty(),
    }
}

/// `v` gets the next index as its index and low link and goes on the stack.
pub open spec fn enter_m(s: TarjanM, v: usize) -> TarjanM {
    TarjanM {
        index: (s.index + 1) as usize,
        stack: s.stack.push(v),
        on_stack: s.on_stack.update(v as int, true),
        indices: s.indices.update(v as int, Some(s.index)),
        lowlinks: s.lowlinks.update(v as int, s.index),
        sccs: s.sccs,
    }
}

/// The low link of `v` lowered to `x`.
pub open spec fn lowered_m(s: TarjanM, v: usize, x: usize) -> TarjanM {
    TarjanM {
        lowlinks: s.lowlinks.update(v as int, if s.lowlinks[v as int] < x { s.lowlinks[v as int] } else { x }),
        ..s
    }
}

/// Visits `v`: enters it, follows its edges, and completes its component if it is a root.
pub open spec fn visit_m(g: Seq<Seq<usize>>, s: TarjanM, v: usize) -> TarjanM
    decreases g.len() - indexed_count(s.indices), 0nat,
{
    if v < g.len() && s.indices.len() == g.len() && s.indices[v as int] is None {
        proof {
            lemma_indexed_count(s.indices, v as int, s.index);
        }
        close_m(edges_m(g, enter_m(s, v), v, 0), v)
    } else {
        s
    }
}

/// Follows the edges of `v` from its `e`-th on.
pub open spec fn edges_m(g: Seq<Seq<usize>>, s: TarjanM, v: usize, e: int) -> TarjanM
    decreases g.len() - indexed_count(s.indices), g[v as int].len() - e + 1,
{
    if 0 <= e < g[v as int].len() {
        let w = g[v as int][e];
        if w < s.indices.len() && s.indices[w as int] is None {
            let s2 = visit_m(g, s, w);
            if indexed_count(s.indices) <= indexed_count(s2.indices) <= g.len() {
                edges_m(g, lowered_m(s2, v, s2.lowlinks[w as int]), v, e + 1)
            } else {
                s2
            }
        } else if w < s.indices.len() && s.on_stack[w as int] {
            edges_m(g, lowered_m(s, v, s.indices[w as int]->Some_0), v, e + 1)
        } else {
            edges_m(g, s, v, e + 1)
        }
    } else {
        s
    }
}

/// After the edges of `v`: when `v` is a root, its component comes off the stack.
pub open spec fn close_m(s: TarjanM, v: usize) -> TarjanM {
    let iv = match s.indices[v as int] {
        Some(i) => i,
        None => 0,
    };
    if s.lowlinks[v as int] == iv {
        pop_m(s, v, Seq::empty())
    } else {
        s
    }
}

/// Pops the stack down to `v`, onto the component `scc`.
pub open spec fn pop_m(s: TarjanM, v: usize, scc: Seq<UnknownId>) -> TarjanM
    decreases s.stack.len(),
{
    if s.stack.len() == 0 {
        s
    } else {
        let w = s.stack.last();
        let s1 = TarjanM { stack: s.stack.drop_last(), on_stack: s.on_stack.update(w as int, false), ..s };
        let scc1 = scc.push(UnknownId(w));
        if w == v {
            TarjanM { sccs: s1.sccs.push(scc1), ..s1 }
        } else {
            pop_m(s1, v, scc1)
        }
    }
}

/// Visits every vertex from `idx` on that is not yet indexed.
pub open spec fn run_m(g: Seq<Seq<usize>>, s: TarjanM, idx: int) -> TarjanM
    decreases g.len() - idx,
{
    if 0 <= idx < g.len() {
        run_m(g, if s.indices[idx] is None { visit_m(g, s, idx as usize) } else { s }, idx + 1)
    } else {
        s
    }
}

/// The components of the dependency graph of `cs` over `n` unknowns, in the reverse of the
/// order in which Tarjan's algorithm completes them: the order the solver takes them in.
pub open spec fn sccs_m(cs: Seq<Constraint>, n: nat) -> Seq<Seq<UnknownId>> {
    run_m(graph_m(cs, n), init_m(n), 0).sccs.reverse()
}

proof fn lemma_count_mono(a: Seq<Option<usize>>, b: Seq<Option<usize>>)
    requires
        a.len() == b.len(),
        forall|u: int| 0 <= u < a.len() && a[u] is Some ==> b[u] is Some,
    ensures
        indexed_count(a) <= indexed_count(b),
    decreases a.len(),
{
    if a.len() > 0 {
        lemma_count_mono(a.drop_last(), b.drop_last());
    }
}

struct Tarjan {
    graph: Vec<Vec<usize>>,
    index: usize,
    stack: Vec<usize>,
    on_stack: Vec<bool>,
    indices: Vec<Option<usize>>,
    lowlinks: Vec<usize>,
    sccs: Vec<Vec<UnknownId>>,
    done: Ghost<Seq<UnknownId>>,
}

impl Tarjan {
    spec fn n(&self) -> nat {
        self.graph@.len()
    }

    spec fn g(&self) -> Seq<Seq<usize>> {
        self.graph@.map_values(|e: Vec<usize>| e@)
    }

    spec fn view_m(&self) -> TarjanM {
        TarjanM {
            index: self.index,
            stack: self.stack@,
            on_stack: self.on_stack@,
            indices: self.indices@,
            lowlinks: self.lowlinks@,
            sccs: self.sccs@.map_values(|c: Vec<UnknownId>| c@),
        }
    }

    spec fn wf(&self) -> bool {
        &&& self.on_stack@.len() == self.n()
        &&& self.indices@.len() == self.n()
        &&& self.lowlinks@.len() == self.n()
        &&& self.n() < usize::MAX
        &&& self.index == indexed_count(self.indices@)
        &&& forall|v: int, k: int|
            0 <= v < self.n() && 0 <= k < self.graph@[v]@.len() ==> #[trigger] self.graph@[v]@[k]
                < self.n()
        &&& forall|k: int| 0 <= k < self.stack@.len() ==> (#[trigger] self.stack@[k]) < self.n()
        &&& forall|k: int|
            0 <= k < self.stack@.len() ==> self.indices@[#[trigger] self.stack@[k] as int] is Some
        &&& forall|k: int|
            0 <= k < self.stack@.len() ==> self.on_stack@[#[trigger] self.stack@[k] as int]
        &&& forall|v: int| 0 <= v < self.n() && self.on_stack@[v] ==> self.stack@.contains(v as usize)
        &&& self.stack@.no_duplicates()
        &&& self.done@.no_duplicates()
        &&& forall|k: int| 0 <= k < self.done@.len() ==> (#[trigger] self.done@[k]).0 < self.n()
        &&& forall|k: int|
            0 <= k < self.done@.len() ==> self.indices@[(#[trigger] self.done@[k]).0 as int] is Some
        &&& forall|k: int|
            0 <= k < self.done@.len() ==> !self.on_stack@[(#[trigger] self.done@[k]).0 as int]
        &&& forall|v: int|
            0 <= v < self.n() && self.indices@[v] is None ==> !self.on_stack@[v]
        &&& forall|v: int|
            0 <= v < self.n() && self.indices@[v] is Some ==> self.on_stack@[v]
                || self.done@.contains(UnknownId(v as usize))
        &&& self.done@ == flatten(self.sccs@.map_values(|c: Vec<UnknownId>| c@))
        &&& forall|i: int| 0 <= i < self.sccs@.len() ==> #[trigger] self.sccs@[i]@.len() > 0
    }

    /// Indices are below the next index, and none on the stack is below the first's.
    spec fn ordered(&self) -> bool {
        &&& forall|u: int| 0 <= u < self.n() && self.indices@[u] is Some ==> self.indices@[u]->Some_0 < self.index
        &&& forall|q: int|
            0 <= q < self.stack@.len() ==> self.indices@[#[trigger] self.stack@[q] as int]->Some_0
                >= self.indices@[self.stack@[0] as int]->Some_0
    }

    /// The index of the bottom of the stack, or the next index when it is empty.
    spec fn floor(&self) -> usize {
        if self.stack@.len() == 0 {
            self.index
        } else {
            self.indices@[self.stack@[0] as int]->Some_0
        }
    }

    fn strong_connect(&mut self, v: usize)
        requires
            old(self).wf(),
            old(self).ordered(),
            v < old(self).n(),
            old(self).indices@[v as int] is None,
        ensures
            final(self).wf(),
            final(self).ordered(),
            final(self).lowlinks@[v as int] >= old(self).floor(),
            old(self).stack@.len() == 0 ==> final(self).stack@.len() == 0,
            forall|u: int|
                0 <= u < old(self).n() && old(self).indices@[u] is Some ==> final(self).indices@[u]
                    == old(self).indices@[u] && final(self).lowlinks@[u] == old(self).lowlinks@[u],
            final(self).n() == old(self).n(),
            final(self).graph == old(self).graph,
            final(self).indices@[v as int] is Some,
            forall|u: int|
                0 <= u < old(self).n() && old(self).indices@[u] is Some ==> final(self).indices@[u] is Some,
            final(self).stack@.len() >= old(self).stack@.len(),
            final(self).stack@.subrange(0, old(self).stack@.len() as int) == old(self).stack@,
            final(self).index >= old(self).index,
            final(self).view_m() == visit_m(old(self).g(), old(self).view_m(), v),
        decreases old(self).n() - old(self).index,
    {
        proof {
            lemma_indexed_count(self.indices@, v as int, self.index);
        }
        let ghost g = old(self).g();
        let ghost target = visit_m(g, old(self).view_m(), v);
        let ghost entered = enter_m(old(self).view_m(), v);
        let ghost entry_stack = self.stack@;
        let ghost f = old(self).floor();
        let ghost iv0 = old(self).index;
        self.indices.set(v, Some(self.index));
        self.lowlinks.set(v, self.index);
        self.index = self.index + 1;
        self.stack.push(v);
        self.on_stack.set(v, true);
        proof {
            assert forall|k: int| 0 <= k < self.done@.len() implies !self.on_stack@[(
            #[trigger] self.done@[k]).0 as int] by {
                if self.done@[k].0 == v {
                    assert(old(self).indices@[v as int] is Some);
                }
            }
            assert forall|a: int, b: int|
                0 <= a < b < self.stack@.len() implies self.stack@[a] != self.stack@[b] by {
                if b == self.stack@.len() - 1 {
                    assert(old(self).indices@[self.stack@[a] as int] is Some);
                }
            }
            assert forall|u: int| 0 <= u < self.n() && self.on_stack@[u] implies self.stack@.contains(
                u as usize,
            ) by {
                if u != v {
                    let j = choose|j: int| 0 <= j < entry_stack.len() && entry_stack[j] == u as usize;
                    assert(self.stack@[j] == u as usize);
                } else {
                    assert(self.stack@[entry_stack.len() as int] == v);
                }
            }
            assert forall|k: int| 0 <= k < self.stack@.len() implies self.on_stack@[
                #[trigger] self.stack@[k] as int] by {
                if k < entry_stack.len() {
                    assert(self.stack@[k] == entry_stack[k]);
                }
            }
            assert forall|k: int| 0 <= k < self.stack@.len() implies self.indices@[
                #[trigger] self.stack@[k] as int] is Some by {
                if k < entry_stack.len() {
                    assert(self.stack@[k] == entry_stack[k]);
                }
            }
            assert forall|k: int| 0 <= k < self.stack@.len() implies (#[trigger] self.stack@[k])
                < self.n() by {
                if k < entry_stack.len() {
                    assert(self.stack@[k] == entry_stack[k]);
                }
            }
            assert(self.stack@.subrange(0, entry_stack.len() as int + 1) =~= entry_stack.push(v));
            assert(self.view_m() == entered);
            assert(target == close_m(edges_m(g, entered, v, 0), v));
            assert(self.stack@[0] == entry_stack[0] || entry_stack.len() == 0);
            assert(self.ordered()) by {
                assert forall|q: int| 0 <= q < self.stack@.len() implies self.indices@[
                    #[trigger] self.stack@[q] as int]->Some_0 >= self.indices@[self.stack@[0] as int]->Some_0 by {
                    if q < entry_stack.len() {
                        assert(self.stack@[q] == entry_stack[q]);
                        assert(self.stack@[0] == entry_stack[0]);
                    }
                }
            }
            assert(self.indices@[self.stack@[0] as int]->Some_0 == f);
        }
        let deg = self.graph[v].len();
        let mut e: usize = 0;
        while e < deg
            invariant
                self.wf(),
                self.n() == old(self).n(),
                self.graph == old(self).graph,
                v < self.n(),
                deg == self.graph@[v as int]@.len(),
                e <= deg,
                self.indices@[v as int] is Some,
                forall|u: int|
                    0 <= u < old(self).n() && old(self).indices@[u] is Some ==> self.indices@[u] is Some,
                self.stack@.len() > entry_stack.len(),
                self.stack@.subrange(0, entry_stack.len() as int + 1) == entry_stack.push(v),
                self.index > old(self).index,
                entry_stack == old(self).stack@,
                g == old(self).g(),
                g == self.g(),
                target == close_m(edges_m(g, self.view_m(), v, e as int), v),
                self.ordered(),
                old(self).indices@[v as int] is None,
                v < old(self).n(),
                self.indices@[v as int] == Some(iv0),
                f <= self.lowlinks@[v as int] <= iv0,
                f == old(self).floor(),
                iv0 == old(self).index,
                self.indices@[self.stack@[0] as int]->Some_0 == f,
                forall|u: int|
                    0 <= u < old(self).n() && old(self).indices@[u] is Some ==> self.indices@[u]
                        == old(self).indices@[u] && self.lowlinks@[u] == old(self).lowlinks@[u],
            decreases deg - e,
        {
            let w = self.graph[v][e];
            let ghost here = self.view_m();
            proof {
                assert(g[v as int] == self.graph@[v as int]@);
                assert(g[v as int][e as int] == w);
            }
            match self.indices[w] {
                None => {
                    let ghost mid = self.stack@;
                    proof {
                        lemma_indexed_count(self.indices@, w as int, 0);
                    }
                    self.strong_connect(w);
                    proof {
                        assert(self.stack@.subrange(0, entry_stack.len() as int + 1) =~= mid.subrange(
                            0,
                            entry_stack.len() as int + 1,
                        )) by {
                            assert forall|j: int| 0 <= j < entry_stack.len() as int + 1 implies self.stack@[j]
                                == mid[j] by {
                                assert(self.stack@.subrange(0, mid.len() as int)[j] == mid[j]);
                            }
                        }
                    }
                    let ghost after = self.view_m();
                    proof {
                        lemma_count_mono(here.indices, after.indices);
                        lemma_indexed_count_le(after.indices);
                        assert(after == visit_m(g, here, w));
                        assert(self.stack@[0] == mid[0]);
                        assert forall|u: int|
                            0 <= u < old(self).n() && old(self).indices@[u] is Some implies self.indices@[u]
                                == old(self).indices@[u] && self.lowlinks@[u] == old(self).lowlinks@[u] by {
                            assert(here.indices[u] is Some);
                        }
                    }
                    let lw = self.lowlinks[w];
                    let lv = self.lowlinks[v];
                    self.lowlinks.set(v, if lv < lw { lv } else { lw });
                    proof {
                        assert(self.view_m() == lowered_m(after, v, lw));
                        assert(edges_m(g, here, v, e as int) == edges_m(g, self.view_m(), v, e + 1));
                    }
                },
                Some(iw) => {
                    if self.on_stack[w] {
                        proof {
                            let q = choose|q: int| 0 <= q < self.stack@.len() && self.stack@[q] == w;
                            assert(self.indices@[self.stack@[q] as int]->Some_0 >= f);
                        }
                        let lv = self.lowlinks[v];
                        self.lowlinks.set(v, if lv < iw { lv } else { iw });
                        proof {
                            assert(self.view_m() == lowered_m(here, v, iw));
                        }
                    }
                    proof {
                        assert(edges_m(g, here, v, e as int) == edges_m(g, self.view_m(), v, e + 1));
                    }
                },
            }
            e += 1;
        }
        proof {
            assert(edges_m(g, self.view_m(), v, e as int) == self.view_m());
        }
        let iv = match self.indices[v] {
            Some(i) => i,
            None => 0,
        };
        if self.lowlinks[v] == iv {
            let mut scc: Vec<UnknownId> = Vec::new();
            let ghost base = self.done@;
            let ghost ii0 = self.indices@;
            let ghost ll0 = self.lowlinks@;
            let ghost ix0 = self.index;
            proof {
                assert(target == pop_m(self.view_m(), v, scc@));
            }
            loop
                invariant_except_break
                    self.stack@.len() > entry_stack.len(),
                    self.stack@.subrange(0, entry_stack.len() as int + 1) == entry_stack.push(v),
                    target == pop_m(self.view_m(), v, scc@),
                invariant
                    self.n() == old(self).n(),
                    self.graph == old(self).graph,
                    v < self.n(),
                    self.on_stack@.len() == self.n(),
                    self.indices@.len() == self.n(),
                    self.lowlinks@.len() == self.n(),
                    self.n() < usize::MAX,
                    self.index == indexed_count(self.indices@),
                    forall|vv: int, k: int|
                        0 <= vv < self.n() && 0 <= k < self.graph@[vv]@.len()
                            ==> #[trigger] self.graph@[vv]@[k] < self.n(),
                    forall|k: int| 0 <= k < self.stack@.len() ==> (#[trigger] self.stack@[k]) < self.n(),
                    forall|k: int|
                        0 <= k < self.stack@.len() ==> self.indices@[#[trigger] self.stack@[k] as int] is Some,
                    forall|k: int|
                        0 <= k < self.stack@.len() ==> self.on_stack@[#[trigger] self.stack@[k] as int],
                    forall|vv: int|
                        0 <= vv < self.n() && self.on_stack@[vv] ==> self.stack@.contains(vv as usize),
                    self.stack@.no_duplicates(),
                    (self.done@ + scc@).no_duplicates(),
                    forall|k: int| 0 <= k < (self.done@ + scc@).len() ==> (#[trigger] (self.done@
                        + scc@)[k]).0 < self.n(),
                    forall|k: int|
                        0 <= k < (self.done@ + scc@).len() ==> self.indices@[(#[trigger] (self.done@
                            + scc@)[k]).0 as int] is Some,
                    forall|k: int|
                        0 <= k < (self.done@ + scc@).len() ==> !self.on_stack@[(#[trigger] (self.done@
                            + scc@)[k]).0 as int],
                    forall|vv: int|
                        0 <= vv < self.n() && self.indices@[vv] is None ==> !self.on_stack@[vv],
                    forall|vv: int|
                        0 <= vv < self.n() && self.indices@[vv] is Some ==> self.on_stack@[vv]
                            || (self.done@ + scc@).contains(UnknownId(vv as usize)),
                    self.done@ == flatten(self.sccs@.map_values(|c: Vec<UnknownId>| c@)),
                    forall|i: int| 0 <= i < self.sccs@.len() ==> #[trigger] self.sccs@[i]@.len() > 0,
                    self.indices@[v as int] is Some,
                    forall|u: int|
                        0 <= u < old(self).n() && old(self).indices@[u] is Some ==> self.indices@[u] is Some,
                    self.index > old(self).index,
                    entry_stack == old(self).stack@,
                    self.indices@ == ii0,
                    self.lowlinks@ == ll0,
                    self.index == ix0,
                    self.ordered(),
                ensures
                    self.stack@ == entry_stack,
                    scc@.len() > 0,
                    target == (TarjanM { sccs: self.view_m().sccs.push(scc@), ..self.view_m() }),
                decreases self.stack@.len(),
            {
                let ghost pre = self.stack@;
                let ghost pre_view = self.view_m();
                let ghost pre_scc = scc@;
                let w = match self.stack.pop() {
                    Some(w) => w,
                    None => {
                        return;
                    },
                };
                proof {
                    assert(pre =~= self.stack@.push(w));
                    assert(pre[entry_stack.len() as int] == v) by {
                        assert(pre.subrange(0, entry_stack.len() as int + 1)[entry_stack.len() as int] == v);
                    }
                }
                self.on_stack.set(w, false);
                proof {
                    assert forall|q: int| 0 <= q < self.stack@.len() implies self.indices@[
                        #[trigger] self.stack@[q] as int]->Some_0 >= self.indices@[self.stack@[0] as int]->Some_0 by {
                        assert(self.stack@[q] == pre[q] && self.stack@[0] == pre[0]);
                    }
                }
                let ghost before = self.done@ + scc@;
                scc.push(UnknownId(w));
                proof {
                    assert(self.done@ + scc@ =~= before.push(UnknownId(w)));
                    assert forall|vv: int|
                        0 <= vv < self.n() && self.indices@[vv] is Some implies self.on_stack@[vv]
                            || (self.done@ + scc@).contains(UnknownId(vv as usize)) by {
                        if vv == w as int {
                            assert((self.done@ + scc@)[before.len() as int] == UnknownId(w));
                        } else if !self.on_stack@[vv] {
                            let j = choose|j: int| 0 <= j < before.len() && before[j] == UnknownId(vv as usize);
                            assert((self.done@ + scc@)[j] == UnknownId(vv as usize));
                        }
                    }
                    assert forall|a: int, b: int|
                        0 <= a < b < (self.done@ + scc@).len() implies (self.done@ + scc@)[a]
                        != (self.done@ + scc@)[b] by {
                        if b == before.len() {
                            assert(before[a].0 != w);
                        }
                    }
                    assert forall|vv: int|
                        0 <= vv < self.n() && self.on_stack@[vv] implies self.stack@.contains(
                        vv as usize,
                    ) by {
                        assert(pre.contains(vv as usize));
                        let j = choose|j: int| 0 <= j < pre.len() && pre[j] == vv as usize;
                        if j == self.stack@.len() {
                            assert(vv as usize == w);
                        } else {
                            assert(self.stack@[j] == vv as usize);
                        }
                    }
                }
                proof {
                    assert(pre_view.stack.last() == w);
                    assert(self.view_m() == (TarjanM {
                        stack: pre_view.stack.drop_last(),
                        on_stack: pre_view.on_stack.update(w as int, false),
                        ..pre_view
                    }));
                    assert(scc@ == pre_scc.push(UnknownId(w)));
                }
                if w == v {
                    proof {
                        if pre.len() > entry_stack.len() + 1 {
                            assert(pre[entry_stack.len() as int] == pre[pre.len() - 1]);
                        }
                        assert(self.stack@ =~= entry_stack) by {
                            assert forall|j: int| 0 <= j < entry_stack.len() implies self.stack@[j]
                                == entry_stack[j] by {
                                assert(pre.subrange(0, entry_stack.len() as int + 1)[j] == pre[j]);
                            }
                        }
                    }
                    break;
                }
                proof {
                    assert(self.stack@.subrange(0, entry_stack.len() as int + 1) =~= entry_stack.push(v))
                        by {
                        assert forall|j: int| 0 <= j < entry_stack.len() + 1 implies self.stack@[j]
                            == entry_stack.push(v)[j] by {
                            assert(pre.subrange(0, entry_stack.len() as int + 1)[j] == pre[j]);
                        }
                    }
                }
            }
            let ghost comp = scc@;
            let ghost old_sccs = self.sccs@;
            self.sccs.push(scc);
            proof {
                let m = self.sccs@.map_values(|c: Vec<UnknownId>| c@);
                assert(m.drop_last() =~= old_sccs.map_values(|c: Vec<UnknownId>| c@));
                assert(m.last() == comp);
                assert(m =~= old_sccs.map_values(|c: Vec<UnknownId>| c@).push(comp));
                self.done@ = self.done@ + comp;
                assert forall|i: int| 0 <= i < self.sccs@.len() implies #[trigger] self.sccs@[i]@.len() > 0 by {
                    if i < old_sccs.len() {
                        assert(self.sccs@[i] == old_sccs[i]);
                    }
                }
            }
        }
    }
}

/// Dependencies of `target`'s constraints, ascending.
fn outgoing(system: &ConstraintSystem, target: usize) -> (r: Vec<usize>)
    ensures
        forall|k: int| 0 <= k < r@.len() ==> #[trigger] r@[k] < system.unknowns(),
        r@ == deps_below_m(system.constraint_seq(), target, system.unknowns()),
{
    let ghost cs = system.constraint_seq();
    let mut marks: Vec<bool> = Vec::new();
    let mut i: usize = 0;
    while i < system.next
        invariant
            i <= system.next,
            marks@.len() == i,
            forall|j: int| 0 <= j < i ==> !#[trigger] marks@[j],
        decreases system.next - i,
    {
        marks.push(false);
        i += 1;
    }
    let mut c: usize = 0;
    while c < system.constraints.len()
        invariant
            marks@.len() == system.next,
            cs == system.constraint_seq(),
            c <= cs.len(),
            forall|j: int|
                0 <= j < marks@.len() ==> #[trigger] marks@[j] == exists|d: int|
                    0 <= d < c && (#[trigger] cs[d]).target.0 == target && mentions(cs[d].expr, j as usize),
        decreases system.constraints@.len() - c,
    {
        let ghost before = marks@;
        if system.constraints[c].target.0 == target {
            system.constraints[c].expr.mark_deps(&mut marks);
        }
        proof {
            assert forall|j: int| 0 <= j < marks@.len() implies #[trigger] marks@[j] == exists|d: int|
                0 <= d < c + 1 && (#[trigger] cs[d]).target.0 == target && mentions(cs[d].expr, j as usize) by {
                if marks@[j] && !before[j] {
                    assert(cs[c as int].target.0 == target && mentions(cs[c as int].expr, j as usize));
                }
                if before[j] {
                    let d = choose|d: int|
                        0 <= d < c && (#[trigger] cs[d]).target.0 == target && mentions(cs[d].expr, j as usize);
                }
            }
        }
        c += 1;
    }
    proof {
        assert forall|i: int| 0 <= i < marks@.len() implies #[trigger] marks@[i] == depends_m(cs, target, i as usize) by {
            assert(marks@[i] == exists|d: int|
                0 <= d < cs.len() && (#[trigger] cs[d]).target.0 == target && mentions(cs[d].expr, i as usize));
        }
    }
    let mut out: Vec<usize> = Vec::new();
    let mut j: usize = 0;
    while j < marks.len()
        invariant
            j <= marks@.len(),
            marks@.len() == system.next,
            cs == system.constraint_seq(),
            forall|k: int| 0 <= k < out@.len() ==> #[trigger] out@[k] < system.unknowns(),
            forall|i: int| 0 <= i < marks@.len() ==> #[trigger] marks@[i] == depends_m(cs, target, i as usize),
            out@ == deps_below_m(cs, target, j as nat),
        decreases marks@.len() - j,
    {
        if marks[j] {
            out.push(j);
        }
        j += 1;
    }
    out
}

/// Strongly connected components of the dependency graph (an unknown depends on the
/// unknowns in its constraints' right-hand sides), in reverse of Tarjan's emission order.
fn strongly_connected_components(system: &ConstraintSystem) -> (r: Vec<Vec<UnknownId>>)
    requires
        system.unknowns() < usize::MAX,
    ensures
        components_over(r@.map_values(|c: Vec<UnknownId>| c@), system.unknowns()),
        covers(r@.map_values(|c: Vec<UnknownId>| c@), system.unknowns()),
        r@.map_values(|c: Vec<UnknownId>| c@) == sccs_m(system.constraint_seq(), system.unknowns()),
{
    let n = system.next;
    let ghost cs = system.constraint_seq();
    let ghost gm = graph_m(cs, n as nat);
    let mut graph: Vec<Vec<usize>> = Vec::new();
    let mut on_stack: Vec<bool> = Vec::new();
    let mut indices: Vec<Option<usize>> = Vec::new();
    let mut lowlinks: Vec<usize> = Vec::new();
    let mut i: usize = 0;
    while i < n
        invariant
            i <= n,
            n == system.unknowns(),
            graph@.len() == i,
            on_stack@.len() == i,
            indices@.len() == i,
            lowlinks@.len() == i,
            forall|v: int, k: int|
                0 <= v < i && 0 <= k < graph@[v]@.len() ==> #[trigger] graph@[v]@[k] < n,
            forall|v: int| 0 <= v < i ==> !on_stack@[v],
            forall|v: int| 0 <= v < i ==> indices@[v] is None,
            forall|v: int| 0 <= v < i ==> lowlinks@[v] == 0,
            cs == system.constraint_seq(),
            gm == graph_m(cs, n as nat),
            forall|v: int| 0 <= v < i ==> #[trigger] graph@[v]@ == gm[v],
        decreases n - i,
    {
        graph.push(outgoing(system, i));
        on_stack.push(false);
        indices.push(None);
        lowlinks.push(0);
        i += 1;
    }
    proof {
        assert(indexed_count(indices@) == 0) by {
            lemma_none_count(indices@);
        }
    }
    let mut tarjan = Tarjan {
        graph,
        index: 0,
        stack: Vec::new(),
        on_stack,
        indices,
        lowlinks,
        sccs: Vec::new(),
        done: Ghost(Seq::empty()),
    };
    proof {
        assert(tarjan.sccs@.map_values(|c: Vec<UnknownId>| c@) =~= Seq::<Seq<UnknownId>>::empty());
        assert(tarjan.g() =~= gm);
        assert(tarjan.view_m() == init_m(n as nat)) by {
            assert(tarjan.on_stack@ =~= init_m(n as nat).on_stack);
            assert(tarjan.indices@ =~= init_m(n as nat).indices);
            assert(tarjan.lowlinks@ =~= init_m(n as nat).lowlinks);
            assert(tarjan.stack@ =~= Seq::<usize>::empty());
        }
    }
    let mut idx: usize = 0;
    while idx < n
        invariant
            tarjan.wf(),
            tarjan.n() == n,
            n == system.unknowns(),
            idx <= n,
            tarjan.ordered(),
            tarjan.stack@.len() == 0,
            forall|u: int| 0 <= u < idx ==> tarjan.indices@[u] is Some,
            tarjan.g() == gm,
            gm.len() == n,
            run_m(gm, init_m(n as nat), 0) == run_m(gm, tarjan.view_m(), idx as int),
        decreases n - idx,
    {
        let ghost before = tarjan.view_m();
        if tarjan.indices[idx].is_none() {
            tarjan.strong_connect(idx);
        }
        proof {
            assert(run_m(gm, before, idx as int) == run_m(gm, tarjan.view_m(), idx + 1));
        }
        idx += 1;
    }
    let ghost finished = tarjan.view_m();
    proof {
        assert(run_m(gm, finished, n as int) == finished);
        assert forall|u: usize| u < n implies #[trigger] tarjan.done@.contains(UnknownId(u)) by {
            assert(tarjan.indices@[u as int] is Some);
            if tarjan.on_stack@[u as int] {
                assert(tarjan.stack@.contains(u));
            }
        }
    }
    let mut sccs = tarjan.sccs;
    let ghost emitted = sccs@.map_values(|c: Vec<UnknownId>| c@);
    proof {
        assert forall|x: UnknownId| #[trigger] flatten(emitted).contains(x) implies x.0 < n by {
            let k = choose|k: int| 0 <= k < tarjan.done@.len() && tarjan.done@[k] == x;
        }
        assert(flatten(emitted) + flatten(Seq::<Seq<UnknownId>>::empty()) =~= flatten(emitted));
    }
    let mut out: Vec<Vec<UnknownId>> = Vec::new();
    while sccs.len() > 0
        invariant
            ({
                let a = flatten(sccs@.map_values(|c: Vec<UnknownId>| c@));
                let b = flatten(out@.map_values(|c: Vec<UnknownId>| c@));
                &&& (a + b).no_duplicates()
                &&& forall|x: UnknownId| #[trigger] (a + b).contains(x) ==> x.0 < n
                &&& forall|u: usize| u < n ==> #[trigger] (a + b).contains(UnknownId(u))
            }),
            forall|i: int| 0 <= i < sccs@.len() ==> #[trigger] sccs@[i]@.len() > 0,
            forall|i: int| 0 <= i < out@.len() ==> #[trigger] out@[i]@.len() > 0,
            sccs@.len() + out@.len() == emitted.len(),
            forall|i: int| 0 <= i < sccs@.len() ==> #[trigger] sccs@[i]@ == emitted[i],
            forall|i: int| 0 <= i < out@.len() ==> #[trigger] out@[i]@ == emitted[emitted.len() - 1 - i],
        decreases sccs@.len(),
    {
        let ghost old_sccs = sccs@;
        let ghost old_out = out@;
        let c = sccs.pop().unwrap();
        out.push(c);
        proof {
            let ms = old_sccs.map_values(|c: Vec<UnknownId>| c@);
            let mo = old_out.map_values(|c: Vec<UnknownId>| c@);
            assert(ms.drop_last() =~= sccs@.map_values(|c: Vec<UnknownId>| c@));
            assert(out@.map_values(|c: Vec<UnknownId>| c@).drop_last() =~= mo);
            let p = flatten(sccs@.map_values(|c: Vec<UnknownId>| c@));
            let fo = flatten(mo);
            let cm = c@;
            assert(ms.last() == cm);
            assert(flatten(ms) == p + cm);
            assert(out@.map_values(|c: Vec<UnknownId>| c@).last() == cm);
            assert(flatten(out@.map_values(|c: Vec<UnknownId>| c@)) == fo + cm);
            lemma_concat(p + cm, fo);
            lemma_concat(p, cm);
            lemma_concat(fo, cm);
            lemma_concat(p, fo + cm);
            assert((p + cm).no_duplicates());
            assert(fo.no_duplicates());
            assert((fo + cm).no_duplicates());
            assert((p + (fo + cm)).no_duplicates());
            assert forall|x: UnknownId| #[trigger] (p + (fo + cm)).contains(x) implies x.0 < n by {
                assert((p + cm + fo).contains(x));
            }
            assert forall|u: usize| u < n implies #[trigger] (p + (fo + cm)).contains(UnknownId(u)) by {
                assert((p + cm + fo).contains(UnknownId(u)));
            }
        }
    }
    proof {
        let b = flatten(out@.map_values(|c: Vec<UnknownId>| c@));
        assert(flatten(sccs@.map_values(|c: Vec<UnknownId>| c@)) + b =~= b);
        assert(emitted == finished.sccs);
        assert forall|u: usize| u < n implies #[trigger] b.contains(UnknownId(u)) by {
            assert((flatten(sccs@.map_values(|c: Vec<UnknownId>| c@)) + b).contains(UnknownId(u)));
        }
        assert(out@.map_values(|c: Vec<UnknownId>| c@) =~= emitted.reverse());
    }
    out
}

proof fn lemma_flatten_member(s: Seq<Seq<UnknownId>>, c: int, k: int)
    requires
        0 <= c < s.len(),
        0 <= k < s[c].len(),
    ensures
        flatten(s).contains(s[c][k]),
    decreases s.len(),
{
    if c < s.len() - 1 {
        lemma_flatten_member(s.drop_last(), c, k);
        let i = choose|i: int| 0 <= i < flatten(s.drop_last()).len() && flatten(s.drop_last())[i]
            == s[c][k];
        assert((flatten(s.drop_last()) + s.last())[i] == s[c][k]);
    } else {
        let f = flatten(s.drop_last());
        assert((f + s.last())[f.len() + k] == s[c][k]);
    }
}

/// Vertex `u` lies in one of the components `r`.
pub open spec fn in_component(r: Seq<Vec<UnknownId>>, u: usize) -> bool {
    exists|c: int, k: int| 0 <= c < r.len() && 0 <= k < r[c]@.len() && #[trigger] r[c]@[k] == UnknownId(u)
}

/// Where an element of a flattened sequence of components comes from.
proof fn lemma_flatten_source(s: Seq<Seq<UnknownId>>, x: UnknownId)
    requires
        flatten(s).contains(x),
    ensures
        exists|c: int, k: int| 0 <= c < s.len() && 0 <= k < s[c].len() && s[c][k] == x,
    decreases s.len(),
{
    let f = flatten(s.drop_last());
    let j = choose|j: int| 0 <= j < flatten(s).len() && flatten(s)[j] == x;
    if j < f.len() {
        assert(f[j] == x);
        lemma_flatten_source(s.drop_last(), x);
        let (c, k) = choose|c: int, k: int|
            0 <= c < s.drop_last().len() && 0 <= k < s.drop_last()[c].len() && s.drop_last()[c][k] == x;
        assert(s[c][k] == x);
    } else {
        assert(s[s.len() - 1][j - f.len()] == x);
    }
}

/// The strongly connected components of `graph` (each node lists its successors), in the
/// order in which Tarjan's algorithm completes them; every vertex lies in one of them.
pub(crate) fn tarjan_order(graph: Vec<Vec<usize>>) -> (r: Vec<Vec<UnknownId>>)
    requires
        graph@.len() < usize::MAX,
        forall|v: int, k: int|
            0 <= v < graph@.len() && 0 <= k < graph@[v]@.len() ==> #[trigger] graph@[v]@[k]
                < graph@.len(),
    ensures
        forall|c: int, k: int|
            0 <= c < r@.len() && 0 <= k < r@[c]@.len() ==> (#[trigger] r@[c]@[k]).0 < graph@.len(),
        forall|u: usize| u < graph@.len() ==> #[trigger] in_component(r@, u),
        r@.map_values(|c: Vec<UnknownId>| c@) == run_m(
            graph@.map_values(|e: Vec<usize>| e@),
            init_m(graph@.len()),
            0,
        ).sccs,
{
    let n = graph.len();
    let ghost gm = graph@.map_values(|e: Vec<usize>| e@);
    let mut on_stack: Vec<bool> = Vec::new();
    let mut indices: Vec<Option<usize>> = Vec::new();
    let mut lowlinks: Vec<usize> = Vec::new();
    let mut i: usize = 0;
    while i < n
        invariant
            i <= n,
            on_stack@.len() == i,
            indices@.len() == i,
            lowlinks@.len() == i,
            forall|v: int| 0 <= v < i ==> !on_stack@[v],
            forall|v: int| 0 <= v < i ==> indices@[v] is None,
            forall|v: int| 0 <= v < i ==> lowlinks@[v] == 0,
        decreases n - i,
    {
        on_stack.push(false);
        indices.push(None);
        lowlinks.push(0);
        i += 1;
    }
    proof {
        assert(indexed_count(indices@) == 0) by {
            lemma_none_count(indices@);
        }
    }
    let mut tarjan = Tarjan {
        graph,
        index: 0,
        stack: Vec::new(),
        on_stack,
        indices,
        lowlinks,
        sccs: Vec::new(),
        done: Ghost(Seq::empty()),
    };
    proof {
        assert(tarjan.sccs@.map_values(|c: Vec<UnknownId>| c@) =~= Seq::<Seq<UnknownId>>::empty());
        assert(tarjan.g() =~= gm);
        assert(tarjan.view_m() == init_m(n as nat)) by {
            assert(tarjan.on_stack@ =~= init_m(n as nat).on_stack);
            assert(tarjan.indices@ =~= init_m(n as nat).indices);
            assert(tarjan.lowlinks@ =~= init_m(n as nat).lowlinks);
            assert(tarjan.stack@ =~= Seq::<usize>::empty());
        }
    }
    let mut idx: usize = 0;
    while idx < n
        invariant
            tarjan.wf(),
            tarjan.n() == n,
            idx <= n,
            forall|u: int| 0 <= u < idx ==> tarjan.indices@[u] is Some,
            tarjan.ordered(),
            tarjan.stack@.len() == 0,
            tarjan.g() == gm,
            gm.len() == n,
            run_m(gm, init_m(n as nat), 0) == run_m(gm, tarjan.view_m(), idx as int),
        decreases n - idx,
    {
        let ghost before = tarjan.view_m();
        if tarjan.indices[idx].is_none() {
            tarjan.strong_connect(idx);
        }
        proof {
            assert(run_m(gm, before, idx as int) == run_m(gm, tarjan.view_m(), idx + 1));
        }
        idx += 1;
    }
    proof {
        assert(run_m(gm, tarjan.view_m(), n as int) == tarjan.view_m());
    }
    // Every vertex is now in a completed component.
    let sccs = tarjan.sccs;
    let ghost emitted = sccs@.map_values(|c: Vec<UnknownId>| c@);
    proof {
        assert forall|c: int, k: int|
            0 <= c < sccs@.len() && 0 <= k < sccs@[c]@.len() implies (#[trigger] sccs@[c]@[k]).0 < n by {
            assert(emitted[c] == sccs@[c]@);
            lemma_flatten_member(emitted, c, k);
            let j = choose|j: int| 0 <= j < tarjan.done@.len() && tarjan.done@[j] == sccs@[c]@[k];
        }
        assert forall|u: usize| u < n implies #[trigger] in_component(sccs@, u) by {
            assert(tarjan.indices@[u as int] is Some);
            if tarjan.on_stack@[u as int] {
                assert(tarjan.stack@.contains(u));
            }
            assert(tarjan.done@.contains(UnknownId(u)));
            lemma_flatten_source(emitted, UnknownId(u));
            let (c, k) = choose|c: int, k: int|
                0 <= c < emitted.len() && 0 <= k < emitted[c].len() && emitted[c][k] == UnknownId(u);
            assert(sccs@[c]@[k] == UnknownId(u));
        }
    }
    sccs
}

proof fn lemma_none_count(s: Seq<Option<usize>>)
    requires
        forall|v: int| 0 <= v < s.len() ==> s[v] is None,
    ensures
        indexed_count(s) == 0,
    decreases s.len(),
{
    if s.len() > 0 {
        lemma_none_count(s.drop_last());
    }
}

} // verus!
