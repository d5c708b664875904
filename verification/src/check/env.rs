//! The checker's environment and partial witnesses, with their models.

use vstd::prelude::*;

use crate::check::solve::{BoundExpr, UnknownId};
use crate::check::typing::{
    add_m, combine_m, contextualize_m, find_rec_m, lookup_m, member_vars, nat_arrow_m, nat_cont_m,
    one, pure_m, sat_add, strict_rec, with_cont_m, with_rec_group_m, with_rec_m,
    with_strict_var_m, with_var_m, EnvM, PartialM, RecM,
};
use crate::core_ast::{ContinuationUseFacts, CoverageSet, Divergence, RecursionTag, Type};
use crate::grade::{Bound, Eff, Region};
use crate::text::{owned, str_eq};

verus! {

broadcast use vstd::std_specs::vec::group_vec_axioms, vstd::seq::group_seq_axioms;

/// A witness whose boundedness is still an expression over solver unknowns.
#[derive(Debug)]
pub struct PartialWitness {
    pub ty: Type,
    pub effects: Eff,
    pub bound: BoundExpr,
    pub region: Region,
    pub continuation_uses: ContinuationUseFacts,
    pub divergence: Divergence,
    pub coverage: CoverageSet,
}

impl View for PartialWitness {
    type V = PartialM;

    open spec fn view(&self) -> PartialM {
        PartialM {
            ty: self.ty,
            effects: self.effects@,
            bound: self.bound,
            region: self.region,
            uses: self.continuation_uses,
            divergence: self.divergence,
            coverage: self.coverage@,
        }
    }
}

fn sat_u32(a: u32, b: u32) -> (r: u32)
    ensures
        r == sat_add(a, b),
{
    a.saturating_add(b)
}

impl PartialWitness {
    pub fn pure(ty: Type) -> (r: Self)
        ensures
            r@ == pure_m(ty),
    {
        Self {
            ty,
            effects: Eff::empty(),
            bound: BoundExpr::constant(Bound::ZERO()),
            region: Region::Arena,
            continuation_uses: ContinuationUseFacts { introduced: 0, resumed: 0, dropped: 0 },
            divergence: Divergence::Terminates,
            coverage: CoverageSet::new(),
        }
    }

    /// Sequential composition with `rhs` (the type stays this one's).
    pub fn combine(self, rhs: &Self) -> (r: Self)
        ensures
            r@ == combine_m(self@, rhs@),
    {
        let mut coverage = self.coverage;
        coverage.extend(&rhs.coverage);
        Self {
            ty: self.ty,
            effects: self.effects.join(&rhs.effects),
            bound: self.bound.seq(rhs.bound.duplicate()),
            region: self.region.meet(rhs.region),
            continuation_uses: ContinuationUseFacts {
                introduced: sat_u32(
                    self.continuation_uses.introduced,
                    rhs.continuation_uses.introduced,
                ),
                resumed: sat_u32(self.continuation_uses.resumed, rhs.continuation_uses.resumed),
                dropped: sat_u32(self.continuation_uses.dropped, rhs.continuation_uses.dropped),
            },
            divergence: if rhs.divergence == Divergence::Div {
                Divergence::Div
            } else {
                self.divergence
            },
            coverage,
        }
    }
}

/// The bound of a child, one frame deeper when the child is effectful.
pub fn contextualize(child: &PartialWitness) -> (r: BoundExpr)
    ensures
        r == contextualize_m(child@),
{
    if !child.effects.is_empty() {
        child.bound.duplicate().seq(BoundExpr::constant(Bound::finite(1)))
    } else {
        child.bound.duplicate()
    }
}

/// The recursion context of a `fix` / `fix*` member.
#[derive(Debug)]
pub struct RecContext {
    pub func: String,
    pub param: String,
    pub tag: RecursionTag,
    pub strict_var: Option<String>,
    pub unknown: UnknownId,
}

pub open spec fn opt_view(o: Option<String>) -> Option<Seq<char>> {
    match o {
        Some(s) => Some(s@),
        None => None,
    }
}

impl View for RecContext {
    type V = RecM;

    open spec fn view(&self) -> RecM {
        RecM {
            func: self.func@,
            param: self.param@,
            tag: self.tag,
            strict_var: opt_view(self.strict_var),
            unknown: self.unknown,
        }
    }
}

pub open spec fn recs_view(s: Seq<RecContext>) -> Seq<RecM> {
    s.map_values(|r: RecContext| r@)
}

pub open spec fn rec_opt_view(o: Option<RecContext>) -> Option<RecM> {
    match o {
        Some(r) => Some(r@),
        None => None,
    }
}

pub open spec fn vars_view(s: Seq<(String, Type)>) -> Seq<(Seq<char>, Type)> {
    s.map_values(|p: (String, Type)| (p.0@, p.1))
}

pub open spec fn names_set(s: Seq<String>) -> Set<Seq<char>> {
    s.map_values(|n: String| n@).to_set()
}

impl RecContext {
    pub fn duplicate(&self) -> (r: Self)
        ensures
            r@ == self@,
    {
        RecContext {
            func: self.func.clone(),
            param: self.param.clone(),
            tag: self.tag,
            strict_var: match &self.strict_var {
                Some(v) => Some(v.clone()),
                None => None,
            },
            unknown: self.unknown,
        }
    }

    fn with_strict(&self, v: &str) -> (r: Self)
        ensures
            r@ == strict_rec(self@, v@),
    {
        RecContext {
            func: self.func.clone(),
            param: self.param.clone(),
            tag: self.tag,
            strict_var: Some(owned(v)),
            unknown: self.unknown,
        }
    }
}

/// The typing environment.
#[derive(Debug)]
pub struct Env {
    vars: Vec<(String, Type)>,
    cont_vars: Vec<String>,
    rec: Option<RecContext>,
    recs: Vec<RecContext>,
}

impl View for Env {
    type V = EnvM;

    closed spec fn view(&self) -> EnvM {
        EnvM {
            vars: vars_view(self.vars@),
            cont_vars: names_set(self.cont_vars@),
            rec: rec_opt_view(self.rec),
            recs: recs_view(self.recs@),
        }
    }
}

fn dup_recs(v: &Vec<RecContext>) -> (r: Vec<RecContext>)
    ensures
        recs_view(r@) == recs_view(v@),
{
    let mut out: Vec<RecContext> = Vec::new();
    let mut i: usize = 0;
    while i < v.len()
        invariant
            i <= v@.len(),
            out@.len() == i,
            forall|j: int| 0 <= j < i ==> #[trigger] out@[j]@ == v@[j]@,
        decreases v@.len() - i,
    {
        out.push(v[i].duplicate());
        i += 1;
    }
    assert(recs_view(out@) =~= recs_view(v@));
    out
}

fn dup_opt_rec(o: &Option<RecContext>) -> (r: Option<RecContext>)
    ensures
        rec_opt_view(r) == rec_opt_view(*o),
{
    match o {
        Some(rc) => Some(rc.duplicate()),
        None => None,
    }
}

/// The first context of `func` in `recs`.
pub fn find_rec(recs: &Vec<RecContext>, func: &str) -> (r: Option<RecContext>)
    ensures
        rec_opt_view(r) == find_rec_m(recs_view(recs@), func@),
{
    let ghost full = recs_view(recs@);
    let mut i: usize = 0;
    assert(full.subrange(0, full.len() as int) =~= full);
    while i < recs.len()
        invariant
            i <= recs@.len(),
            full == recs_view(recs@),
            find_rec_m(full, func@) == find_rec_m(full.subrange(i as int, full.len() as int), func@),
        decreases recs@.len() - i,
    {
        let ghost rest = full.subrange(i as int, full.len() as int);
        assert(rest[0] == recs@[i as int]@);
        assert(rest.drop_first() =~= full.subrange(i + 1, full.len() as int));
        if str_eq(recs[i].func.as_str(), func) {
            return Some(recs[i].duplicate());
        }
        i += 1;
    }
    assert(full.subrange(i as int, full.len() as int) =~= Seq::<RecM>::empty());
    None
}

impl Env {
    /// The empty environment.
    pub fn new() -> (r: Self)
        ensures
            r@ == crate::check::typing::empty_env(),
    {
        let r = Env { vars: Vec::new(), cont_vars: Vec::new(), rec: None, recs: Vec::new() };
        assert(r@.vars =~= Seq::<(Seq<char>, Type)>::empty());
        assert(r@.cont_vars =~= Set::<Seq<char>>::empty());
        assert(r@.recs =~= Seq::<RecM>::empty());
        r
    }

    fn duplicate(&self) -> (r: Self)
        ensures
            r@ == self@,
    {
        let mut vars: Vec<(String, Type)> = Vec::new();
        let mut i: usize = 0;
        while i < self.vars.len()
            invariant
                i <= self.vars@.len(),
                vars@.len() == i,
                forall|j: int| #![trigger vars@[j]]
                    0 <= j < i ==> vars@[j].0@ == self.vars@[j].0@ && vars@[j].1 == self.vars@[j].1,
            decreases self.vars@.len() - i,
        {
            let (name, ty) = &self.vars[i];
            vars.push((name.clone(), ty.duplicate()));
            i += 1;
        }
        assert(vars_view(vars@) =~= vars_view(self.vars@));
        let mut cont_vars: Vec<String> = Vec::new();
        let mut k: usize = 0;
        while k < self.cont_vars.len()
            invariant
                k <= self.cont_vars@.len(),
                cont_vars@.len() == k,
                forall|j: int| 0 <= j < k ==> #[trigger] cont_vars@[j]@ == self.cont_vars@[j]@,
            decreases self.cont_vars@.len() - k,
        {
            cont_vars.push(self.cont_vars[k].clone());
            k += 1;
        }
        assert(cont_vars@.map_values(|n: String| n@) =~= self.cont_vars@.map_values(
            |n: String| n@,
        ));
        Env { vars, cont_vars, rec: dup_opt_rec(&self.rec), recs: dup_recs(&self.recs) }
    }

    /// The latest binding of `name`.
    pub fn lookup(&self, name: &str) -> (r: Option<Type>)
        ensures
            r == lookup_m(self@.vars, name@),
    {
        let ghost full = vars_view(self.vars@);
        let mut i: usize = self.vars.len();
        assert(full.subrange(0, i as int) =~= full);
        while i > 0
            invariant
                i <= self.vars@.len(),
                full == vars_view(self.vars@),
                lookup_m(full, name@) == lookup_m(full.subrange(0, i as int), name@),
            decreases i,
        {
            let ghost pre = full.subrange(0, i as int);
            assert(pre.last() == (self.vars@[i - 1].0@, self.vars@[i - 1].1));
            assert(pre.drop_last() =~= full.subrange(0, i - 1));
            if str_eq(self.vars[i - 1].0.as_str(), name) {
                return Some(self.vars[i - 1].1.duplicate());
            }
            i -= 1;
        }
        None
    }

    /// Whether `name` is a continuation variable.
    pub fn is_cont_var(&self, name: &str) -> (r: bool)
        ensures
            r == self@.cont_vars.contains(name@),
    {
        let ghost names = self.cont_vars@.map_values(|n: String| n@);
        let mut i: usize = 0;
        while i < self.cont_vars.len()
            invariant
                i <= self.cont_vars@.len(),
                names == self.cont_vars@.map_values(|n: String| n@),
                forall|j: int| 0 <= j < i ==> self.cont_vars@[j]@ != name@,
            decreases self.cont_vars@.len() - i,
        {
            if str_eq(self.cont_vars[i].as_str(), name) {
                assert(names[i as int] == name@);
                return true;
            }
            i += 1;
        }
        proof {
            if names.to_set().contains(name@) {
                let j = choose|j: int| 0 <= j < names.len() && names[j] == name@;
                assert(self.cont_vars@[j]@ == name@);
            }
        }
        false
    }

    /// The current recursion member.
    pub fn current_rec(&self) -> (r: &Option<RecContext>)
        ensures
            rec_opt_view(*r) == self@.rec,
    {
        &self.rec
    }

    /// The whole recursion group.
    pub fn group(&self) -> (r: &Vec<RecContext>)
        ensures
            recs_view(r@) == self@.recs,
    {
        &self.recs
    }

    pub fn with_var(&self, name: String, ty: Type) -> (r: Self)
        ensures
            r@ == with_var_m(self@, name@, ty),
    {
        let mut next = self.duplicate();
        let ghost before = next.vars@;
        next.vars.push((name, ty));
        assert(vars_view(next.vars@) =~= vars_view(before).push((name@, ty)));
        next
    }

    pub fn with_cont(&self, name: &str) -> (r: Self)
        ensures
            r@ == with_cont_m(self@, name@),
    {
        let mut next = self.duplicate();
        let ghost before = next.vars@;
        let ghost cbefore = next.cont_vars@;
        next.vars.push((owned(name), Type::nat_cont()));
        next.cont_vars.push(owned(name));
        assert(vars_view(next.vars@) =~= vars_view(before).push((name@, nat_cont_m())));
        assert(next.cont_vars@.map_values(|n: String| n@) =~= cbefore.map_values(|n: String| n@).push(
            name@,
        ));
        proof {
            let s = cbefore.map_values(|n: String| n@);
            assert(s.push(name@).to_set() =~= s.to_set().insert(name@)) by {
                assert forall|x: Seq<char>| s.push(name@).to_set().contains(x) implies s.to_set().insert(
                    name@,
                ).contains(x) by {
                    let j = choose|j: int| 0 <= j < s.push(name@).len() && s.push(name@)[j] == x;
                    if j < s.len() {
                        assert(s[j] == x);
                    }
                }
                assert forall|x: Seq<char>| s.to_set().insert(name@).contains(x) implies s.push(
                    name@,
                ).to_set().contains(x) by {
                    if x == name@ {
                        assert(s.push(name@)[s.len() as int] == x);
                    } else {
                        let j = choose|j: int| 0 <= j < s.len() && s[j] == x;
                        assert(s.push(name@)[j] == x);
                    }
                }
            }
        }
        next
    }

    pub fn with_rec(&self, rec: RecContext) -> (r: Self)
        ensures
            r@ == with_rec_m(self@, rec@),
    {
        let mut next = self.duplicate();
        let ghost before = next.vars@;
        next.vars.push((rec.func.clone(), Type::nat_arrow()));
        next.vars.push((rec.param.clone(), Type::Nat));
        assert(vars_view(next.vars@) =~= vars_view(before).push((rec.func@, nat_arrow_m(Type::Nat))).push(
            (rec.param@, Type::Nat),
        ));
        let mut recs: Vec<RecContext> = Vec::new();
        recs.push(rec.duplicate());
        assert(recs_view(recs@) =~= seq![rec@]);
        next.recs = recs;
        next.rec = Some(rec);
        next
    }

    pub fn with_rec_group(&self, recs: &Vec<RecContext>, current: &str, param: &str) -> (r: Self)
        ensures
            r@ == with_rec_group_m(self@, recs_view(recs@), current@, param@),
    {
        let mut next = self.duplicate();
        let ghost before = vars_view(next.vars@);
        let mut i: usize = 0;
        while i < recs.len()
            invariant
                i <= recs@.len(),
                vars_view(next.vars@) == before + member_vars(recs_view(recs@).subrange(0, i as int)),
                names_set(next.cont_vars@) == self@.cont_vars,
            decreases recs@.len() - i,
        {
            let ghost prev = next.vars@;
            next.vars.push((recs[i].func.clone(), Type::nat_arrow()));
            proof {
                assert(vars_view(next.vars@) =~= vars_view(prev).push(
                    (recs@[i as int].func@, nat_arrow_m(Type::Nat)),
                ));
                assert(member_vars(recs_view(recs@).subrange(0, i + 1)) =~= member_vars(
                    recs_view(recs@).subrange(0, i as int),
                ).push((recs@[i as int].func@, nat_arrow_m(Type::Nat))));
                assert(before + member_vars(recs_view(recs@).subrange(0, i + 1)) =~= (before
                    + member_vars(recs_view(recs@).subrange(0, i as int))).push(
                    (recs@[i as int].func@, nat_arrow_m(Type::Nat)),
                ));
            }
            i += 1;
        }
        assert(recs_view(recs@).subrange(0, recs@.len() as int) =~= recs_view(recs@));
        let ghost mid = next.vars@;
        next.vars.push((owned(param), Type::Nat));
        assert(vars_view(next.vars@) =~= vars_view(mid).push((param@, Type::Nat)));
        next.rec = find_rec(recs, current);
        next.recs = dup_recs(recs);
        next
    }

    pub fn with_strict_var(&self, strict_var: &str) -> (r: Self)
        ensures
            r@ == with_strict_var_m(self@, strict_var@),
    {
        let mut next = self.duplicate();
        match &self.rec {
            Some(rec) => {
                let mut recs: Vec<RecContext> = Vec::new();
                let mut i: usize = 0;
                while i < self.recs.len()
                    invariant
                        i <= self.recs@.len(),
                        recs@.len() == i,
                        forall|j: int| #![trigger recs@[j]]
                            0 <= j < i ==> recs@[j]@ == (if self.recs@[j]@.func == rec@.func {
                                strict_rec(self.recs@[j]@, strict_var@)
                            } else {
                                self.recs@[j]@
                            }),
                    decreases self.recs@.len() - i,
                {
                    if str_eq(self.recs[i].func.as_str(), rec.func.as_str()) {
                        recs.push(self.recs[i].with_strict(strict_var));
                    } else {
                        recs.push(self.recs[i].duplicate());
                    }
                    i += 1;
                }
                next.rec = Some(rec.with_strict(strict_var));
                next.recs = recs;
                proof {
                    let f = |g: RecM|
                        if g.func == rec@.func {
                            strict_rec(g, strict_var@)
                        } else {
                            g
                        };
                    assert(recs_view(next.recs@) =~= recs_view(self.recs@).map_values(f));
                }
            },
            None => {},
        }
        next
    }
}

} // verus!
