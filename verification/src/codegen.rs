//! The boundary to native code: the frame arena sized by the checker's sealed certificate,
//! and the test for effect syntax that native lowering treats apart.

use vstd::prelude::*;

use crate::check::solve::CertifiedGrade;
use crate::check::CheckedWitness;
use crate::core_ast::{bindings_view, terms_view, FixBinding, FixBindingM, Term, TermM};
use crate::grade::Bound;

verus! {

broadcast use vstd::std_specs::vec::group_vec_axioms, vstd::seq::group_seq_axioms;

/// Frame slots of the growable segment when `β = ω`.
pub const GROWABLE_INITIAL_SLOTS: u32 = 64;

#[derive(Debug, Clone, PartialEq, Eq)]
pub struct CodegenError {
    pub message: String,
}

/// The frame arena of native code: its size is read only from the checker's sealed
/// certificate, never from a raw number.
#[derive(Debug, Clone, Copy, PartialEq, Eq)]
pub struct CertifiedArena {
    certified: CertifiedGrade,
}

/// Slots for a certified bound: exactly `β` when finite, the growable segment otherwise.
pub open spec fn arena_slots_m(b: Bound) -> u32 {
    match b {
        Bound::Finite(slots) => slots,
        Bound::Omega => GROWABLE_INITIAL_SLOTS,
    }
}

impl CertifiedArena {
    pub closed spec fn certified(&self) -> Bound {
        self.certified.bound()
    }

    /// The arena of a checked program: any certified bound is accepted, finite or `ω`.
    pub fn from_checked(checked: &CheckedWitness) -> (r: Result<Self, CodegenError>)
        ensures
            r matches Ok(a) && a.certified() == checked.bound_spec().bound(),
    {
        let certified = checked.certified_bound();
        match certified.get() {
            Bound::Finite(_) => Ok(Self { certified }),
            Bound::Omega => Ok(Self { certified }),
        }
    }

    /// The number of frame slots to allocate.
    pub fn slots(self) -> (r: u32)
        ensures
            r == arena_slots_m(self.certified()),
    {
        match self.certified.get() {
            Bound::Finite(slots) => slots,
            Bound::Omega => GROWABLE_INITIAL_SLOTS,
        }
    }
}

/// What native lowering produces: the MLIR module, the C runtime shim, and the arena size.
#[derive(Debug, Clone, PartialEq, Eq)]
pub struct Emission {
    pub mlir: String,
    pub runtime_c: String,
    pub arena_slots: u32,
}

// ---------------------------------------------------------------------------------------
// Effect syntax.
/// The term performs, handles or resumes somewhere, or holds a continuation.
pub open spec fn effect_syntax_m(t: TermM) -> bool
    decreases t, 0nat,
{
    match t {
        TermM::Perform(_, _) | TermM::Handle { .. } | TermM::Resume { .. } | TermM::Cont(_) => true,
        TermM::Var(_) | TermM::Unit | TermM::Zero => false,
        TermM::Succ(i) | TermM::ArrayLen(i) | TermM::Move(i) | TermM::Inplace(i) | TermM::Freeze(i)
        | TermM::Mark(_, i) => effect_syntax_m(*i),
        TermM::Array(vs) => terms_effect_m(vs),
        TermM::MkArray(a, b) | TermM::ArrayGet(a, b) | TermM::App(a, b) => effect_syntax_m(*a)
            || effect_syntax_m(*b),
        TermM::ArraySet(a, b, c) => effect_syntax_m(*a) || effect_syntax_m(*b) || effect_syntax_m(*c),
        TermM::CaseNat { scrutinee, zero_body, succ_body, .. } => effect_syntax_m(*scrutinee)
            || effect_syntax_m(*zero_body) || effect_syntax_m(*succ_body),
        TermM::Lam { body, .. } | TermM::Fix { body, .. } => effect_syntax_m(*body),
        TermM::Let { expr, body, .. } => effect_syntax_m(*expr) || effect_syntax_m(*body),
        TermM::FixGroup { bindings, .. } => bindings_effect_m(bindings),
    }
}

pub open spec fn terms_effect_m(s: Seq<TermM>) -> bool
    decreases s, 0nat,
{
    if s.len() == 0 {
        false
    } else {
        terms_effect_m(s.drop_last()) || effect_syntax_m(s.last())
    }
}

pub open spec fn bindings_effect_m(s: Seq<FixBindingM>) -> bool
    decreases s, 0nat,
{
    if s.len() == 0 {
        false
    } else {
        bindings_effect_m(s.drop_last()) || effect_syntax_m(*s.last().body)
    }
}

/// Whether `term` uses effects: native lowering handles such programs apart.
pub fn contains_effect_syntax(term: &Term) -> (r: bool)
    ensures
        r == effect_syntax_m(term@),
    decreases term, 0nat,
{
    match term {
        Term::Perform(_, _) | Term::Handle { .. } | Term::Resume { .. } | Term::Cont(_) => true,
        Term::Var(_) | Term::Unit | Term::Zero => false,
        Term::Succ(inner) => contains_effect_syntax(inner),
        Term::ArrayLen(inner) => contains_effect_syntax(inner),
        Term::Move(inner) => contains_effect_syntax(inner),
        Term::Inplace(inner) => contains_effect_syntax(inner),
        Term::Freeze(inner) => contains_effect_syntax(inner),
        Term::Mark(_, inner) => contains_effect_syntax(inner),
        Term::Array(values) => terms_contain_effect_syntax(values),
        Term::MkArray(a, b) | Term::ArrayGet(a, b) | Term::App(a, b) => {
            let x = contains_effect_syntax(a);
            let y = contains_effect_syntax(b);
            x || y
        },
        Term::ArraySet(a, b, c) => {
            let x = contains_effect_syntax(a);
            let y = contains_effect_syntax(b);
            let z = contains_effect_syntax(c);
            x || y || z
        },
        Term::CaseNat { scrutinee, zero_body, succ_body, .. } => {
            let x = contains_effect_syntax(scrutinee);
            let y = contains_effect_syntax(zero_body);
            let z = contains_effect_syntax(succ_body);
            x || y || z
        },
        Term::Lam { body, .. } => contains_effect_syntax(body),
        Term::Fix { body, .. } => contains_effect_syntax(body),
        Term::Let { expr, body, .. } => {
            let x = contains_effect_syntax(expr);
            let y = contains_effect_syntax(body);
            x || y
        },
        Term::FixGroup { bindings, .. } => bindings_contain_effect_syntax(bindings),
    }
}

fn terms_contain_effect_syntax(v: &Vec<Term>) -> (r: bool)
    ensures
        r == terms_effect_m(terms_view(v@)),
    decreases v, 1nat,
{
    let mut found = false;
    let mut i: usize = 0;
    proof {
        assert(terms_view(v@.subrange(0, 0)) =~= Seq::<TermM>::empty());
    }
    while i < v.len()
        invariant
            i <= v@.len(),
            found == terms_effect_m(terms_view(v@.subrange(0, i as int))),
        decreases v@.len() - i,
    {
        proof {
            assert(decreases_to!(v => v@));
            assert(decreases_to!(v@ => v@[i as int]));
        }
        let x = contains_effect_syntax(&v[i]);
        proof {
            let pre = v@.subrange(0, i as int);
            let next = v@.subrange(0, i + 1);
            assert(next.drop_last() =~= pre);
            assert(terms_view(next).drop_last() =~= terms_view(pre));
            assert(terms_view(next).last() == v@[i as int]@);
        }
        found = found || x;
        i += 1;
    }
    proof {
        assert(v@.subrange(0, v@.len() as int) =~= v@);
    }
    found
}

fn bindings_contain_effect_syntax(v: &Vec<FixBinding>) -> (r: bool)
    ensures
        r == bindings_effect_m(bindings_view(v@)),
    decreases v, 1nat,
{
    let mut found = false;
    let mut i: usize = 0;
    proof {
        assert(bindings_view(v@.subrange(0, 0)) =~= Seq::<FixBindingM>::empty());
    }
    while i < v.len()
        invariant
            i <= v@.len(),
            found == bindings_effect_m(bindings_view(v@.subrange(0, i as int))),
        decreases v@.len() - i,
    {
        proof {
            assert(decreases_to!(v => v@));
            assert(decreases_to!(v@ => v@[i as int]));
            assert(decreases_to!(v@[i as int] => v@[i as int].body));
        }
        let x = contains_effect_syntax(&v[i].body);
        proof {
            let pre = v@.subrange(0, i as int);
            let next = v@.subrange(0, i + 1);
            assert(next.drop_last() =~= pre);
            assert(bindings_view(next).drop_last() =~= bindings_view(pre));
            assert(bindings_view(next).last() == v@[i as int]@);
        }
        found = found || x;
        i += 1;
    }
    proof {
        assert(v@.subrange(0, v@.len() as int) =~= v@);
    }
    found
}

} // verus!
