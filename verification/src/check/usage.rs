//! Continuation usage of handler clauses: free mentions of the continuation variable and
//! the `resume` sites that use it directly.

use vstd::prelude::*;

use crate::check::typing::{
    bindings_free_count_m, bindings_resume_count_m, capped, classify_m, clauses_free_count_m,
    clauses_resume_count_m, free_count_m, resume_count_m,
};
use crate::core_ast::{
    binding_view, bindings_view, clause_view, clauses_view, group_binds, lemma_bindings_view,
    lemma_clauses_view, FixBinding, Handler, OpClause, Term, TermM,
};
use crate::text::{decimal, owned, push, str_eq};

verus! {

broadcast use vstd::std_specs::vec::group_vec_axioms, vstd::seq::group_seq_axioms;

fn sat(a: usize, b: usize) -> (r: usize)
    ensures
        r == capped((a + b) as nat),
{
    a.saturating_add(b)
}

proof fn lemma_capped_add(a: nat, b: nat)
    ensures
        capped(a + b) == capped((capped(a) + capped(b)) as nat),
{
}

pub(crate) fn group_binds_name(bindings: &Vec<FixBinding>, name: &str) -> (r: bool)
    ensures
        r == group_binds(bindings_view(bindings@), name@),
{
    proof {
        lemma_bindings_view(bindings@);
    }
    let mut i: usize = 0;
    while i < bindings.len()
        invariant
            i <= bindings@.len(),
            bindings_view(bindings@).len() == bindings@.len(),
            forall|j: int| 0 <= j < bindings@.len() ==> #[trigger] bindings_view(bindings@)[j]
                == binding_view(bindings@[j]),
            forall|j: int| 0 <= j < i ==> bindings@[j].func@ != name@,
        decreases bindings@.len() - i,
    {
        if str_eq(bindings[i].func.as_str(), name) {
            assert(bindings_view(bindings@)[i as int].func == name@);
            return true;
        }
        i += 1;
    }
    proof {
        assert forall|j: int| 0 <= j < bindings@.len() implies #[trigger] bindings_view(
            bindings@,
        )[j].func != name@ by {
            assert(bindings_view(bindings@)[j] == binding_view(bindings@[j]));
        }
    }
    false
}

/// The parts of a handler's model.
proof fn lemma_handler_view(h: Handler)
    ensures
        h@.return_var == h.return_var@,
        *h@.return_body == h.return_body@,
        h@.clauses == clauses_view(h.clauses@),
{
}

/// One more member extends both counts over a prefix of a `fix*` group by that member.
proof fn lemma_bindings_step(v: Seq<FixBinding>, i: int, x: Seq<char>)
    requires
        0 <= i < v.len(),
    ensures
        bindings_free_count_m(bindings_view(v.subrange(0, i + 1)), x) == bindings_free_count_m(
            bindings_view(v.subrange(0, i)),
            x,
        ) + if v[i].param@ != x {
            free_count_m(v[i].body@, x)
        } else {
            0
        },
        bindings_resume_count_m(bindings_view(v.subrange(0, i + 1)), x)
            == bindings_resume_count_m(bindings_view(v.subrange(0, i)), x) + if v[i].param@ != x {
            resume_count_m(v[i].body@, x)
        } else {
            0
        },
{
    let sub1 = v.subrange(0, i + 1);
    assert(sub1.drop_last() =~= v.subrange(0, i));
    assert(sub1.last() == v[i]);
    let bv = bindings_view(sub1);
    assert(bv == bindings_view(sub1.drop_last()).push(binding_view(sub1.last())));
    assert(bv.drop_last() =~= bindings_view(v.subrange(0, i)));
    assert(bv.last() == binding_view(v[i]));
}

/// One more clause extends both counts over a prefix of a handler's clauses by it.
proof fn lemma_clauses_step(v: Seq<OpClause>, i: int, x: Seq<char>)
    requires
        0 <= i < v.len(),
    ensures
        clauses_free_count_m(clauses_view(v.subrange(0, i + 1)), x) == clauses_free_count_m(
            clauses_view(v.subrange(0, i)),
            x,
        ) + if v[i].op_param@ != x && v[i].op_k@ != x {
            free_count_m(v[i].op_body@, x)
        } else {
            0
        },
        clauses_resume_count_m(clauses_view(v.subrange(0, i + 1)), x) == clauses_resume_count_m(
            clauses_view(v.subrange(0, i)),
            x,
        ) + if v[i].op_param@ != x && v[i].op_k@ != x {
            resume_count_m(v[i].op_body@, x)
        } else {
            0
        },
{
    let sub1 = v.subrange(0, i + 1);
    assert(sub1.drop_last() =~= v.subrange(0, i));
    assert(sub1.last() == v[i]);
    let cv = clauses_view(sub1);
    assert(cv == clauses_view(sub1.drop_last()).push(clause_view(sub1.last())));
    assert(cv.drop_last() =~= clauses_view(v.subrange(0, i)));
    assert(cv.last() == clause_view(v[i]));
}

/// Free occurrences of `name` in `term` (saturating).
pub fn free_var_count(term: &Term, name: &str) -> (r: usize)
    ensures
        r == capped(free_count_m(term@, name@)),
    decreases term, 0nat,
{
    let r = match term {
        Term::Var(var) => if str_eq(var.as_str(), name) {
            1
        } else {
            0
        },
        Term::Unit | Term::Zero | Term::Cont(_) | Term::Array(_) => 0,
        Term::Succ(inner) => free_var_count(inner, name),
        Term::Perform(_, inner) => free_var_count(inner, name),
        Term::ArrayLen(inner) => free_var_count(inner, name),
        Term::Move(inner) => free_var_count(inner, name),
        Term::Inplace(inner) => free_var_count(inner, name),
        Term::Freeze(inner) => free_var_count(inner, name),
        Term::Mark(_, inner) => free_var_count(inner, name),
        Term::MkArray(a, b) => {
            let x = free_var_count(a, name);
            let y = free_var_count(b, name);
            proof {
                lemma_capped_add(free_count_m(a@, name@), free_count_m(b@, name@));
            }
            sat(x, y)
        },
        Term::ArrayGet(a, b) => {
            let x = free_var_count(a, name);
            let y = free_var_count(b, name);
            proof {
                lemma_capped_add(free_count_m(a@, name@), free_count_m(b@, name@));
            }
            sat(x, y)
        },
        Term::ArraySet(a, b, c) => {
            let x = free_var_count(a, name);
            let y = free_var_count(b, name);
            let z = free_var_count(c, name);
            proof {
                lemma_capped_add(free_count_m(a@, name@), free_count_m(b@, name@));
                lemma_capped_add(
                    free_count_m(a@, name@) + free_count_m(b@, name@),
                    free_count_m(c@, name@),
                );
            }
            sat(sat(x, y), z)
        },
        Term::Lam { param, body, .. } => if str_eq(param.as_str(), name) {
            0
        } else {
            free_var_count(body, name)
        },
        Term::App(f, a) => {
            let x = free_var_count(f, name);
            let y = free_var_count(a, name);
            proof {
                lemma_capped_add(free_count_m(f@, name@), free_count_m(a@, name@));
            }
            sat(x, y)
        },
        Term::Resume { kont, arg } => {
            let x = free_var_count(kont, name);
            let y = free_var_count(arg, name);
            proof {
                lemma_capped_add(free_count_m(kont@, name@), free_count_m(arg@, name@));
            }
            sat(x, y)
        },
        Term::Let { var, expr, body } => {
            let x = free_var_count(expr, name);
            let y = if str_eq(var.as_str(), name) {
                0
            } else {
                free_var_count(body, name)
            };
            let ghost yb: nat = if var@ != name@ {
                free_count_m(body@, name@)
            } else {
                0
            };
            proof {
                lemma_capped_add(free_count_m(expr@, name@), yb);
            }
            sat(x, y)
        },
        Term::Fix { func, param, body, .. } => if str_eq(func.as_str(), name) || str_eq(
            param.as_str(),
            name,
        ) {
            0
        } else {
            free_var_count(body, name)
        },
        Term::FixGroup { bindings, .. } => if group_binds_name(bindings, name) {
            0
        } else {
            bindings_free_count(bindings, name)
        },
        Term::CaseNat { scrutinee, zero_body, succ_var, succ_body } => {
            let x = free_var_count(scrutinee, name);
            let y = free_var_count(zero_body, name);
            let z = if str_eq(succ_var.as_str(), name) {
                0
            } else {
                free_var_count(succ_body, name)
            };
            let ghost zb: nat = if succ_var@ != name@ {
                free_count_m(succ_body@, name@)
            } else {
                0
            };
            proof {
                lemma_capped_add(free_count_m(scrutinee@, name@), free_count_m(zero_body@, name@));
                lemma_capped_add(
                    free_count_m(scrutinee@, name@) + free_count_m(zero_body@, name@),
                    zb,
                );
            }
            sat(sat(x, y), z)
        },
        Term::Handle { body, handler } => {
            proof {
                lemma_handler_view(*handler);
            }
            let x = free_var_count(body, name);
            let y = if str_eq(handler.return_var.as_str(), name) {
                0
            } else {
                free_var_count(&handler.return_body, name)
            };
            let z = clauses_free_count(&handler.clauses, name);
            let ghost yb: nat = if handler.return_var@ != name@ {
                free_count_m(handler.return_body@, name@)
            } else {
                0
            };
            let ghost zb = clauses_free_count_m(clauses_view(handler.clauses@), name@);
            proof {
                lemma_capped_add(free_count_m(body@, name@), yb);
                lemma_capped_add(free_count_m(body@, name@) + yb, zb);
            }
            sat(sat(x, y), z)
        },
    };
    r
}

fn bindings_free_count(v: &Vec<FixBinding>, name: &str) -> (r: usize)
    ensures
        r == capped(bindings_free_count_m(bindings_view(v@), name@)),
    decreases v, 1nat,
{
    let mut acc: usize = 0;
    let mut i: usize = 0;
    while i < v.len()
        invariant
            i <= v@.len(),
            acc == capped(bindings_free_count_m(bindings_view(v@.subrange(0, i as int)), name@)),
        decreases v@.len() - i,
    {
        proof {
            assert(decreases_to!(v => v@));
            assert(decreases_to!(v@ => v@[i as int]));
        }
        let b = &v[i];
        let here = if str_eq(b.param.as_str(), name) {
            0
        } else {
            free_var_count(&b.body, name)
        };
        proof {
            lemma_bindings_step(v@, i as int, name@);
            let hb: nat = if b.param@ != name@ {
                free_count_m(b.body@, name@)
            } else {
                0
            };
            lemma_capped_add(bindings_free_count_m(bindings_view(v@.subrange(0, i as int)), name@), hb);
        }
        acc = sat(acc, here);
        i += 1;
    }
    assert(v@.subrange(0, v@.len() as int) =~= v@);
    acc
}

fn clauses_free_count(v: &Vec<OpClause>, name: &str) -> (r: usize)
    ensures
        r == capped(clauses_free_count_m(clauses_view(v@), name@)),
    decreases v, 1nat,
{
    let mut acc: usize = 0;
    let mut i: usize = 0;
    while i < v.len()
        invariant
            i <= v@.len(),
            acc == capped(clauses_free_count_m(clauses_view(v@.subrange(0, i as int)), name@)),
        decreases v@.len() - i,
    {
        proof {
            assert(decreases_to!(v => v@));
            assert(decreases_to!(v@ => v@[i as int]));
        }
        let c = &v[i];
        let here = if str_eq(c.op_param.as_str(), name) || str_eq(c.op_k.as_str(), name) {
            0
        } else {
            free_var_count(&c.op_body, name)
        };
        proof {
            lemma_clauses_step(v@, i as int, name@);
            let hb: nat = if c.op_param@ != name@ && c.op_k@ != name@ {
                free_count_m(c.op_body@, name@)
            } else {
                0
            };
            lemma_capped_add(clauses_free_count_m(clauses_view(v@.subrange(0, i as int)), name@), hb);
        }
        acc = sat(acc, here);
        i += 1;
    }
    assert(v@.subrange(0, v@.len() as int) =~= v@);
    acc
}

/// `resume` sites whose continuation is exactly the variable `name` (saturating).
pub fn direct_resume_count(term: &Term, name: &str) -> (r: usize)
    ensures
        r == capped(resume_count_m(term@, name@)),
    decreases term, 0nat,
{
    match term {
        Term::Resume { kont, arg } => {
            let here: usize = match &**kont {
                Term::Var(var) => if str_eq(var.as_str(), name) {
                    1
                } else {
                    0
                },
                _ => 0,
            };
            proof {
                if here == 1 {
                    assert(kont@ == TermM::Var(name@));
                } else {
                    assert(kont@ != TermM::Var(name@));
                }
            }
            let nested = if here == 0 {
                direct_resume_count(kont, name)
            } else {
                0
            };
            let rest = direct_resume_count(arg, name);
            let ghost nb: nat = if here == 0 {
                resume_count_m(kont@, name@)
            } else {
                0
            };
            proof {
                lemma_capped_add(here as nat, nb);
                lemma_capped_add(here as nat + nb, resume_count_m(arg@, name@));
            }
            sat(sat(here, nested), rest)
        },
        Term::Var(_) | Term::Unit | Term::Zero | Term::Cont(_) | Term::Array(_) => 0,
        Term::Succ(inner) => direct_resume_count(inner, name),
        Term::Perform(_, inner) => direct_resume_count(inner, name),
        Term::ArrayLen(inner) => direct_resume_count(inner, name),
        Term::Move(inner) => direct_resume_count(inner, name),
        Term::Inplace(inner) => direct_resume_count(inner, name),
        Term::Freeze(inner) => direct_resume_count(inner, name),
        Term::Mark(_, inner) => direct_resume_count(inner, name),
        Term::MkArray(a, b) => {
            let x = direct_resume_count(a, name);
            let y = direct_resume_count(b, name);
            proof {
                lemma_capped_add(resume_count_m(a@, name@), resume_count_m(b@, name@));
            }
            sat(x, y)
        },
        Term::ArrayGet(a, b) => {
            let x = direct_resume_count(a, name);
            let y = direct_resume_count(b, name);
            proof {
                lemma_capped_add(resume_count_m(a@, name@), resume_count_m(b@, name@));
            }
            sat(x, y)
        },
        Term::ArraySet(a, b, c) => {
            let x = direct_resume_count(a, name);
            let y = direct_resume_count(b, name);
            let z = direct_resume_count(c, name);
            proof {
                lemma_capped_add(resume_count_m(a@, name@), resume_count_m(b@, name@));
                lemma_capped_add(
                    resume_count_m(a@, name@) + resume_count_m(b@, name@),
                    resume_count_m(c@, name@),
                );
            }
            sat(sat(x, y), z)
        },
        Term::Lam { param, body, .. } => if str_eq(param.as_str(), name) {
            0
        } else {
            direct_resume_count(body, name)
        },
        Term::App(f, a) => {
            let x = direct_resume_count(f, name);
            let y = direct_resume_count(a, name);
            proof {
                lemma_capped_add(resume_count_m(f@, name@), resume_count_m(a@, name@));
            }
            sat(x, y)
        },
        Term::Let { var, expr, body } => {
            let x = direct_resume_count(expr, name);
            let y = if str_eq(var.as_str(), name) {
                0
            } else {
                direct_resume_count(body, name)
            };
            let ghost yb: nat = if var@ != name@ {
                resume_count_m(body@, name@)
            } else {
                0
            };
            proof {
                lemma_capped_add(resume_count_m(expr@, name@), yb);
            }
            sat(x, y)
        },
        Term::Fix { func, param, body, .. } => if str_eq(func.as_str(), name) || str_eq(
            param.as_str(),
            name,
        ) {
            0
        } else {
            direct_resume_count(body, name)
        },
        Term::FixGroup { bindings, .. } => if group_binds_name(bindings, name) {
            0
        } else {
            bindings_resume_count(bindings, name)
        },
        Term::CaseNat { scrutinee, zero_body, succ_var, succ_body } => {
            let x = direct_resume_count(scrutinee, name);
            let y = direct_resume_count(zero_body, name);
            let z = if str_eq(succ_var.as_str(), name) {
                0
            } else {
                direct_resume_count(succ_body, name)
            };
            let ghost zb: nat = if succ_var@ != name@ {
                resume_count_m(succ_body@, name@)
            } else {
                0
            };
            proof {
                lemma_capped_add(
                    resume_count_m(scrutinee@, name@),
                    resume_count_m(zero_body@, name@),
                );
                lemma_capped_add(
                    resume_count_m(scrutinee@, name@) + resume_count_m(zero_body@, name@),
                    zb,
                );
            }
            sat(sat(x, y), z)
        },
        Term::Handle { body, handler } => {
            proof {
                lemma_handler_view(*handler);
            }
            let x = direct_resume_count(body, name);
            let y = if str_eq(handler.return_var.as_str(), name) {
                0
            } else {
                direct_resume_count(&handler.return_body, name)
            };
            let z = clauses_resume_count(&handler.clauses, name);
            let ghost yb: nat = if handler.return_var@ != name@ {
                resume_count_m(handler.return_body@, name@)
            } else {
                0
            };
            let ghost zb = clauses_resume_count_m(clauses_view(handler.clauses@), name@);
            proof {
                lemma_capped_add(resume_count_m(body@, name@), yb);
                lemma_capped_add(resume_count_m(body@, name@) + yb, zb);
            }
            sat(sat(x, y), z)
        },
    }
}

fn bindings_resume_count(v: &Vec<FixBinding>, name: &str) -> (r: usize)
    ensures
        r == capped(bindings_resume_count_m(bindings_view(v@), name@)),
    decreases v, 1nat,
{
    let mut acc: usize = 0;
    let mut i: usize = 0;
    while i < v.len()
        invariant
            i <= v@.len(),
            acc == capped(bindings_resume_count_m(bindings_view(v@.subrange(0, i as int)), name@)),
        decreases v@.len() - i,
    {
        proof {
            assert(decreases_to!(v => v@));
            assert(decreases_to!(v@ => v@[i as int]));
        }
        let b = &v[i];
        let here = if str_eq(b.param.as_str(), name) {
            0
        } else {
            direct_resume_count(&b.body, name)
        };
        proof {
            lemma_bindings_step(v@, i as int, name@);
            let hb: nat = if b.param@ != name@ {
                resume_count_m(b.body@, name@)
            } else {
                0
            };
            lemma_capped_add(
                bindings_resume_count_m(bindings_view(v@.subrange(0, i as int)), name@),
                hb,
            );
        }
        acc = sat(acc, here);
        i += 1;
    }
    assert(v@.subrange(0, v@.len() as int) =~= v@);
    acc
}

fn clauses_resume_count(v: &Vec<OpClause>, name: &str) -> (r: usize)
    ensures
        r == capped(clauses_resume_count_m(clauses_view(v@), name@)),
    decreases v, 1nat,
{
    let mut acc: usize = 0;
    let mut i: usize = 0;
    while i < v.len()
        invariant
            i <= v@.len(),
            acc == capped(clauses_resume_count_m(clauses_view(v@.subrange(0, i as int)), name@)),
        decreases v@.len() - i,
    {
        proof {
            assert(decreases_to!(v => v@));
            assert(decreases_to!(v@ => v@[i as int]));
        }
        let c = &v[i];
        let here = if str_eq(c.op_param.as_str(), name) || str_eq(c.op_k.as_str(), name) {
            0
        } else {
            direct_resume_count(&c.op_body, name)
        };
        proof {
            lemma_clauses_step(v@, i as int, name@);
            let hb: nat = if c.op_param@ != name@ && c.op_k@ != name@ {
                resume_count_m(c.op_body@, name@)
            } else {
                0
            };
            lemma_capped_add(
                clauses_resume_count_m(clauses_view(v@.subrange(0, i as int)), name@),
                hb,
            );
        }
        acc = sat(acc, here);
        i += 1;
    }
    assert(v@.subrange(0, v@.len() as int) =~= v@);
    acc
}

/// How a handler clause uses its continuation `k`: `Ok(true)` when it is resumed exactly
/// once, `Ok(false)` when it is never mentioned, and otherwise the reason for rejection.
pub fn classify_handler_k_usage(term: &Term, k: &str) -> (r: Result<bool, String>)
    ensures
        match classify_m(term@, k@) {
            Ok(b) => r == Ok::<bool, String>(b),
            Err(m) => r matches Err(s) && s@ == m,
        },
{
    reveal(classify_m);
    let mentions = free_var_count(term, k);
    let direct = direct_resume_count(term, k);
    if mentions == 0 && direct == 0 {
        Ok(false)
    } else if mentions == 1 && direct == 1 {
        Ok(true)
    } else if mentions == 0 {
        Err(owned("resume count impossible without k mention"))
    } else if direct == 0 {
        let mut msg = owned("extra-mention: `");
        push(&mut msg, k);
        push(&mut msg, "` appears free but is never directly resumed");
        Err(msg)
    } else {
        let mut msg = owned("one-resume-required: `");
        push(&mut msg, k);
        push(&mut msg, "` has ");
        push(&mut msg, decimal(mentions as u64).as_str());
        push(&mut msg, " free mentions and ");
        push(&mut msg, decimal(direct as u64).as_str());
        push(&mut msg, " direct resumes");
        Err(msg)
    }
}

} // verus!
