use lib::check::check;
use lib::core_ast::{CoverageTag, Divergence, ExpectedOutcome, GeneratedTerm, RecursionTag, Term, Type};
use lib::gen::closure::{is_closed, term_obeys_continuation_usage};
use lib::gen::derive::derive_witness;
use lib::gen::generate::{
    analyze_facts, generated_case, generated_from_choices, generated_from_input, GenInput,
    MAX_CHOICES, SAMPLE_SIZE, STEP_BUDGET,
};
use lib::gen::sample::{
    aggregate_negative_fixtures, coverage_counts, distribution, fixed_seed_inputs,
    fixed_seed_sample, required_coverage,
};
use lib::grade::Bound;
use lib::interp::{classify_progress, eval, Outcome};

fn assert_acceptance(generated: &GeneratedTerm) {
    let rederived = derive_witness(&generated.term);
    assert_eq!(generated.witness, rederived, "stale witness for {}", generated.name);
    assert!(
        generated.witness.continuation_uses.resumed <= generated.witness.continuation_uses.introduced,
        "affine witness violation for {}",
        generated.name
    );
    assert!(is_closed(&generated.term), "{} is not closed", generated.name);
    assert!(term_obeys_continuation_usage(&generated.term), "{} misuses k", generated.name);

    let expect_div = generated.witness.divergence == Divergence::Div;
    let first = eval(generated.term.clone(), STEP_BUDGET, expect_div);
    let second = eval(generated.term.clone(), STEP_BUDGET, expect_div);
    assert_eq!(
        first.normalized_for_determinism(),
        second.normalized_for_determinism(),
        "determinism failed for {}",
        generated.name
    );

    if generated.expected == ExpectedOutcome::UnhandledOperation {
        assert_eq!(classify_progress(generated.term.clone()), Outcome::StuckUnhandledOperation);
        assert_eq!(first.outcome, Outcome::StuckUnhandledOperation);
        return;
    }

    let checked = match check(&generated.term) {
        Ok(checked) => checked,
        Err(err) => panic!("checker rejected safe generated term {}: {}", generated.name, err.to_text()),
    };
    assert_eq!(checked.witness(), &generated.witness, "checker/derive disagreement for {}", generated.name);

    let progress = classify_progress(generated.term.clone());
    assert!(matches!(progress, Outcome::Value | Outcome::Stepable), "progress failed for {}", generated.name);
    assert_ne!(first.outcome, Outcome::StuckDoubleResume, "{}", generated.name);
    assert_ne!(first.outcome, Outcome::StuckUnhandledOperation, "{}", generated.name);
    assert_ne!(
        first.outcome,
        Outcome::InternalMalformed,
        "{}: {}",
        generated.name,
        generated.term.to_text()
    );

    match generated.witness.divergence {
        Divergence::Terminates => assert_eq!(first.outcome, Outcome::Value, "{} did not terminate", generated.name),
        Divergence::Div => assert_eq!(first.outcome, Outcome::BudgetExhaustedDiv),
    }

    if let Bound::Finite(bound) = checked.witness().bound {
        assert!(first.max_frame <= bound, "max_frame above the certified bound for {}", generated.name);
    }
}

#[test]
fn generated_terms_satisfy_differential_acceptance_with_fixed_seed() {
    for generated in fixed_seed_sample() {
        assert_acceptance(&generated);
    }
}

#[test]
fn every_selector_gives_a_closed_disciplined_term() {
    for selector in 0..=255u8 {
        let generated = generated_case(selector);
        assert!(is_closed(&generated.term), "{} is not closed", generated.name);
        assert!(term_obeys_continuation_usage(&generated.term), "{} misuses k", generated.name);
        assert_eq!(generated.witness, derive_witness(&generated.term));
        assert_eq!(generated.facts, analyze_facts(&generated.term));
        let expect_div = generated.witness.divergence == Divergence::Div;
        let report = eval(generated.term.clone(), 4096, expect_div);
        assert_ne!(report.outcome, Outcome::StuckDoubleResume, "{}", generated.name);
    }
}

#[test]
fn fixed_seed_sample_has_required_coverage_and_distribution() {
    let sample = fixed_seed_sample();
    assert_eq!(sample.len(), SAMPLE_SIZE);
    let counts = coverage_counts(&sample);
    assert!(counts.all_required_present());
    for tag in required_coverage() {
        assert!(counts.get(tag) > 0, "missing coverage for {tag:?}");
    }
    assert!(counts.get(CoverageTag::LambdaApp) > 0);
    assert!(counts.get(CoverageTag::Array) > 0, "missing array/uniqueness coverage");
    for tag in [
        CoverageTag::RecordAggregate,
        CoverageTag::VariantAggregate,
        CoverageTag::DestructureConsume,
        CoverageTag::RecordFunctionalUpdate,
        CoverageTag::RecordInplaceUpdate,
        CoverageTag::ConstructorPatternDescent,
    ] {
        assert!(counts.get(tag) > 0, "missing aggregate generator coverage for {tag:?}");
    }

    let distribution = distribution(&sample);
    assert!(distribution.nested_handlers > 0);
    assert!(distribution.strict_rec_calls > 0);
    assert!(distribution.non_strict_rec_calls > 0);
    assert!(distribution.negative_unhandled > 0);
    let total: usize = distribution.depth_histogram.values().sum();
    assert_eq!(total, SAMPLE_SIZE);

    let mut frame_positive = 0;
    let mut tight_hits = 0;
    let mut multi_node_scc = false;
    for generated in &sample {
        let expect_div = generated.witness.divergence == Divergence::Div;
        let report = eval(generated.term.clone(), STEP_BUDGET, expect_div);
        if generated.expected == ExpectedOutcome::Safe {
            let checked = check(&generated.term).ok().expect("fixed sample checks");
            if checked.solver_stats().scc_sizes.iter().any(|size| *size >= 2) {
                multi_node_scc = true;
            }
        }
        if report.max_frame > 0 {
            frame_positive += 1;
        }
        if let Bound::Finite(bound) = generated.witness.bound {
            if report.max_frame == bound {
                tight_hits += 1;
            }
        }
    }
    assert!(frame_positive >= 100, "expected at least 100 frame-positive cases, got {frame_positive}");
    assert!(tight_hits > 0);
    assert!(multi_node_scc, "generated sample must include natural multi-node SCCs");
}

#[test]
fn aggregate_coverage_assertion_is_falsifiable_when_aggregate_cases_are_disabled() {
    let sample: Vec<_> = (0..SAMPLE_SIZE)
        .map(|case| generated_from_choices(vec![(case % 15) as u8, 3, 5, 8, 13]))
        .collect();
    let counts = coverage_counts(&sample);
    for tag in [
        CoverageTag::RecordAggregate,
        CoverageTag::VariantAggregate,
        CoverageTag::DestructureConsume,
        CoverageTag::RecordFunctionalUpdate,
        CoverageTag::RecordInplaceUpdate,
        CoverageTag::ConstructorPatternDescent,
    ] {
        assert_eq!(counts.get(tag), 0, "aggregate tag {tag:?} should disappear");
    }
}

#[test]
fn generated_witnesses_are_complete_and_shrinker_regenerates_them() {
    for selector in 0_u8..64 {
        let generated = generated_from_choices(vec![selector; MAX_CHOICES]);
        assert!(!generated.name.is_empty());
        assert_eq!(generated.witness, derive_witness(&generated.term));
        assert!(generated.witness.effects.is_subset(&generated.witness.effects));
        assert!(matches!(generated.witness.ty, Type::Unit | Type::Nat));
        assert!(generated.witness.continuation_uses.resumed <= generated.witness.continuation_uses.introduced);
    }
}

#[test]
fn nat_case_strict_descent_gives_structural_fix_finite_beta() {
    let fix = Term::Fix {
        func: "f".into(),
        param: "x".into(),
        param_ty: Type::Nat,
        body: Box::new(Term::CaseNat {
            scrutinee: Box::new(Term::var("x")),
            zero_body: Box::new(Term::zero()),
            succ_var: "pred".into(),
            succ_body: Box::new(Term::App(Box::new(Term::var("f")), Box::new(Term::var("pred")))),
        }),
        tag: RecursionTag::StructuralDescent,
    };
    let witness = derive_witness(&fix);
    assert_eq!(witness.bound, Bound::finite(1));
}

#[test]
fn non_strict_structural_fix_derives_omega_beta() {
    let fix = Term::Fix {
        func: "f".into(),
        param: "x".into(),
        param_ty: Type::Nat,
        body: Box::new(Term::App(Box::new(Term::var("f")), Box::new(Term::var("x")))),
        tag: RecursionTag::StructuralDescent,
    };
    let witness = derive_witness(&fix);
    assert_eq!(witness.bound, Bound::Omega);
    assert_eq!(witness.divergence, Divergence::Div);
}

#[test]
fn case_names_follow_the_selector() {
    assert_eq!(generated_case(0).name, "unit");
    assert_eq!(generated_case(1).name, "nat");
    assert_eq!(generated_case(8).name, "handle_resuming");
    assert_eq!(generated_case(13).name, "fix_group_measure");
    assert_eq!(generated_case(16).name, "negative_unhandled_perform");
    assert_eq!(generated_case(16).expected, ExpectedOutcome::UnhandledOperation);
    assert_eq!(generated_case(250).name, "record_construct_peek");
    assert_eq!(generated_case(255).name, "variant_structural_fold");
    assert_eq!(generated_from_choices(Vec::new()).name, "unit");
    assert_eq!(generated_from_input(GenInput::new(vec![7])).name, "div_fix");
}

#[test]
fn fixed_seed_inputs_start_with_forced_selectors() {
    let inputs = fixed_seed_inputs();
    assert_eq!(inputs.len(), SAMPLE_SIZE);
    let firsts: Vec<u8> = inputs.iter().take(10).map(|input| input.choices[0]).collect();
    assert_eq!(firsts, vec![250, 251, 252, 253, 254, 255, 246, 247, 8, 9]);
    assert!(inputs.iter().all(|input| input.choices.len() == MAX_CHOICES));
    assert_eq!(GenInput::new(Vec::new()).choices, vec![0]);
}

#[test]
fn facts_count_strict_and_non_strict_calls() {
    let strict = generated_case(5).term;
    let facts = analyze_facts(&strict);
    assert!(facts.depth >= 3);
    let fix = Term::Fix {
        func: "f".into(),
        param: "x".into(),
        param_ty: Type::Nat,
        body: Box::new(Term::App(Box::new(Term::var("f")), Box::new(Term::var("x")))),
        tag: RecursionTag::Div,
    };
    let facts = analyze_facts(&fix);
    assert_eq!(facts.strict_rec_calls, 0);
    assert_eq!(facts.non_strict_rec_calls, 1);
    assert!(!facts.nested_handlers);
}

#[test]
fn aggregate_negative_fixtures_name_their_diagnostics() {
    let fixtures = aggregate_negative_fixtures();
    assert_eq!(fixtures.len(), 5);
    assert_eq!(fixtures[0].expected_error, "heap-typed");
    assert!(fixtures[4].source.contains("bad(xs)"));
}
