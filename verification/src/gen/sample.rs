//! The fixed-seed sample of generated terms and the statistics taken over it.

use std::collections::BTreeMap;

use vstd::prelude::*;

use crate::core_ast::{tag_index, CoverageTag, ExpectedOutcome, GeneratedTerm};
use crate::gen::generate::{
    first_choice, generated_from_input, generated_ok, GenInput, FIXED_SEED, MAX_CHOICES,
    SAMPLE_SIZE,
};

verus! {

broadcast use vstd::std_specs::vec::group_vec_axioms, vstd::seq::group_seq_axioms;

// ---------------------------------------------------------------------------------------
// The fixed-seed inputs.
/// One step of the linear congruential generator that fills the sampled inputs.
pub open spec fn lcg_next(x: u64) -> u64 {
    vstd::wrapping::u64_specs::wrapping_add(
        vstd::wrapping::u64_specs::wrapping_mul(x, 6364136223846793005u64),
        1u64,
    )
}

/// The generator's state after `k` steps from the fixed seed.
pub open spec fn lcg(k: nat) -> u64
    decreases k,
{
    if k == 0 {
        FIXED_SEED
    } else {
        lcg_next(lcg((k - 1) as nat))
    }
}

/// The selector byte of sampled input `case`: the first eight inputs force the aggregate
/// and task cases, the others cycle through the seventeen ordinary ones.
pub open spec fn forced_first(case: nat) -> u8 {
    if case < 6 {
        (250 + case) as u8
    } else if case < 8 {
        (240 + case) as u8
    } else {
        (case % 17) as u8
    }
}

/// Byte `j` (from one on) of sampled input `case`: the high half of the generator state,
/// truncated to a byte.
pub open spec fn sampled_byte(case: nat, j: nat) -> u8 {
    (lcg((case * 79 + j) as nat) >> 32u64) as u8
}

/// The sampled inputs: `SAMPLE_SIZE` inputs of `MAX_CHOICES` bytes each.
pub open spec fn sampled_inputs_ok(r: Seq<GenInput>) -> bool {
    &&& r.len() == SAMPLE_SIZE
    &&& forall|c: int|
        0 <= c < r.len() ==> {
            &&& (#[trigger] r[c]).choices@.len() == MAX_CHOICES
            &&& r[c].choices@[0] == forced_first(c as nat)
            &&& forall|j: int| 1 <= j < MAX_CHOICES ==> r[c].choices@[j] == sampled_byte(c as nat, j as nat)
        }
}

/// The inputs of the fixed-seed sample.
pub fn fixed_seed_inputs() -> (r: Vec<GenInput>)
    ensures
        sampled_inputs_ok(r@),
{
    let mut state: u64 = FIXED_SEED;
    let mut out: Vec<GenInput> = Vec::new();
    let mut case: usize = 0;
    while case < SAMPLE_SIZE
        invariant
            case <= SAMPLE_SIZE,
            out@.len() == case,
            state == lcg((case * 79) as nat),
            forall|c: int|
                0 <= c < case ==> {
                    &&& (#[trigger] out@[c]).choices@.len() == MAX_CHOICES
                    &&& out@[c].choices@[0] == forced_first(c as nat)
                    &&& forall|j: int|
                        1 <= j < MAX_CHOICES ==> out@[c].choices@[j] == sampled_byte(
                            c as nat,
                            j as nat,
                        )
                },
        decreases SAMPLE_SIZE - case,
    {
        let first: u8 = if case < 6 {
            (250 + case) as u8
        } else if case < 8 {
            (240 + case) as u8
        } else {
            (case % 17) as u8
        };
        let mut choices: Vec<u8> = Vec::new();
        choices.push(first);
        let mut j: usize = 1;
        while j < MAX_CHOICES
            invariant
                1 <= j <= MAX_CHOICES,
                case < SAMPLE_SIZE,
                choices@.len() == j,
                choices@[0] == first,
                state == lcg((case * 79 + j - 1) as nat),
                forall|i: int| 1 <= i < j ==> choices@[i] == sampled_byte(case as nat, i as nat),
            decreases MAX_CHOICES - j,
        {
            state = state.wrapping_mul(6364136223846793005).wrapping_add(1);
            proof {
                assert(lcg((case * 79 + j) as nat) == lcg_next(lcg((case * 79 + j - 1) as nat)));
            }
            choices.push((state >> 32) as u8);
            j += 1;
        }
        out.push(GenInput::new(choices));
        case += 1;
    }
    out
}

fn copy_bytes(v: &Vec<u8>) -> (r: Vec<u8>)
    ensures
        r@ == v@,
{
    let mut out: Vec<u8> = Vec::new();
    let mut i: usize = 0;
    while i < v.len()
        invariant
            i <= v@.len(),
            out@ == v@.subrange(0, i as int),
        decreases v@.len() - i,
    {
        out.push(v[i]);
        i += 1;
        assert(out@ =~= v@.subrange(0, i as int));
    }
    assert(out@ =~= v@);
    out
}

/// The generated terms of the fixed-seed sample, one per input, in input order.
pub fn fixed_seed_sample() -> (r: Vec<GeneratedTerm>)
    ensures
        r@.len() == SAMPLE_SIZE,
        forall|c: int| 0 <= c < r@.len() ==> generated_ok(#[trigger] r@[c], forced_first(c as nat)),
{
    let inputs = fixed_seed_inputs();
    let mut out: Vec<GeneratedTerm> = Vec::new();
    let mut i: usize = 0;
    while i < inputs.len()
        invariant
            i <= inputs@.len(),
            sampled_inputs_ok(inputs@),
            out@.len() == i,
            forall|c: int| 0 <= c < i ==> generated_ok(#[trigger] out@[c], forced_first(c as nat)),
        decreases inputs@.len() - i,
    {
        let input = GenInput { choices: copy_bytes(&inputs[i].choices) };
        assert(inputs@[i as int].choices@.len() == MAX_CHOICES);
        let generated = generated_from_input(input);
        out.push(generated);
        i += 1;
    }
    out
}

// ---------------------------------------------------------------------------------------
// Coverage counts.
/// The number of terms in `s` whose witness covers `tag`.
pub open spec fn tag_count(s: Seq<GeneratedTerm>, tag: CoverageTag) -> nat
    decreases s.len(),
{
    if s.len() == 0 {
        0
    } else {
        tag_count(s.drop_last(), tag) + if s.last().witness@.coverage.contains(tag) {
            1nat
        } else {
            0nat
        }
    }
}

/// The tag at a position of a coverage set.
fn tag_at(i: usize) -> (r: CoverageTag)
    requires
        i < 14,
    ensures
        tag_index(r) == i,
{
    if i == 0 {
        CoverageTag::LambdaApp
    } else if i == 1 {
        CoverageTag::Let
    } else if i == 2 {
        CoverageTag::FixStructural
    } else if i == 3 {
        CoverageTag::FixMeasure
    } else if i == 4 {
        CoverageTag::Perform
    } else if i == 5 {
        CoverageTag::HandleResuming
    } else if i == 6 {
        CoverageTag::HandleDropped
    } else if i == 7 {
        CoverageTag::Array
    } else if i == 8 {
        CoverageTag::RecordAggregate
    } else if i == 9 {
        CoverageTag::VariantAggregate
    } else if i == 10 {
        CoverageTag::DestructureConsume
    } else if i == 11 {
        CoverageTag::RecordFunctionalUpdate
    } else if i == 12 {
        CoverageTag::RecordInplaceUpdate
    } else {
        CoverageTag::ConstructorPatternDescent
    }
}

proof fn lemma_tag_index(a: CoverageTag, b: CoverageTag)
    ensures
        tag_index(a) < 14,
        tag_index(a) == tag_index(b) ==> a == b,
{
}

/// The tags that a sample must cover.
pub open spec fn required(tag: CoverageTag) -> bool {
    ||| tag == CoverageTag::LambdaApp
    ||| tag == CoverageTag::Let
    ||| tag == CoverageTag::FixStructural
    ||| tag == CoverageTag::FixMeasure
    ||| tag == CoverageTag::Perform
    ||| tag == CoverageTag::HandleResuming
    ||| tag == CoverageTag::HandleDropped
}

/// The tags that a sample must cover, in a fixed order.
pub fn required_coverage() -> (r: Vec<CoverageTag>)
    ensures
        r@ == seq![
            CoverageTag::LambdaApp,
            CoverageTag::Let,
            CoverageTag::FixStructural,
            CoverageTag::FixMeasure,
            CoverageTag::Perform,
            CoverageTag::HandleResuming,
            CoverageTag::HandleDropped,
        ],
{
    vec![
        CoverageTag::LambdaApp,
        CoverageTag::Let,
        CoverageTag::FixStructural,
        CoverageTag::FixMeasure,
        CoverageTag::Perform,
        CoverageTag::HandleResuming,
        CoverageTag::HandleDropped,
    ]
}

/// How many times each coverage tag was seen.
#[derive(Debug, Clone, PartialEq, Eq)]
pub struct BTreeMapCounts {
    counts: Vec<usize>,
}

impl BTreeMapCounts {
    /// The count of `tag`.
    pub closed spec fn count(&self, tag: CoverageTag) -> nat {
        self.counts@[tag_index(tag) as int] as nat
    }

    pub closed spec fn wf(&self) -> bool {
        self.counts@.len() == 14
    }

    /// No tag seen yet.
    pub fn new() -> (r: Self)
        ensures
            r.wf(),
            forall|tag: CoverageTag| #[trigger] r.count(tag) == 0,
    {
        let mut counts: Vec<usize> = Vec::new();
        let mut i: usize = 0;
        while i < 14
            invariant
                i <= 14,
                counts@.len() == i,
                forall|j: int| 0 <= j < i ==> counts@[j] == 0,
            decreases 14 - i,
        {
            counts.push(0);
            i += 1;
        }
        let r = Self { counts };
        proof {
            assert forall|tag: CoverageTag| #[trigger] r.count(tag) == 0 by {
                lemma_tag_index(tag, tag);
            }
        }
        r
    }

    /// One more sighting of `tag`.
    pub fn increment(&mut self, tag: CoverageTag)
        requires
            old(self).wf(),
            old(self).count(tag) < usize::MAX,
        ensures
            final(self).wf(),
            final(self).count(tag) == old(self).count(tag) + 1,
            forall|t: CoverageTag| t != tag ==> #[trigger] final(self).count(t) == old(self).count(t),
    {
        proof {
            lemma_tag_index(tag, tag);
        }
        let i = crate::core_ast::coverage_position(tag);
        let v = self.counts[i];
        self.counts.set(i, v + 1);
        proof {
            assert forall|t: CoverageTag| t != tag implies #[trigger] self.count(t) == old(self).count(t) by {
                lemma_tag_index(t, tag);
            }
        }
    }

    /// The count of `tag`.
    pub fn get(&self, tag: CoverageTag) -> (r: usize)
        requires
            self.wf(),
        ensures
            r == self.count(tag),
    {
        proof {
            lemma_tag_index(tag, tag);
        }
        self.counts[crate::core_ast::coverage_position(tag)]
    }

    /// Whether every required tag was seen.
    pub fn all_required_present(&self) -> (r: bool)
        requires
            self.wf(),
        ensures
            r == (forall|tag: CoverageTag| required(tag) ==> #[trigger] self.count(tag) > 0),
    {
        let tags = required_coverage();
        let mut i: usize = 0;
        while i < tags.len()
            invariant
                self.wf(),
                i <= tags@.len(),
                tags@ == seq![
                    CoverageTag::LambdaApp,
                    CoverageTag::Let,
                    CoverageTag::FixStructural,
                    CoverageTag::FixMeasure,
                    CoverageTag::Perform,
                    CoverageTag::HandleResuming,
                    CoverageTag::HandleDropped,
                ],
                forall|j: int| 0 <= j < i ==> #[trigger] self.count(tags@[j]) > 0,
            decreases tags@.len() - i,
        {
            if self.get(tags[i]) == 0 {
                return false;
            }
            i += 1;
        }
        proof {
            assert forall|tag: CoverageTag| required(tag) implies #[trigger] self.count(tag) > 0 by {
                if tag == CoverageTag::LambdaApp {
                    assert(self.count(tags@[0]) > 0);
                } else if tag == CoverageTag::Let {
                    assert(self.count(tags@[1]) > 0);
                } else if tag == CoverageTag::FixStructural {
                    assert(self.count(tags@[2]) > 0);
                } else if tag == CoverageTag::FixMeasure {
                    assert(self.count(tags@[3]) > 0);
                } else if tag == CoverageTag::Perform {
                    assert(self.count(tags@[4]) > 0);
                } else if tag == CoverageTag::HandleResuming {
                    assert(self.count(tags@[5]) > 0);
                } else {
                    assert(self.count(tags@[6]) > 0);
                }
            }
        }
        true
    }
}

/// How many terms of `sample` cover each tag.
pub fn coverage_counts(sample: &[GeneratedTerm]) -> (r: BTreeMapCounts)
    ensures
        r.wf(),
        forall|tag: CoverageTag| #[trigger] r.count(tag) == tag_count(sample@, tag),
{
    let mut counts = BTreeMapCounts::new();
    let mut i: usize = 0;
    let n = sample.len();
    proof {
        assert(sample@.subrange(0, 0) =~= Seq::<GeneratedTerm>::empty());
    }
    while i < n
        invariant
            n == sample@.len(),
            i <= sample@.len(),
            counts.wf(),
            forall|tag: CoverageTag| #[trigger] counts.count(tag) == tag_count(
                sample@.subrange(0, i as int),
                tag,
            ),
            forall|tag: CoverageTag| #[trigger] tag_count(sample@.subrange(0, i as int), tag) <= i,
        decreases sample@.len() - i,
    {
        let ghost before = counts;
        let ghost prefix = sample@.subrange(0, i as int);
        let ghost next = sample@.subrange(0, i as int + 1);
        proof {
            assert(next.drop_last() =~= prefix);
            assert(next.last() == sample@[i as int]);
            assert(next.len() == i + 1);
        }
        let coverage = sample[i].witness.coverage;
        let mut j: usize = 0;
        while j < 14
            invariant
                j <= 14,
                i < sample@.len(),
                n == sample@.len(),
                counts.wf(),
                coverage@ == sample@[i as int].witness@.coverage,
                next.drop_last() == prefix,
                next.last() == sample@[i as int],
                next.len() == i + 1,
                forall|tag: CoverageTag| #[trigger] tag_count(prefix, tag) <= i,
                forall|tag: CoverageTag|
                    #[trigger] counts.count(tag) == if tag_index(tag) < j {
                        tag_count(next, tag)
                    } else {
                        tag_count(prefix, tag)
                    },
            decreases 14 - j,
        {
            let tag = tag_at(j);
            let ghost c0 = counts;
            proof {
                assert(tag_count(next, tag) == tag_count(prefix, tag) + if coverage@.contains(tag) {
                    1nat
                } else {
                    0nat
                });
                assert(counts.count(tag) == tag_count(prefix, tag));
                assert(tag_count(prefix, tag) <= i);
            }
            if coverage.contains(tag) {
                counts.increment(tag);
            }
            proof {
                assert forall|t: CoverageTag| #[trigger] counts.count(t) == if tag_index(t) < j + 1 {
                    tag_count(next, t)
                } else {
                    tag_count(prefix, t)
                } by {
                    lemma_tag_index(t, tag);
                    assert(c0.count(t) == if tag_index(t) < j {
                        tag_count(next, t)
                    } else {
                        tag_count(prefix, t)
                    });
                }
            }
            j += 1;
        }
        proof {
            assert forall|tag: CoverageTag| #[trigger] counts.count(tag) == tag_count(next, tag) by {
                lemma_tag_index(tag, tag);
            }
            assert forall|tag: CoverageTag| #[trigger] tag_count(next, tag) <= i + 1 by {
                assert(tag_count(prefix, tag) <= i);
            }
        }
        i += 1;
    }
    proof {
        assert(sample@.subrange(0, sample@.len() as int) =~= sample@);
    }
    counts
}

// ---------------------------------------------------------------------------------------
// Distribution.
/// Statistics of a sample: a histogram of term heights, the terms with a nested handler,
/// the recursive calls of each kind, and the negative cases.
#[derive(Debug, Clone, PartialEq, Eq, Default)]
pub struct Distribution {
    pub depth_histogram: BTreeMap<usize, usize>,
    pub nested_handlers: usize,
    pub strict_rec_calls: usize,
    pub non_strict_rec_calls: usize,
    pub negative_unhandled: usize,
}

/// The histogram of term heights over `s`.
pub open spec fn depth_histogram_m(s: Seq<GeneratedTerm>) -> Map<usize, usize>
    decreases s.len(),
{
    if s.len() == 0 {
        Map::empty()
    } else {
        let h = depth_histogram_m(s.drop_last());
        let d = s.last().facts.depth;
        h.insert(
            d,
            if h.contains_key(d) {
                (h[d] + 1) as usize
            } else {
                1usize
            },
        )
    }
}

/// The number of terms of `s` with a nested handler.
pub open spec fn nested_count(s: Seq<GeneratedTerm>) -> nat
    decreases s.len(),
{
    if s.len() == 0 {
        0
    } else {
        nested_count(s.drop_last()) + if s.last().facts.nested_handlers {
            1nat
        } else {
            0nat
        }
    }
}

/// The strict recursive calls over `s`.
pub open spec fn strict_sum(s: Seq<GeneratedTerm>) -> nat
    decreases s.len(),
{
    if s.len() == 0 {
        0
    } else {
        strict_sum(s.drop_last()) + s.last().facts.strict_rec_calls as nat
    }
}

/// The non-strict recursive calls over `s`.
pub open spec fn non_strict_sum(s: Seq<GeneratedTerm>) -> nat
    decreases s.len(),
{
    if s.len() == 0 {
        0
    } else {
        non_strict_sum(s.drop_last()) + s.last().facts.non_strict_rec_calls as nat
    }
}

/// The negative cases of `s`.
pub open spec fn negative_count(s: Seq<GeneratedTerm>) -> nat
    decreases s.len(),
{
    if s.len() == 0 {
        0
    } else {
        negative_count(s.drop_last()) + if s.last().expected
            == ExpectedOutcome::UnhandledOperation {
            1nat
        } else {
            0nat
        }
    }
}

proof fn lemma_histogram_bound(s: Seq<GeneratedTerm>, d: usize)
    ensures
        depth_histogram_m(s).contains_key(d) ==> depth_histogram_m(s)[d] <= s.len(),
    decreases s.len(),
{
    if s.len() > 0 {
        lemma_histogram_bound(s.drop_last(), d);
    }
}

proof fn lemma_counts_bounded(s: Seq<GeneratedTerm>)
    ensures
        nested_count(s) <= s.len(),
        negative_count(s) <= s.len(),
    decreases s.len(),
{
    if s.len() > 0 {
        lemma_counts_bounded(s.drop_last());
    }
}

/// The statistics of `sample`; the sums of recursive calls must fit in a `usize`.
pub fn distribution(sample: &[GeneratedTerm]) -> (r: Distribution)
    requires
        strict_sum(sample@) <= usize::MAX,
        non_strict_sum(sample@) <= usize::MAX,
    ensures
        r.depth_histogram@ == depth_histogram_m(sample@),
        r.nested_handlers == nested_count(sample@),
        r.strict_rec_calls == strict_sum(sample@),
        r.non_strict_rec_calls == non_strict_sum(sample@),
        r.negative_unhandled == negative_count(sample@),
{
    broadcast use vstd::std_specs::btree::group_btree_axioms;

    proof {
        lemma_usize_keys();
    }

    let mut histogram: BTreeMap<usize, usize> = BTreeMap::new();
    let mut nested: usize = 0;
    let mut strict: usize = 0;
    let mut non_strict: usize = 0;
    let mut negative: usize = 0;
    let mut i: usize = 0;
    proof {
        assert(sample@.subrange(0, 0) =~= Seq::<GeneratedTerm>::empty());
        assert(histogram@ =~= Map::<usize, usize>::empty());
    }
    while i < sample.len()
        invariant
            i <= sample@.len(),
            strict_sum(sample@) <= usize::MAX,
            non_strict_sum(sample@) <= usize::MAX,
            histogram@ == depth_histogram_m(sample@.subrange(0, i as int)),
            nested == nested_count(sample@.subrange(0, i as int)),
            strict == strict_sum(sample@.subrange(0, i as int)),
            non_strict == non_strict_sum(sample@.subrange(0, i as int)),
            negative == negative_count(sample@.subrange(0, i as int)),
        decreases sample@.len() - i,
    {
        let ghost prefix = sample@.subrange(0, i as int);
        let ghost next = sample@.subrange(0, i as int + 1);
        proof {
            assert(next.drop_last() =~= prefix);
            assert(next.last() == sample@[i as int]);
            lemma_sum_prefix(sample@, i as int + 1);
            lemma_histogram_bound(prefix, sample@[i as int].facts.depth);
            lemma_counts_bounded(prefix);
        }
        let facts = &sample[i].facts;
        let depth = facts.depth;
        let seen = match histogram.get(&depth) {
            Some(n) => *n,
            None => 0,
        };
        histogram.insert(depth, seen + 1);
        if facts.nested_handlers {
            nested = nested + 1;
        }
        strict = strict + facts.strict_rec_calls;
        non_strict = non_strict + facts.non_strict_rec_calls;
        if matches!(sample[i].expected, ExpectedOutcome::UnhandledOperation) {
            negative = negative + 1;
        }
        i += 1;
    }
    proof {
        assert(sample@.subrange(0, sample@.len() as int) =~= sample@);
    }
    Distribution {
        depth_histogram: histogram,
        nested_handlers: nested,
        strict_rec_calls: strict,
        non_strict_rec_calls: non_strict,
        negative_unhandled: negative,
    }
}

/// `usize` keys are ordered as integers are.
proof fn lemma_usize_keys()
    ensures
        vstd::laws_cmp::obeys_cmp::<usize>(),
{
    broadcast use vstd::laws_cmp::group_laws_cmp;

}

proof fn lemma_sum_prefix(s: Seq<GeneratedTerm>, k: int)
    requires
        0 <= k <= s.len(),
    ensures
        strict_sum(s.subrange(0, k)) <= strict_sum(s),
        non_strict_sum(s.subrange(0, k)) <= non_strict_sum(s),
    decreases s.len() - k,
{
    if k < s.len() {
        lemma_sum_prefix(s, k + 1);
        assert(s.subrange(0, k + 1).drop_last() =~= s.subrange(0, k));
    } else {
        assert(s.subrange(0, k) =~= s);
    }
}


// ---------------------------------------------------------------------------------------
// Aggregate negatives.
/// A surface program that the front end must reject, with a fragment of the expected
/// message.
#[derive(Debug, Clone, PartialEq, Eq)]
pub struct AggregateNegativeFixture {
    pub name: &'static str,
    pub source: &'static str,
    pub expected_error: &'static str,
}

fn fixture(name: &'static str, source: &'static str, expected_error: &'static str) -> (r:
    AggregateNegativeFixture)
    ensures
        r.name == name,
        r.source == source,
        r.expected_error == expected_error,
{
    AggregateNegativeFixture { name, source, expected_error }
}

/// The aggregate affinity mistakes, each with the message fragment that rejects it.
pub fn aggregate_negative_fixtures() -> (r: Vec<AggregateNegativeFixture>)
    ensures
        r@.len() == 5,
        r@[0].name == "heap_field_projection_from_unique" && r@[0].expected_error == "heap-typed",
        r@[1].name == "use_after_destructure" && r@[1].expected_error == "consumed here",
        r@[2].name == "nonexhaustive_variant_case" && r@[2].expected_error == "missing constructors",
        r@[3].name == "inplace_update_on_shared_record" && r@[3].expected_error == "requires unique",
        r@[4].name == "structural_fold_non_payload_argument" && r@[4].expected_error
            == "peeled predecessor",
{
    let mut out: Vec<AggregateNegativeFixture> = Vec::new();
    out.push(
        fixture(
            "heap_field_projection_from_unique",
            "type Mailbox = { buf: Array, len: Nat }\nfn main() -> Nat = { m = .{ buf = mkarray(1, 0), len = 1 }\nget(m.buf, 0) }\n",
            "heap-typed",
        ),
    );
    out.push(
        fixture(
            "use_after_destructure",
            "type Mailbox = { buf: Array, len: Nat }\nfn main() -> Nat = { m = .{ buf = mkarray(1, 0), len = 1 }\nx = case m { .{ buf, len } -> len }\nx + m.len }\n",
            "consumed here",
        ),
    );
    out.push(
        fixture(
            "nonexhaustive_variant_case",
            "type Shape = Circle(Nat) | Rect(Nat, Nat)\nfn area(s: Shape) -> Nat = case s { Circle(r) -> r }\nfn main() -> Nat = area(Rect(3, 4))\n",
            "missing constructors",
        ),
    );
    out.push(
        fixture(
            "inplace_update_on_shared_record",
            "type Box = { x: Nat, y: Nat }\nfn main() -> Nat = { b = freeze .{ x = 1, y = 2 }\nc = inplace .{ b | x = 7 }\nc.x }\n",
            "requires unique",
        ),
    );
    out.push(
        fixture(
            "structural_fold_non_payload_argument",
            "type NatList = Nil | Cons(Nat, NatList)\nfn bad(xs: NatList) -> Nat = case xs { Nil -> 0; Cons(x, rest) -> bad(xs) }\nfn main() -> Nat = bad(Nil)\n",
            "peeled predecessor",
        ),
    );
    out
}

} // verus!
