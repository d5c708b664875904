//! Grade algebra: uniqueness `Q`, effect rows `Eff`, frame boundedness `Bound`
//! (`ℕ ∪ {ω}`) and the single-arena `Region` model.

use vstd::prelude::*;

use crate::text::{
    chars_lt, chars_of, lemma_chars_lt_irrefl, lemma_chars_lt_total, lemma_chars_lt_trans, leak_name,
    owned, push, str_eq, text_lt,
};

verus! {

/// Uniqueness grades `{0, 1, ω}` with the quantitative addition/multiplication tables.
#[derive(Debug, Clone, Copy, PartialEq, Eq, PartialOrd, Ord, Hash, Structural)]
pub enum Q {
    Zero,
    One,
    Omega,
}

/// Addition table of `Q`: `0` is the unit and every other sum saturates at `ω`.
pub open spec fn q_add(a: Q, b: Q) -> Q {
    match (a, b) {
        (Q::Zero, q) => q,
        (q, Q::Zero) => q,
        _ => Q::Omega,
    }
}

/// Multiplication table of `Q`: `0` annihilates, `1` is the unit, `ω·ω = ω`.
pub open spec fn q_mul(a: Q, b: Q) -> Q {
    match (a, b) {
        (Q::Zero, _) => Q::Zero,
        (_, Q::Zero) => Q::Zero,
        (Q::One, q) => q,
        (q, Q::One) => q,
        _ => Q::Omega,
    }
}

impl Q {
    pub fn add(self, rhs: Self) -> (r: Self)
        ensures
            r == q_add(self, rhs),
    {
        match (self, rhs) {
            (Q::Zero, q) => q,
            (q, Q::Zero) => q,
            _ => Q::Omega,
        }
    }

    pub fn mul(self, rhs: Self) -> (r: Self)
        ensures
            r == q_mul(self, rhs),
    {
        match (self, rhs) {
            (Q::Zero, _) => Q::Zero,
            (_, Q::Zero) => Q::Zero,
            (Q::One, q) => q,
            (q, Q::One) => q,
            _ => Q::Omega,
        }
    }
}

/// `Q` is a commutative semiring: `(Q, +, 0)` and `(Q, ·, 1)` are commutative monoids,
/// `0` annihilates and multiplication distributes over addition.
pub proof fn lemma_q_semiring(a: Q, b: Q, c: Q)
    ensures
        q_add(a, Q::Zero) == a,
        q_add(Q::Zero, a) == a,
        q_add(a, b) == q_add(b, a),
        q_add(q_add(a, b), c) == q_add(a, q_add(b, c)),
        q_mul(a, Q::One) == a,
        q_mul(Q::One, a) == a,
        q_mul(a, Q::Zero) == Q::Zero,
        q_mul(Q::Zero, a) == Q::Zero,
        q_mul(a, b) == q_mul(b, a),
        q_mul(q_mul(a, b), c) == q_mul(a, q_mul(b, c)),
        q_mul(a, q_add(b, c)) == q_add(q_mul(a, b), q_mul(a, c)),
        q_mul(q_add(a, b), c) == q_add(q_mul(a, c), q_mul(b, c)),
{
}

/// An operation label; two labels are the same label exactly when their names agree.
#[derive(Debug, Clone, Copy, PartialEq, Eq, PartialOrd, Ord, Hash)]
pub struct Label(&'static str);

impl View for Label {
    type V = Seq<char>;

    closed spec fn view(&self) -> Seq<char> {
        self.0@
    }
}

impl Label {
    /// The default effect label `L`.
    #[allow(non_snake_case)]
    pub fn L() -> (r: Self)
        ensures
            r@ == "L"@,
    {
        Self("L")
    }

    /// The label with the given name.
    pub fn intern(name: &str) -> (r: Self)
        ensures
            r@ == name@,
    {
        if str_eq(name, "L") {
            return Self::L();
        }
        Self(leak_name(name))
    }

    /// The name of the label.
    pub fn name(self) -> (r: &'static str)
        ensures
            r@ == self@,
    {
        self.0
    }

    /// Whether two labels carry the same name.
    pub fn same(&self, other: &Self) -> (r: bool)
        ensures
            r == (self@ == other@),
    {
        str_eq(self.0, other.0)
    }
}

/// The names carried by a sequence of labels.
pub open spec fn label_names(labels: Seq<Label>) -> Seq<Seq<char>> {
    labels.map_values(|l: Label| l@)
}

/// Effect rows: finite sets of labels, joined by union with `∅` as unit.
#[derive(Debug, Clone, Default)]
pub struct Eff {
    labels: Vec<Label>,
}

impl View for Eff {
    type V = Set<Seq<char>>;

    closed spec fn view(&self) -> Set<Seq<char>> {
        label_names(self.labels@).to_set()
    }
}

impl Eff {
    /// No label is stored twice.
    pub closed spec fn distinct(self) -> bool {
        label_names(self.labels@).no_duplicates()
    }

    /// `∅`.
    pub fn empty() -> (r: Self)
        ensures
            r@ == Set::<Seq<char>>::empty(),
            r.distinct(),
    {
        let r = Self { labels: Vec::new() };
        assert(label_names(r.labels@) =~= Seq::<Seq<char>>::empty());
        assert(label_names(r.labels@).to_set() =~= Set::<Seq<char>>::empty());
        r
    }

    /// `{label}`.
    pub fn singleton(label: Label) -> (r: Self)
        ensures
            r@ == Set::<Seq<char>>::empty().insert(label@),
    {
        let mut labels = Vec::new();
        labels.push(label);
        assert(label_names(labels@) =~= seq![label@]);
        proof {
            let s = label_names(labels@);
            assert(s.to_set().contains(label@)) by {
                assert(s[0] == label@);
            }
            assert(s.to_set() =~= Set::<Seq<char>>::empty().insert(label@)) by {
                assert forall|x: Seq<char>| s.to_set().contains(x) implies x == label@ by {
                    let i = choose|i: int| 0 <= i < s.len() && s[i] == x;
                }
            }
        }
        Self { labels }
    }

    /// Index-free membership test on the stored labels.
    fn position(&self, label: &Label) -> (r: Option<usize>)
        ensures
            r matches Some(i) ==> i < self.labels@.len() && self.labels@[i as int]@ == label@,
            r is None ==> !self@.contains(label@),
    {
        let mut i: usize = 0;
        while i < self.labels.len()
            invariant
                i <= self.labels@.len(),
                forall|j: int| 0 <= j < i ==> self.labels@[j]@ != label@,
            decreases self.labels@.len() - i,
        {
            if self.labels[i].same(label) {
                return Some(i);
            }
            i += 1;
        }
        proof {
            let s = label_names(self.labels@);
            if s.to_set().contains(label@) {
                let j = choose|j: int| 0 <= j < s.len() && s[j] == label@;
                assert(self.labels@[j]@ == label@);
            }
        }
        None
    }

    /// `label ∈ self`.
    pub fn contains(&self, label: Label) -> (r: bool)
        ensures
            r == self@.contains(label@),
    {
        match self.position(&label) {
            Some(i) => {
                proof {
                    let s = label_names(self.labels@);
                    assert(s[i as int] == label@);
                }
                true
            },
            None => false,
        }
    }

    /// A copy of the row.
    pub fn duplicate(&self) -> (r: Self)
        ensures
            r@ == self@,
    {
        self.join(&Self::empty())
    }

    /// `self ∪ rhs`.
    pub fn join(&self, rhs: &Self) -> (r: Self)
        ensures
            r@ == self@.union(rhs@),
    {
        let mut labels: Vec<Label> = Vec::new();
        let mut i: usize = 0;
        while i < self.labels.len()
            invariant
                i <= self.labels@.len(),
                labels@ == self.labels@.subrange(0, i as int),
            decreases self.labels@.len() - i,
        {
            labels.push(self.labels[i]);
            i += 1;
            assert(labels@ =~= self.labels@.subrange(0, i as int));
        }
        assert(labels@ =~= self.labels@);
        let mut acc = Self { labels };
        let mut k: usize = 0;
        while k < rhs.labels.len()
            invariant
                k <= rhs.labels@.len(),
                acc@ == self@.union(label_names(rhs.labels@.subrange(0, k as int)).to_set()),
            decreases rhs.labels@.len() - k,
        {
            let l = rhs.labels[k];
            acc = acc.insert(l);
            proof {
                let prev = label_names(rhs.labels@.subrange(0, k as int));
                let next = label_names(rhs.labels@.subrange(0, k + 1));
                assert(next =~= prev.push(l@));
                lemma_push_to_set(prev, l@);
            }
            k += 1;
        }
        proof {
            assert(rhs.labels@.subrange(0, rhs.labels@.len() as int) =~= rhs.labels@);
            assert(acc@ =~= self@.union(rhs@));
        }
        acc
    }

    /// Adds one label.
    fn insert(self, label: Label) -> (r: Self)
        ensures
            r@ == self@.insert(label@),
            self.distinct() ==> r.distinct(),
    {
        if self.contains(label) {
            assert(self@.insert(label@) =~= self@);
            return self;
        }
        let Self { labels } = self;
        let ghost old_names = label_names(labels@);
        let mut labels = labels;
        labels.push(label);
        proof {
            assert(label_names(labels@) =~= old_names.push(label@));
            lemma_push_to_set(old_names, label@);
            if old_names.no_duplicates() {
                assert forall|a: int, b: int|
                    0 <= a < b < label_names(labels@).len() implies label_names(labels@)[a]
                    != label_names(labels@)[b] by {
                    if b == old_names.len() {
                        assert(old_names.to_set().contains(old_names[a]));
                    } else {
                        assert(old_names[a] != old_names[b]);
                    }
                }
            }
        }
        Self { labels }
    }

    /// `self ∖ {label}`.
    pub fn without(&self, label: Label) -> (r: Self)
        ensures
            r@ == self@.remove(label@),
    {
        let mut labels: Vec<Label> = Vec::new();
        let mut i: usize = 0;
        while i < self.labels.len()
            invariant
                i <= self.labels@.len(),
                label_names(labels@).to_set() == label_names(
                    self.labels@.subrange(0, i as int),
                ).to_set().remove(label@),
                forall|x: Seq<char>| label_names(labels@).to_set().contains(x)
                    ==> label_names(self.labels@.subrange(0, i as int)).to_set().contains(x),
            decreases self.labels@.len() - i,
        {
            let l = self.labels[i];
            let ghost prev = label_names(self.labels@.subrange(0, i as int));
            let ghost before = label_names(labels@);
            proof {
                assert(label_names(self.labels@.subrange(0, i + 1)) =~= prev.push(l@));
                lemma_push_to_set(prev, l@);
            }
            if !l.same(&label) {
                labels.push(l);
                proof {
                    assert(label_names(labels@) =~= before.push(l@));
                    lemma_push_to_set(before, l@);
                }
            }
            i += 1;
            proof {
                assert(label_names(labels@).to_set() =~= label_names(
                    self.labels@.subrange(0, i as int),
                ).to_set().remove(label@));
            }
        }
        proof {
            assert(self.labels@.subrange(0, self.labels@.len() as int) =~= self.labels@);
        }
        Self { labels }
    }

    /// `self ⊆ rhs`.
    pub fn is_subset(&self, rhs: &Self) -> (r: bool)
        ensures
            r == self@.subset_of(rhs@),
    {
        let mut i: usize = 0;
        while i < self.labels.len()
            invariant
                i <= self.labels@.len(),
                forall|j: int| 0 <= j < i ==> rhs@.contains(#[trigger] self.labels@[j]@),
            decreases self.labels@.len() - i,
        {
            if !rhs.contains(self.labels[i]) {
                proof {
                    let s = label_names(self.labels@);
                    assert(s[i as int] == self.labels@[i as int]@);
                    assert(self@.contains(self.labels@[i as int]@));
                }
                return false;
            }
            i += 1;
        }
        proof {
            let s = label_names(self.labels@);
            assert forall|x: Seq<char>| self@.contains(x) implies rhs@.contains(x) by {
                let j = choose|j: int| 0 <= j < s.len() && s[j] == x;
                assert(rhs@.contains(self.labels@[j]@));
            }
        }
        true
    }

    /// `self = ∅`.
    pub fn is_empty(&self) -> (r: bool)
        ensures
            r == (self@ == Set::<Seq<char>>::empty()),
    {
        proof {
            let s = label_names(self.labels@);
            if s.len() > 0 {
                assert(s.to_set().contains(s[0]));
            } else {
                assert(s.to_set() =~= Set::<Seq<char>>::empty());
            }
        }
        self.labels.len() == 0
    }

    /// The labels of the row, each once, in ascending order of their names.
    pub fn labels(&self) -> (r: Vec<Label>)
        ensures
            label_names(r@).to_set() == self@,
            forall|i: int, j: int| 0 <= i < j < r@.len() ==> chars_lt(#[trigger] r@[i]@, #[trigger] r@[j]@),
            label_names(r@).no_duplicates(),
    {
        let mut out: Vec<Label> = Vec::new();
        let mut i: usize = 0;
        proof {
            assert(label_names(out@).to_set() =~= label_names(self.labels@.subrange(0, 0)).to_set());
        }
        while i < self.labels.len()
            invariant
                i <= self.labels@.len(),
                label_names(out@).to_set() == label_names(self.labels@.subrange(0, i as int)).to_set(),
                forall|p: int, q: int| 0 <= p < q < out@.len() ==> chars_lt(#[trigger] out@[p]@, #[trigger] out@[q]@),
            decreases self.labels@.len() - i,
        {
            let l = self.labels[i];
            let lc = chars_of(l.name());
            let mut k: usize = 0;
            while k < out.len()
                invariant
                    k <= out@.len(),
                    lc@ == l@,
                    forall|q: int| 0 <= q < k ==> chars_lt(#[trigger] out@[q]@, l@),
                ensures
                    k <= out@.len(),
                    forall|q: int| 0 <= q < k ==> chars_lt(#[trigger] out@[q]@, l@),
                    k < out@.len() ==> !chars_lt(out@[k as int]@, l@),
                decreases out@.len() - k,
            {
                let oc = chars_of(out[k].name());
                if !text_lt(&oc, &lc) {
                    break;
                }
                k += 1;
            }
            let ghost old_out = out@;
            let ghost prev = label_names(self.labels@.subrange(0, i as int));
            proof {
                assert(label_names(self.labels@.subrange(0, i + 1)) =~= prev.push(l@));
                lemma_push_to_set(prev, l@);
            }
            if k < out.len() && out[k].same(&l) {
                proof {
                    assert(label_names(out@)[k as int] == l@);
                    assert(label_names(out@).to_set().contains(l@));
                    assert(prev.push(l@).to_set() =~= prev.to_set());
                }
            } else {
                out.insert(k, l);
                proof {
                    assert(out@ == old_out.insert(k as int, l));
                    assert(k < old_out.len() ==> !chars_lt(old_out[k as int]@, l@));
                    if k < old_out.len() {
                        lemma_chars_lt_total(old_out[k as int]@, l@);
                    }
                    assert forall|p: int, q: int| 0 <= p < q < out@.len() implies chars_lt(
                        #[trigger] out@[p]@,
                        #[trigger] out@[q]@,
                    ) by {
                        if q < k {
                            assert(out@[p] == old_out[p] && out@[q] == old_out[q]);
                        } else if q == k {
                            assert(out@[p] == old_out[p]);
                        } else if p == k {
                            assert(out@[q] == old_out[q - 1]);
                            if q - 1 > k {
                                lemma_chars_lt_trans(l@, old_out[k as int]@, old_out[q - 1]@);
                            }
                        } else if p < k {
                            assert(out@[p] == old_out[p] && out@[q] == old_out[q - 1]);
                            assert(chars_lt(old_out[p]@, l@));
                            if q - 1 >= k {
                                lemma_chars_lt_trans(old_out[p]@, l@, old_out[k as int]@);
                                if q - 1 > k {
                                    lemma_chars_lt_trans(old_out[p]@, old_out[k as int]@, old_out[q - 1]@);
                                }
                            }
                        } else {
                            assert(out@[p] == old_out[p - 1] && out@[q] == old_out[q - 1]);
                        }
                    }
                    let on = label_names(old_out);
                    let nn = label_names(out@);
                    assert forall|x: Seq<char>| nn.to_set().contains(x) <==> on.to_set().insert(l@).contains(x) by {
                        if nn.to_set().contains(x) {
                            let j = choose|j: int| 0 <= j < nn.len() && nn[j] == x;
                            if j < k {
                                assert(on[j] == x);
                            } else if j > k {
                                assert(on[j - 1] == x);
                            }
                        }
                        if on.to_set().contains(x) {
                            let j = choose|j: int| 0 <= j < on.len() && on[j] == x;
                            if j < k {
                                assert(nn[j] == x);
                            } else {
                                assert(nn[j + 1] == x);
                            }
                        }
                        if x == l@ {
                            assert(nn[k as int] == x);
                        }
                    }
                    assert(nn.to_set() =~= on.to_set().insert(l@));
                }
            }
            i += 1;
        }
        proof {
            assert(self.labels@.subrange(0, self.labels@.len() as int) =~= self.labels@);
            let nn = label_names(out@);
            assert forall|p: int, q: int| 0 <= p < q < nn.len() implies nn[p] != nn[q] by {
                assert(chars_lt(out@[p]@, out@[q]@));
                lemma_chars_lt_irrefl(out@[p]@);
            }
        }
        out
    }
}

/// Names joined with `,`.
pub open spec fn joined_names_m(names: Seq<Seq<char>>) -> Seq<char>
    decreases names.len(),
{
    if names.len() == 0 {
        Seq::empty()
    } else if names.len() == 1 {
        names[0]
    } else {
        joined_names_m(names.drop_last()) + ","@ + names.last()
    }
}

/// How an effect row is written: `∅`, or its label names in braces, separated by `,`.
pub open spec fn eff_text_m(names: Seq<Seq<char>>) -> Seq<char> {
    if names.len() == 0 {
        "∅"@
    } else {
        "{"@ + joined_names_m(names) + "}"@
    }
}

impl Eff {
    /// The row as text, its labels in ascending order.
    pub fn to_text(&self) -> (r: String)
        ensures
            exists|ls: Seq<Label>|
                {
                    &&& label_names(ls).to_set() == self@
                    &&& (forall|i: int, j: int| 0 <= i < j < ls.len() ==> chars_lt(#[trigger] ls[i]@, #[trigger] ls[j]@))
                    &&& r@ == eff_text_m(label_names(ls))
                },
    {
        let ls = self.labels();
        if ls.len() == 0 {
            proof {
                assert(label_names(ls@) =~= Seq::<Seq<char>>::empty());
            }
            return owned("∅");
        }
        let mut out = owned("{");
        let mut i: usize = 0;
        while i < ls.len()
            invariant
                i <= ls@.len(),
                ls@.len() > 0,
                out@ == "{"@ + joined_names_m(label_names(ls@).subrange(0, i as int)),
            decreases ls@.len() - i,
        {
            let ghost before = out@;
            let ghost pre = label_names(ls@).subrange(0, i as int);
            if i > 0 {
                push(&mut out, ",");
            }
            push(&mut out, ls[i].name());
            proof {
                let next = label_names(ls@).subrange(0, i + 1);
                assert(next.drop_last() =~= pre);
                assert(next.last() == ls@[i as int]@);
                if i == 0 {
                    assert(next =~= seq![ls@[0]@]);
                    assert(pre.len() == 0);
                }
            }
            i += 1;
        }
        push(&mut out, "}");
        proof {
            assert(label_names(ls@).subrange(0, ls@.len() as int) =~= label_names(ls@));
        }
        out
    }
}

proof fn lemma_push_to_set(s: Seq<Seq<char>>, x: Seq<char>)
    ensures
        s.push(x).to_set() == s.to_set().insert(x),
{
    assert forall|y: Seq<char>| s.push(x).to_set().contains(y) <==> s.to_set().insert(x).contains(
        y,
    ) by {
        if s.push(x).to_set().contains(y) {
            let j = choose|j: int| 0 <= j < s.push(x).len() && s.push(x)[j] == y;
            if j < s.len() {
                assert(s[j] == y);
            }
        }
        if s.to_set().contains(y) {
            let j = choose|j: int| 0 <= j < s.len() && s[j] == y;
            assert(s.push(x)[j] == y);
        }
        if y == x {
            assert(s.push(x)[s.len() as int] == x);
        }
    }
    assert(s.push(x).to_set() =~= s.to_set().insert(x));
}

impl PartialEq for Eff {
    fn eq(&self, other: &Self) -> (r: bool) {
        let a = self.is_subset(other);
        let b = other.is_subset(self);
        proof {
            if a && b {
                assert(self@ =~= other@);
            }
        }
        a && b
    }
}

impl vstd::std_specs::cmp::PartialEqSpecImpl for Eff {
    open spec fn obeys_eq_spec() -> bool {
        true
    }

    open spec fn eq_spec(&self, other: &Self) -> bool {
        self@ == other@
    }
}

impl Eq for Eff {
}

/// `ω` absorbs, otherwise `u32` addition that overflows to `ω`.
pub open spec fn bound_seq(a: Bound, b: Bound) -> Bound {
    match (a, b) {
        (Bound::Finite(x), Bound::Finite(y)) => if x + y <= u32::MAX {
            Bound::Finite((x + y) as u32)
        } else {
            Bound::Omega
        },
        _ => Bound::Omega,
    }
}

/// Maximum with `ω` as top.
pub open spec fn bound_join(a: Bound, b: Bound) -> Bound {
    match (a, b) {
        (Bound::Finite(x), Bound::Finite(y)) => if x >= y {
            Bound::Finite(x)
        } else {
            Bound::Finite(y)
        },
        _ => Bound::Omega,
    }
}

/// The order `n ≤ m ≤ ω` on bounds.
pub open spec fn bound_le(a: Bound, b: Bound) -> bool {
    match (a, b) {
        (_, Bound::Omega) => true,
        (Bound::Finite(x), Bound::Finite(y)) => x <= y,
        _ => false,
    }
}

/// Frame boundedness `ℕ ∪ {ω}`.
#[derive(Debug, Clone, Copy, PartialEq, Eq, PartialOrd, Ord, Hash, Structural)]
pub enum Bound {
    Finite(u32),
    Omega,
}

impl Bound {
    /// The bound `0`.
    #[allow(non_snake_case)]
    pub fn ZERO() -> (r: Self)
        ensures
            r == Bound::Finite(0),
    {
        Self::Finite(0)
    }

    pub fn finite(value: u32) -> (r: Self)
        ensures
            r == Bound::Finite(value),
    {
        Self::Finite(value)
    }

    /// Sequential frame nesting `⊕`.
    pub fn sequential(self, rhs: Self) -> (r: Self)
        ensures
            r == bound_seq(self, rhs),
    {
        match (self, rhs) {
            (Self::Finite(a), Self::Finite(b)) => match a.checked_add(b) {
                Some(sum) => Self::Finite(sum),
                None => Self::Omega,
            },
            _ => Self::Omega,
        }
    }

    /// Branch join `⊔`.
    pub fn join(self, rhs: Self) -> (r: Self)
        ensures
            r == bound_join(self, rhs),
    {
        match (self, rhs) {
            (Self::Finite(a), Self::Finite(b)) => {
                if a >= b {
                    Self::Finite(a)
                } else {
                    Self::Finite(b)
                }
            },
            _ => Self::Omega,
        }
    }

    pub fn is_finite(self) -> (r: bool)
        ensures
            r == (self is Finite),
    {
        match self {
            Self::Finite(_) => true,
            Self::Omega => false,
        }
    }

    pub fn as_finite(self) -> (r: Option<u32>)
        ensures
            r == (match self {
                Bound::Finite(v) => Some(v),
                Bound::Omega => None::<u32>,
            }),
    {
        match self {
            Self::Finite(value) => Some(value),
            Self::Omega => None,
        }
    }
}

/// `(Bound, ⊕, 0)` is a commutative monoid with `ω` absorbing, and
/// `(Bound, ⊔, 0)` is a join-semilattice with unit `0` and top `ω`.
pub proof fn lemma_bound_algebra(a: Bound, b: Bound, c: Bound)
    ensures
        bound_seq(a, Bound::Finite(0)) == a,
        bound_seq(Bound::Finite(0), a) == a,
        bound_seq(a, b) == bound_seq(b, a),
        bound_seq(bound_seq(a, b), c) == bound_seq(a, bound_seq(b, c)),
        bound_seq(a, Bound::Omega) == Bound::Omega,
        bound_join(a, Bound::Finite(0)) == a,
        bound_join(a, a) == a,
        bound_join(a, b) == bound_join(b, a),
        bound_join(bound_join(a, b), c) == bound_join(a, bound_join(b, c)),
        bound_join(a, Bound::Omega) == Bound::Omega,
        bound_le(a, bound_join(a, b)),
        bound_le(a, bound_seq(a, b)),
{
}

/// The single arena region; every region outlives every other.
#[derive(Debug, Clone, Copy, PartialEq, Eq, Hash, Structural)]
pub enum Region {
    Arena,
}

impl Region {
    pub fn meet(self, _rhs: Self) -> (r: Self)
        ensures
            r == Region::Arena,
    {
        Self::Arena
    }

    pub fn outlives(self, _rhs: Self) -> (r: bool)
        ensures
            r,
    {
        true
    }
}

} // verus!
