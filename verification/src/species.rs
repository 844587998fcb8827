use vstd::prelude::*;

verus! {

/// Number of species: one per lowercase letter.
pub const SPECIES_COUNT: usize = 26;

/// Mathematical sum of a sequence of counts.
pub open spec fn sum_of(s: Seq<u16>) -> int
    decreases s.len(),
{
    if s.len() == 0 {
        0
    } else {
        sum_of(s.drop_last()) + s.last()
    }
}

/// Pointwise "less or equal" on two count vectors of equal width.
pub open spec fn le_counts(a: Seq<u16>, b: Seq<u16>) -> bool {
    a.len() == b.len() && forall|i: int| 0 <= i < a.len() ==> a[i] <= b[i]
}

/// Elementwise minimum of two count vectors.
pub open spec fn min_counts(a: Seq<u16>, b: Seq<u16>) -> Seq<u16> {
    Seq::new(a.len(), |i: int| if a[i] <= b[i] { a[i] } else { b[i] })
}

/// Elementwise difference of two count vectors, for b pointwise below a.
pub open spec fn sub_counts(a: Seq<u16>, b: Seq<u16>) -> Seq<u16> {
    Seq::new(a.len(), |i: int| (a[i] - b[i]) as u16)
}

/// The all-zero vector of the full species width.
pub open spec fn zero_counts() -> Seq<u16> {
    Seq::new(SPECIES_COUNT as nat, |i: int| 0u16)
}

pub proof fn lemma_sum_of_nonneg(s: Seq<u16>)
    ensures
        sum_of(s) >= 0,
    decreases s.len(),
{
    if s.len() > 0 {
        lemma_sum_of_nonneg(s.drop_last());
    }
}

pub proof fn lemma_sum_of_take_step(s: Seq<u16>, i: int)
    requires
        0 <= i < s.len(),
    ensures
        sum_of(s.take(i + 1)) == sum_of(s.take(i)) + s[i],
{
    assert(s.take(i + 1).drop_last() =~= s.take(i));
    assert(s.take(i + 1).last() == s[i]);
}

pub proof fn lemma_sum_of_bound(s: Seq<u16>, m: int)
    requires
        forall|i: int| 0 <= i < s.len() ==> s[i] <= m,
        m >= 0,
    ensures
        sum_of(s) <= s.len() * m,
    decreases s.len(),
{
    if s.len() > 0 {
        lemma_sum_of_bound(s.drop_last(), m);
        assert(s.len() * m == (s.len() - 1) * m + m) by (nonlinear_arith);
    }
}

pub proof fn lemma_sum_of_le(a: Seq<u16>, b: Seq<u16>)
    requires
        le_counts(a, b),
    ensures
        sum_of(a) <= sum_of(b),
    decreases a.len(),
{
    if a.len() > 0 {
        assert(le_counts(a.drop_last(), b.drop_last()));
        lemma_sum_of_le(a.drop_last(), b.drop_last());
    }
}

pub proof fn lemma_sum_of_elem_le(s: Seq<u16>, i: int)
    requires
        0 <= i < s.len(),
    ensures
        s[i] <= sum_of(s),
    decreases s.len(),
{
    lemma_sum_of_nonneg(s.drop_last());
    if i < s.len() - 1 {
        lemma_sum_of_elem_le(s.drop_last(), i);
        assert(s.drop_last()[i] == s[i]);
        assert(s.last() >= 0);
    }
}

pub proof fn lemma_sum_of_concat(a: Seq<u16>, b: Seq<u16>)
    ensures
        sum_of(a + b) == sum_of(a) + sum_of(b),
    decreases b.len(),
{
    if b.len() == 0 {
        assert(a + b =~= a);
    } else {
        lemma_sum_of_concat(a, b.drop_last());
        assert((a + b).drop_last() =~= a + b.drop_last());
        assert((a + b).last() == b.last());
    }
}

pub proof fn lemma_sum_of_update(s: Seq<u16>, i: int, v: u16)
    requires
        0 <= i < s.len(),
    ensures
        sum_of(s.update(i, v)) == sum_of(s) - s[i] + v,
    decreases s.len(),
{
    if i == s.len() - 1 {
        assert(s.update(i, v).drop_last() =~= s.drop_last());
        assert(s.update(i, v).last() == v);
    } else {
        lemma_sum_of_update(s.drop_last(), i, v);
        assert(s.update(i, v).drop_last() =~= s.drop_last().update(i, v));
        assert(s.update(i, v).last() == s.last());
    }
}

/// Maps a species letter to its index.
pub fn char_to_stem_index(value: char) -> (r: usize)
    requires
        97 <= value as int <= 122,
    ensures
        r == value as int - 97,
        r < SPECIES_COUNT,
{
    (value as u32 - 97) as usize
}

/// Maps a species index back to its letter.
pub fn stem_index_to_char(stem_index: usize) -> (r: char)
    requires
        stem_index < SPECIES_COUNT,
    ensures
        r as int == 97 + stem_index,
{
    (97 + stem_index as u8) as char
}

/// A fixed-width vector holding one non-negative count per species.
pub struct SpeciesCounts {
    counts: Vec<u16>,
}

impl View for SpeciesCounts {
    type V = Seq<u16>;

    closed spec fn view(&self) -> Seq<u16> {
        self.counts@
    }
}

impl SpeciesCounts {
    /// The vector always spans the full species alphabet.
    pub open spec fn wf(&self) -> bool {
        self@.len() == SPECIES_COUNT
    }

    pub fn new() -> (r: Self)
        ensures
            r.wf(),
            r@ =~= zero_counts(),
    {
        let mut counts: Vec<u16> = Vec::new();
        let mut i: usize = 0;
        while i < SPECIES_COUNT
            invariant
                i <= SPECIES_COUNT,
                counts@.len() == i,
                forall|j: int| 0 <= j < i ==> counts@[j] == 0u16,
            decreases SPECIES_COUNT - i,
        {
            counts.push(0);
            i = i + 1;
        }
        SpeciesCounts { counts }
    }

    pub fn get(&self, species: usize) -> (r: u16)
        requires
            self.wf(),
            species < SPECIES_COUNT,
        ensures
            r == self@[species as int],
    {
        self.counts[species]
    }

    pub fn set(&mut self, species: usize, value: u16)
        requires
            old(self).wf(),
            species < SPECIES_COUNT,
        ensures
            final(self).wf(),
            final(self)@ == old(self)@.update(species as int, value),
    {
        self.counts[species] = value;
    }

    /// Horizontal sum, wide enough that it cannot overflow.
    pub fn sum(&self) -> (r: u32)
        requires
            self.wf(),
        ensures
            r == sum_of(self@),
    {
        let mut r: u32 = 0;
        let mut i: usize = 0;
        assert(self@.take(0) =~= Seq::<u16>::empty());
        while i < SPECIES_COUNT
            invariant
                self.wf(),
                i <= SPECIES_COUNT,
                r == sum_of(self@.take(i as int)),
            decreases SPECIES_COUNT - i,
        {
            proof {
                lemma_sum_of_bound(self@.take(i as int), 65535);
                lemma_sum_of_take_step(self@, i as int);
            }
            r = r + self.counts[i] as u32;
            i = i + 1;
        }
        assert(self@.take(SPECIES_COUNT as int) =~= self@);
        r
    }

    /// Elementwise minimum with another vector.
    pub fn min_with(&self, other: &SpeciesCounts) -> (r: SpeciesCounts)
        requires
            self.wf(),
            other.wf(),
        ensures
            r.wf(),
            r@ =~= min_counts(self@, other@),
    {
        let mut counts: Vec<u16> = Vec::new();
        let mut i: usize = 0;
        while i < SPECIES_COUNT
            invariant
                self.wf(),
                other.wf(),
                i <= SPECIES_COUNT,
                counts@.len() == i,
                forall|j: int| 0 <= j < i ==> counts@[j] == min_counts(self@, other@)[j],
            decreases SPECIES_COUNT - i,
        {
            let a = self.counts[i];
            let b = other.counts[i];
            counts.push(if a <= b {
                a
            } else {
                b
            });
            i = i + 1;
        }
        SpeciesCounts { counts }
    }

    /// True when some species count sits strictly below the other vector's.
    pub fn any_below(&self, other: &SpeciesCounts) -> (r: bool)
        requires
            self.wf(),
            other.wf(),
        ensures
            r == !le_counts(other@, self@),
    {
        let mut i: usize = 0;
        while i < SPECIES_COUNT
            invariant
                self.wf(),
                other.wf(),
                i <= SPECIES_COUNT,
                forall|j: int| 0 <= j < i ==> other@[j] <= self@[j],
            decreases SPECIES_COUNT - i,
        {
            if self.counts[i] < other.counts[i] {
                return true;
            }
            i = i + 1;
        }
        false
    }

    /// Elementwise subtraction of a pointwise-smaller vector.
    pub fn subtract(&mut self, other: &SpeciesCounts)
        requires
            old(self).wf(),
            other.wf(),
            le_counts(other@, old(self)@),
        ensures
            final(self).wf(),
            final(self)@ =~= sub_counts(old(self)@, other@),
    {
        let mut i: usize = 0;
        while i < SPECIES_COUNT
            invariant
                self.wf(),
                other.wf(),
                le_counts(other@, old(self)@),
                i <= SPECIES_COUNT,
                forall|j: int| 0 <= j < i ==> self@[j] == sub_counts(old(self)@, other@)[j],
                forall|j: int| i <= j < SPECIES_COUNT ==> self@[j] == old(self)@[j],
            decreases SPECIES_COUNT - i,
        {
            let a = self.counts[i];
            let b = other.counts[i];
            self.counts[i] = a - b;
            i = i + 1;
        }
    }
}

} // verus!
