use vstd::prelude::*;

use crate::size::Size;
use crate::species::{char_to_stem_index, sum_of, zero_counts, SpeciesCounts, SPECIES_COUNT};

verus! {

// ---------------------------------------------------------------------------
// The design line grammar.
//
// A specification line is one uppercase name letter, one size marker, a run
// of (count, species letter) pairs — stray characters between pairs are
// ignored — and a trailing run of digits giving the required total:
//
//     <name: A-Z> <size: S|L> ( <count: digits> <species: a-z> | junk )* <total: digits>
//
// The total is the longest run of digits that ends the line.
// ---------------------------------------------------------------------------

pub open spec fn is_digit_char(c: char) -> bool {
    48 <= c as int <= 57
}

pub open spec fn is_lower_char(c: char) -> bool {
    97 <= c as int <= 122
}

pub open spec fn is_upper_char(c: char) -> bool {
    65 <= c as int <= 90
}

pub open spec fn digit_val(c: char) -> int {
    c as int - 48
}

/// Value of a run of decimal digits.
pub open spec fn num_val(s: Seq<char>) -> int
    decreases s.len(),
{
    if s.len() == 0 {
        0
    } else {
        num_val(s.drop_last()) * 10 + digit_val(s.last())
    }
}

/// Start of the longest all-digit suffix of `s` that stays behind the
/// two-character header; scanning begins at position `i`.
pub open spec fn total_start(s: Seq<char>, i: int) -> int
    decreases i,
{
    if i > 2 && is_digit_char(s[i - 1]) {
        total_start(s, i - 1)
    } else {
        i
    }
}

/// First position at or after `i` that does not hold a digit.
pub open spec fn digit_end(s: Seq<char>, i: int) -> int
    decreases s.len() - i,
{
    if 0 <= i < s.len() && is_digit_char(s[i]) {
        digit_end(s, i + 1)
    } else {
        i
    }
}

pub proof fn lemma_digit_end_bounds(s: Seq<char>, i: int)
    requires
        0 <= i <= s.len(),
    ensures
        i <= digit_end(s, i) <= s.len(),
        forall|t: int| i <= t < digit_end(s, i) ==> is_digit_char(s[t]),
    decreases s.len() - i,
{
    if i < s.len() && is_digit_char(s[i]) {
        lemma_digit_end_bounds(s, i + 1);
    }
}

/// The (species index, count value) pairs read from the stems region,
/// scanning left to right from position `i`: a pair is a maximal digit run
/// directly followed by a lowercase letter; everything else is skipped.
pub open spec fn pairs_from(s: Seq<char>, i: int) -> Seq<(int, int)>
    decreases s.len() - i,
    when 0 <= i
    via pairs_from_decreases
{
    if i >= s.len() {
        Seq::empty()
    } else if is_digit_char(s[i]) {
        let j = digit_end(s, i);
        if j < s.len() && is_lower_char(s[j]) {
            seq![(s[j] as int - 97, num_val(s.subrange(i, j)))] + pairs_from(s, j + 1)
        } else {
            pairs_from(s, j)
        }
    } else {
        pairs_from(s, i + 1)
    }
}

#[via_fn]
proof fn pairs_from_decreases(s: Seq<char>, i: int) {
    if 0 <= i < s.len() && is_digit_char(s[i]) {
        lemma_digit_end_bounds(s, i + 1);
        assert(digit_end(s, i) == digit_end(s, i + 1));
        assert(digit_end(s, i) >= i + 1);
    }
}

/// Every pair's count fits the count type.
pub open spec fn pairs_ok(ps: Seq<(int, int)>) -> bool {
    forall|p: int| 0 <= p < ps.len() ==> 0 <= (#[trigger] ps[p]).1 <= 65535
}

/// Left fold of the pairs over the raw bound vectors: a pair marks its
/// species with a minimum of one and records its count as the maximum; a
/// later pair for the same species wins.
pub open spec fn apply_pairs(mins: Seq<u16>, maxs: Seq<u16>, ps: Seq<(int, int)>) -> (Seq<u16>,
    Seq<u16>)
    decreases ps.len(),
{
    if ps.len() == 0 {
        (mins, maxs)
    } else {
        apply_pairs(
            mins.update(ps[0].0, 1u16),
            maxs.update(ps[0].0, ps[0].1 as u16),
            ps.drop_first(),
        )
    }
}

/// How many species slots are marked (used as the distinct species count).
pub open spec fn count_pos(m: Seq<u16>, i: int) -> int
    decreases i,
{
    if i <= 0 {
        0
    } else {
        count_pos(m, i - 1) + if m[i - 1] > 0 {
            1int
        } else {
            0int
        }
    }
}

// ---------------------------------------------------------------------------
// Normalization: two pure tightening passes over the raw bounds.
// ---------------------------------------------------------------------------

/// A species can never contribute more than the required total minus one
/// stem reserved for each other named species.
pub open spec fn species_cap(total: u16, distinct: int) -> int {
    1 + total - distinct
}

pub open spec fn cap_at(x: u16, cap: int) -> u16 {
    if x as int <= cap {
        x
    } else if cap >= 0 {
        cap as u16
    } else {
        0u16
    }
}

pub open spec fn capped_maxs(maxs: Seq<u16>, cap: int) -> Seq<u16> {
    Seq::new(maxs.len(), |i: int| cap_at(maxs[i], cap))
}

/// The least a named species must contribute, given every other named
/// species' ceiling.
pub open spec fn tight_min(x: u16, others: int) -> u16 {
    if x as int - others >= 1 {
        (x as int - others) as u16
    } else {
        1u16
    }
}

pub open spec fn tightened_mins(mins: Seq<u16>, maxs: Seq<u16>) -> Seq<u16> {
    Seq::new(
        mins.len(),
        |i: int|
            if maxs[i] == 0 {
                mins[i]
            } else {
                tight_min(maxs[i], sum_of(maxs) - maxs[i])
            },
    )
}

/// Both tightening passes: cap each maximum, then recompute each named
/// species' minimum from the capped ceilings.
pub open spec fn normalize_bounds(mins: Seq<u16>, maxs: Seq<u16>, total: u16, distinct: int) -> (
    Seq<u16>,
    Seq<u16>,
) {
    let cm = capped_maxs(maxs, species_cap(total, distinct));
    (tightened_mins(mins, cm), cm)
}

/// The tightening is idempotent: a second pass over already-tightened
/// bounds, with the same required total and distinct species count, changes
/// nothing.
pub proof fn lemma_normalization_idempotent(
    mins: Seq<u16>,
    maxs: Seq<u16>,
    total: u16,
    distinct: int,
)
    ensures
        ({
            let once = normalize_bounds(mins, maxs, total, distinct);
            normalize_bounds(once.0, once.1, total, distinct) == once
        }),
{
    let cap = species_cap(total, distinct);
    let once = normalize_bounds(mins, maxs, total, distinct);
    let twice = normalize_bounds(once.0, once.1, total, distinct);
    assert(twice.1 =~= once.1);
    assert(twice.0 =~= once.0);
}

// ---------------------------------------------------------------------------
// The parsed line, as spec-level views.
// ---------------------------------------------------------------------------

pub open spec fn total_region_start(s: Seq<char>) -> int {
    total_start(s, s.len() as int)
}

pub open spec fn stems_region(s: Seq<char>) -> Seq<char> {
    s.subrange(2, total_region_start(s))
}

pub open spec fn design_pairs(s: Seq<char>) -> Seq<(int, int)> {
    pairs_from(stems_region(s), 0)
}

pub open spec fn design_total(s: Seq<char>) -> int {
    num_val(s.subrange(total_region_start(s), s.len() as int))
}

pub open spec fn raw_bounds(s: Seq<char>) -> (Seq<u16>, Seq<u16>) {
    apply_pairs(zero_counts(), zero_counts(), design_pairs(s))
}

pub open spec fn design_distinct(s: Seq<char>) -> int {
    count_pos(raw_bounds(s).0, SPECIES_COUNT as int)
}

pub open spec fn design_mins(s: Seq<char>) -> Seq<u16> {
    normalize_bounds(
        raw_bounds(s).0,
        raw_bounds(s).1,
        design_total(s) as u16,
        design_distinct(s),
    ).0
}

pub open spec fn design_maxs(s: Seq<char>) -> Seq<u16> {
    normalize_bounds(
        raw_bounds(s).0,
        raw_bounds(s).1,
        design_total(s) as u16,
        design_distinct(s),
    ).1
}

pub open spec fn design_size(s: Seq<char>) -> Size {
    if s[1] == 'S' {
        Size::Small
    } else {
        Size::Large
    }
}

/// Exactly when a line parses: the two-character header, a digit at the
/// end, and every count small enough for the count type.
pub open spec fn parse_ok(s: Seq<char>) -> bool {
    &&& s.len() >= 3
    &&& is_upper_char(s[0])
    &&& (s[1] == 'S' || s[1] == 'L')
    &&& is_digit_char(s[s.len() - 1])
    &&& design_total(s) <= 65535
    &&& pairs_ok(design_pairs(s))
}

// ---------------------------------------------------------------------------
// Reading the line.
// ---------------------------------------------------------------------------

pub proof fn lemma_num_val_nonneg(s: Seq<char>)
    requires
        forall|i: int| 0 <= i < s.len() ==> is_digit_char(#[trigger] s[i]),
    ensures
        num_val(s) >= 0,
    decreases s.len(),
{
    if s.len() > 0 {
        lemma_num_val_nonneg(s.drop_last());
    }
}

pub proof fn lemma_num_val_prefix(s: Seq<char>, i: int)
    requires
        forall|t: int| 0 <= t < s.len() ==> is_digit_char(#[trigger] s[t]),
        0 <= i <= s.len(),
    ensures
        num_val(s.take(i)) <= num_val(s),
    decreases s.len() - i,
{
    if i == s.len() {
        assert(s.take(i) =~= s);
    } else {
        lemma_num_val_prefix(s, i + 1);
        assert(s.take(i + 1).drop_last() =~= s.take(i));
        lemma_num_val_nonneg(s.take(i + 1).drop_last());
        assert(num_val(s.take(i)) <= num_val(s.take(i + 1)));
    }
}

/// Reads the digit run `input[from..to]` as a count; `None` when the value
/// does not fit the count type.
fn parse_num(input: &str, from: usize, to: usize) -> (r: Option<u16>)
    requires
        from <= to <= input@.len(),
        forall|i: int| from <= i < to ==> is_digit_char(#[trigger] input@[i]),
    ensures
        ({
            let v = num_val(input@.subrange(from as int, to as int));
            match r {
                Some(x) => v <= 65535 && x as int == v,
                None => v > 65535,
            }
        }),
{
    let ghost whole = input@.subrange(from as int, to as int);
    let mut acc: u32 = 0;
    let mut i: usize = from;
    assert(input@.subrange(from as int, from as int) =~= whole.take(0));
    while i < to
        invariant
            from <= i <= to <= input@.len(),
            forall|t: int| from <= t < to ==> is_digit_char(#[trigger] input@[t]),
            whole == input@.subrange(from as int, to as int),
            acc as int == num_val(whole.take(i - from)),
            acc <= 65535,
        decreases to - i,
    {
        let c = input.get_char(i);
        let d = c as u32 - 48;
        let acc2 = acc * 10 + d;
        proof {
            assert(whole.take(i + 1 - from).drop_last() =~= whole.take(i - from));
            assert(whole.take(i + 1 - from).last() == input@[i as int]);
        }
        if acc2 > 65535 {
            proof {
                assert(forall|t: int| 0 <= t < whole.len() ==> is_digit_char(#[trigger] whole[t]));
                lemma_num_val_prefix(whole, i + 1 - from);
            }
            return None;
        }
        acc = acc2;
        i = i + 1;
    }
    assert(whole.take(to - from) =~= whole);
    Some(acc as u16)
}

/// Finds where the trailing run of digits begins.
fn find_total_start(input: &str) -> (k: usize)
    requires
        3 <= input@.len(),
    ensures
        2 <= k <= input@.len(),
        k as int == total_region_start(input@),
{
    let ghost sv = input@;
    let n = input.unicode_len();
    let mut k: usize = n;
    loop
        invariant
            3 <= n == sv.len(),
            sv == input@,
            2 <= k <= n,
            total_start(sv, n as int) == total_start(sv, k as int),
        ensures
            2 <= k <= n,
            total_start(sv, n as int) == k as int,
        decreases k,
    {
        if k <= 2 {
            break ;
        }
        let c = input.get_char(k - 1);
        let u = c as u32;
        if !(48 <= u && u <= 57) {
            break ;
        }
        k = k - 1;
    }
    k
}

/// Reads the pair region `input[2..k]` into raw bound vectors.
fn scan_pairs(input: &str, k: usize) -> (r: Option<(SpeciesCounts, SpeciesCounts)>)
    requires
        2 <= k <= input@.len(),
        k as int == total_region_start(input@),
    ensures
        ({
            let ps = design_pairs(input@);
            match r {
                Some(b) => {
                    &&& pairs_ok(ps)
                    &&& b.0.wf()
                    &&& b.1.wf()
                    &&& (b.0@, b.1@) == raw_bounds(input@)
                },
                None => !pairs_ok(ps),
            }
        }),
{
    let ghost sv = input@;
    let ghost region = stems_region(sv);
    let ghost full = pairs_from(region, 0);
    let mut mins = SpeciesCounts::new();
    let mut maxs = SpeciesCounts::new();
    let mut i: usize = 2;
    assert(region =~= sv.subrange(2, k as int));
    loop
        invariant
            sv == input@,
            2 <= k <= sv.len(),
            region == sv.subrange(2, k as int),
            region == stems_region(sv),
            full == pairs_from(region, 0),
            full == design_pairs(sv),
            2 <= i <= k,
            mins.wf(),
            maxs.wf(),
            pairs_ok(full) == pairs_ok(pairs_from(region, i - 2)),
            apply_pairs(mins@, maxs@, pairs_from(region, i - 2)) == apply_pairs(
                zero_counts(),
                zero_counts(),
                full,
            ),
        ensures
            i == k,
            mins.wf(),
            maxs.wf(),
            pairs_ok(full) == pairs_ok(pairs_from(region, i - 2)),
            apply_pairs(mins@, maxs@, pairs_from(region, i - 2)) == apply_pairs(
                zero_counts(),
                zero_counts(),
                full,
            ),
        decreases k - i,
    {
        if i >= k {
            break ;
        }
        let c = input.get_char(i);
        let u = c as u32;
        proof {
            assert(region[i - 2] == sv[i as int]);
        }
        if 48 <= u && u <= 57 {
            // A digit run; find its end.
            let mut j: usize = i + 1;
            proof {
                assert(digit_end(region, i - 2) == digit_end(region, i - 1));
            }
            loop
                invariant
                    sv == input@,
                    2 <= k <= sv.len(),
                    region == sv.subrange(2, k as int),
                    i + 1 <= j <= k,
                    digit_end(region, i - 2) == digit_end(region, j - 2),
                ensures
                    i + 1 <= j <= k,
                    digit_end(region, i - 2) == j - 2,
                decreases k - j,
            {
                if j >= k {
                    assert(digit_end(region, j - 2) == j - 2);
                    break ;
                }
                let cj = input.get_char(j);
                let uj = cj as u32;
                proof {
                    assert(region[j - 2] == sv[j as int]);
                }
                if !(48 <= uj && uj <= 57) {
                    assert(digit_end(region, j - 2) == j - 2);
                    break ;
                }
                proof {
                    assert(digit_end(region, j - 2) == digit_end(region, j - 1));
                }
                j = j + 1;
            }
            proof {
                lemma_digit_end_bounds(region, i - 2);
            }
            if j < k {
                let cs = input.get_char(j);
                let us = cs as u32;
                proof {
                    assert(region[j - 2] == sv[j as int]);
                }
                if 97 <= us && us <= 122 {
                    // A (count, species) pair.
                    let ghost ps_here = pairs_from(region, i - 2);
                    proof {
                        assert(ps_here == seq![
                            (region[j - 2] as int - 97, num_val(region.subrange(i - 2, j - 2))),
                        ] + pairs_from(region, j - 1));
                        assert(region.subrange(i - 2, j - 2) =~= sv.subrange(i as int, j as int));
                        assert(forall|t: int|
                            i <= t < j ==> is_digit_char(#[trigger] sv[t])) by {
                            assert(forall|t: int|
                                i - 2 <= t < j - 2 ==> is_digit_char(#[trigger] region[t]));
                            assert(forall|t: int|
                                i <= t < j ==> region[t - 2] == sv[t] && is_digit_char(
                                    region[t - 2],
                                ));
                        }
                    }
                    match parse_num(input, i, j) {
                        None => {
                            proof {
                                assert(ps_here[0].1 > 65535);
                                assert(!pairs_ok(ps_here));
                                assert(!pairs_ok(full));
                                assert(design_pairs(input@) == full);
                            }
                            return None;
                        },
                        Some(v) => {
                            let sp = char_to_stem_index(cs);
                            proof {
                                assert(ps_here[0] == (sp as int, v as int));
                                assert(ps_here.drop_first() =~= pairs_from(region, j - 1));
                                assert(apply_pairs(mins@, maxs@, ps_here) == apply_pairs(
                                    mins@.update(sp as int, 1u16),
                                    maxs@.update(sp as int, v),
                                    pairs_from(region, j - 1),
                                ));
                                assert(pairs_ok(ps_here) == pairs_ok(pairs_from(region, j - 1)))
                                    by {
                                    assert(forall|p: int|
                                        0 <= p < pairs_from(region, j - 1).len()
                                            ==> #[trigger] pairs_from(region, j - 1)[p]
                                            == ps_here[p + 1]);
                                }
                            }
                            mins.set(sp, 1);
                            maxs.set(sp, v);
                            i = j + 1;
                        },
                    }
                } else {
                    // A digit run not naming a species; skip it.
                    proof {
                        assert(pairs_from(region, i - 2) == pairs_from(region, j - 2));
                    }
                    i = j;
                }
            } else {
                proof {
                    assert(j - 2 == region.len());
                    assert(pairs_from(region, i - 2) == pairs_from(region, j - 2));
                }
                i = j;
            }
        } else {
            proof {
                assert(pairs_from(region, i - 2) == pairs_from(region, i - 1));
            }
            i = i + 1;
        }
    }
    proof {
        assert(pairs_from(region, i - 2) =~= Seq::<(int, int)>::empty());
        assert(apply_pairs(mins@, maxs@, pairs_from(region, i - 2)) == (mins@, maxs@));
    }
    Some((mins, maxs))
}

pub proof fn lemma_total_start_props(s: Seq<char>, i: int)
    requires
        2 <= i <= s.len(),
    ensures
        2 <= total_start(s, i) <= i,
        forall|t: int| total_start(s, i) <= t < i ==> is_digit_char(#[trigger] s[t]),
    decreases i,
{
    if i > 2 && is_digit_char(s[i - 1]) {
        lemma_total_start_props(s, i - 1);
    }
}

/// Applies both tightening passes of §normalization to freshly read bounds.
fn tighten(mins: &mut SpeciesCounts, maxs: &mut SpeciesCounts, total: u16)
    requires
        old(mins).wf(),
        old(maxs).wf(),
    ensures
        final(mins).wf(),
        final(maxs).wf(),
        ({
            let nb = normalize_bounds(
                old(mins)@,
                old(maxs)@,
                total,
                count_pos(old(mins)@, SPECIES_COUNT as int),
            );
            final(mins)@ == nb.0 && final(maxs)@ == nb.1
        }),
        forall|s: int|
            0 <= s < SPECIES_COUNT && final(maxs)@[s] > 0 ==> final(mins)@[s] >= 1,
{
    let ghost m0 = mins@;
    let ghost x0 = maxs@;
    // Count the distinct named species.
    let mut distinct: u32 = 0;
    let mut s: usize = 0;
    while s < SPECIES_COUNT
        invariant
            mins.wf(),
            mins@ == m0,
            s <= SPECIES_COUNT,
            distinct as int == count_pos(m0, s as int),
            distinct <= s,
        decreases SPECIES_COUNT - s,
    {
        if mins.get(s) > 0 {
            distinct = distinct + 1;
        }
        s = s + 1;
    }
    let ghost capv = species_cap(total, distinct as int);
    // Pass one: cap each species' maximum.
    let cap: i32 = 1 + total as i32 - distinct as i32;
    let mut s: usize = 0;
    while s < SPECIES_COUNT
        invariant
            maxs.wf(),
            x0.len() == SPECIES_COUNT,
            cap as int == capv,
            s <= SPECIES_COUNT,
            forall|j: int| 0 <= j < s ==> maxs@[j] == cap_at(x0[j], capv),
            forall|j: int| s <= j < SPECIES_COUNT ==> maxs@[j] == x0[j],
        decreases SPECIES_COUNT - s,
    {
        let xv = maxs.get(s);
        if xv as i32 > cap {
            maxs.set(
                s,
                if cap >= 0 {
                    cap as u16
                } else {
                    0
                },
            );
        }
        s = s + 1;
    }
    let ghost cm = capped_maxs(x0, capv);
    proof {
        assert(maxs@ =~= cm);
    }
    // Pass two: recompute each named species' minimum from the ceilings.
    let sum_max: u32 = maxs.sum();
    let mut s: usize = 0;
    while s < SPECIES_COUNT
        invariant
            mins.wf(),
            maxs.wf(),
            maxs@ == cm,
            m0.len() == SPECIES_COUNT,
            sum_max as int == sum_of(cm),
            s <= SPECIES_COUNT,
            forall|j: int| 0 <= j < s ==> mins@[j] == tightened_mins(m0, cm)[j],
            forall|j: int| s <= j < SPECIES_COUNT ==> mins@[j] == m0[j],
        decreases SPECIES_COUNT - s,
    {
        let xv = maxs.get(s);
        if xv != 0 {
            proof {
                crate::species::lemma_sum_of_elem_le(cm, s as int);
            }
            let others: u32 = sum_max - xv as u32;
            let mv: u16 = if xv as u32 > others {
                (xv as u32 - others) as u16
            } else {
                1
            };
            assert(mv == tight_min(cm[s as int], sum_of(cm) - cm[s as int]));
            mins.set(s, mv);
        }
        s = s + 1;
    }
    proof {
        assert(mins@ =~= tightened_mins(m0, cm));
        assert forall|j: int| 0 <= j < SPECIES_COUNT && maxs@[j] > 0 implies mins@[j] >= 1 by {
            crate::species::lemma_sum_of_elem_le(cm, j);
            assert(mins@[j] == tight_min(cm[j], sum_of(cm) - cm[j]));
        }
    }
}

// ---------------------------------------------------------------------------
// The design itself.
// ---------------------------------------------------------------------------

/// An immutable recipe: a name, a size class, a required total, and
/// per-species minimum/maximum bounds, tightened at construction.
pub struct Design {
    pub name: char,
    pub size: Size,
    pub total: u16,
    pub min_stems: SpeciesCounts,
    pub max_stems: SpeciesCounts,
}

impl Design {
    /// Both bound vectors span the alphabet, and every species with a
    /// positive ceiling also has a positive floor.
    pub open spec fn wf(&self) -> bool {
        &&& self.min_stems.wf()
        &&& self.max_stems.wf()
        &&& forall|s: int|
            0 <= s < SPECIES_COUNT && self.max_stems@[s] > 0 ==> self.min_stems@[s] >= 1
    }

    /// Parses one specification line into a tightened design; `None`
    /// exactly when the line is malformed.
    pub fn from_str(input: &str) -> (r: Option<Design>)
        ensures
            match r {
                Some(d) => {
                    &&& parse_ok(input@)
                    &&& d.wf()
                    &&& d.name == input@[0]
                    &&& d.size == design_size(input@)
                    &&& d.total as int == design_total(input@)
                    &&& d.min_stems@ == design_mins(input@)
                    &&& d.max_stems@ == design_maxs(input@)
                },
                None => !parse_ok(input@),
            },
    {
        let ghost sv = input@;
        let n = input.unicode_len();
        if n < 3 {
            return None;
        }
        let c0 = input.get_char(0);
        let u0 = c0 as u32;
        if !(65 <= u0 && u0 <= 90) {
            return None;
        }
        let c1 = input.get_char(1);
        let size = match Size::from_marker(c1) {
            Some(sz) => sz,
            None => {
                return None;
            },
        };
        let cl = input.get_char(n - 1);
        let ul = cl as u32;
        if !(48 <= ul && ul <= 57) {
            return None;
        }
        let k = find_total_start(input);
        proof {
            lemma_total_start_props(sv, n as int);
        }
        let total = match parse_num(input, k, n) {
            Some(t) => t,
            None => {
                return None;
            },
        };
        let bounds = scan_pairs(input, k);
        let (mut mins, mut maxs) = match bounds {
            Some(b) => b,
            None => {
                return None;
            },
        };
        proof {
            assert((mins@, maxs@) == raw_bounds(sv));
            assert(mins@ == raw_bounds(sv).0 && maxs@ == raw_bounds(sv).1);
        }
        tighten(&mut mins, &mut maxs, total);
        Some(Design { name: c0, size, total, min_stems: mins, max_stems: maxs })
    }
}

} // verus!
