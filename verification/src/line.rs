use vstd::multiset::Multiset;
use vstd::pervasive::VecAdditionalExecFns;
use vstd::prelude::*;

use crate::design::Design;
use crate::size::Size;
use crate::species::{
    le_counts, min_counts, sub_counts, sum_of, zero_counts, SpeciesCounts, SPECIES_COUNT,
};

verus! {

// ---------------------------------------------------------------------------
// The matching model: what one stem arrival does, as spec-level functions.
// ---------------------------------------------------------------------------

/// A design is satisfiable from the given stock when grabbing up to its
/// per-species maxima yields enough stems in total and at least each
/// species' minimum.
pub open spec fn satisfiable(stems: Seq<u16>, d: Design) -> bool {
    let g = min_counts(stems, d.max_stems@);
    sum_of(g) >= d.total as int && le_counts(d.min_stems@, g)
}

/// Returns surplus stems to stock, walking species from the lowest index:
/// each species gives back as much of the remaining excess as it can spare
/// above its minimum.
pub open spec fn give_back(g: Seq<u16>, mins: Seq<u16>, excess: int, s: int) -> Seq<u16>
    decreases SPECIES_COUNT - s,
{
    if s < 0 || s >= SPECIES_COUNT || excess <= 0 {
        g
    } else {
        let room = g[s] - mins[s];
        let ret = if excess <= room {
            excess
        } else {
            room
        };
        if ret > 0 {
            give_back(g.update(s, (g[s] - ret) as u16), mins, excess - ret, s + 1)
        } else {
            give_back(g, mins, excess, s + 1)
        }
    }
}

/// The exact vector of stems a satisfiable design withdraws: the greedy
/// grab with its excess returned.
pub open spec fn withdrawn(stems: Seq<u16>, d: Design) -> Seq<u16> {
    let g = min_counts(stems, d.max_stems@);
    give_back(g, d.min_stems@, sum_of(g) - d.total as int, 0)
}

/// The first design in candidate order that is satisfiable.
pub open spec fn first_sat(stems: Seq<u16>, designs: Seq<Design>, list: Seq<usize>) -> Option<
    usize,
>
    decreases list.len(),
{
    if list.len() == 0 {
        None
    } else if satisfiable(stems, designs[list[0] as int]) {
        Some(list[0])
    } else {
        first_sat(stems, designs, list.drop_first())
    }
}

/// The (count, species index) pairs of a bundle, ascending by species,
/// listing only species with a positive count; built over `g[..n]`.
pub open spec fn pairs_upto(g: Seq<u16>, n: int) -> Seq<(u16, usize)>
    decreases n,
{
    if n <= 0 {
        Seq::empty()
    } else {
        pairs_upto(g, n - 1) + if g[n - 1] == 0 {
            Seq::empty()
        } else {
            seq![(g[n - 1], (n - 1) as usize)]
        }
    }
}

pub open spec fn bundle_pairs(g: Seq<u16>) -> Seq<(u16, usize)> {
    pairs_upto(g, SPECIES_COUNT as int)
}

// ---------------------------------------------------------------------------
// Emitted bundles.
// ---------------------------------------------------------------------------

/// The result of one successful match: the design's name and size class,
/// and the exact withdrawn stems as (count, species index) pairs in
/// ascending species order.
pub struct Bundle {
    pub name: char,
    pub size: Size,
    pub stems: Vec<(u16, usize)>,
}

// ---------------------------------------------------------------------------
// One size class's inventory and matching engine.
// ---------------------------------------------------------------------------

/// On-hand stems plus the registered designs of one size class, with a
/// per-species index of candidate designs and a per-species watermark used
/// to skip hopeless arrivals.
pub struct ProductionLine {
    pub stems: SpeciesCounts,
    pub designs: Vec<Design>,
    pub designs_per_stem: Vec<Vec<usize>>,
    pub max_per_stem: SpeciesCounts,
}

pub open spec fn max_u16(a: u16, b: u16) -> u16 {
    if a >= b {
        a
    } else {
        b
    }
}

impl ProductionLine {
    pub open spec fn row_view(self, s: int) -> Seq<usize> {
        self.designs_per_stem@[s]@
    }

    pub open spec fn watermark_view(self) -> Seq<u16> {
        self.max_per_stem@
    }

    pub open spec fn wf(&self) -> bool {
        &&& self.stems.wf()
        &&& self.max_per_stem.wf()
        &&& self.designs_per_stem@.len() == SPECIES_COUNT
        &&& forall|i: int| 0 <= i < self.designs@.len() ==> (#[trigger] self.designs@[i]).wf()
        &&& forall|i: int|
            0 <= i < self.designs@.len() ==> sum_of(
                (#[trigger] self.designs@[i]).min_stems@,
            ) <= self.designs@[i].total as int
        &&& forall|s: int, j: int|
            0 <= s < SPECIES_COUNT && 0 <= j < self.row_view(s).len() ==> (#[trigger] self.row_view(
                s,
            )[j]) < self.designs@.len()
        &&& forall|s: int| 0 <= s < SPECIES_COUNT ==> (#[trigger] self.row_view(s)).no_duplicates()
        &&& forall|s: int, i: int|
            0 <= s < SPECIES_COUNT && 0 <= i < self.designs@.len() ==> ((
            #[trigger] self.designs@[i].max_stems@[s]) > 0 <==> self.row_view(s).contains(
                i as usize,
            ))
        &&& forall|s: int, i: int|
            0 <= s < SPECIES_COUNT && 0 <= i < self.designs@.len() ==> (
            #[trigger] self.designs@[i].max_stems@[s]) <= self.max_per_stem@[s]
    }

    /// Candidate lists stand in matching order: ascending required total,
    /// ties by registration order.
    pub open spec fn candidates_sorted(&self) -> bool {
        forall|s: int, j1: int, j2: int|
            0 <= s < SPECIES_COUNT && 0 <= j1 < j2 < self.row_view(s).len()
                ==> design_key_lt(
                self.designs@,
                #[trigger] self.row_view(s)[j1] as int,
                #[trigger] self.row_view(s)[j2] as int,
            )
    }

    /// The design matched by a stem of species `s` arriving now, if any.
    pub open spec fn arrival_match(self, s: int) -> Option<usize> {
        let s1 = self.stems@.update(s, (self.stems@[s] + 1) as u16);
        if s1[s] > self.max_per_stem@[s] {
            None
        } else {
            first_sat(s1, self.designs@, self.row_view(s))
        }
    }

    /// The stock after a stem of species `s` arrives: incremented, then
    /// reduced by the withdrawal when a design matches.
    pub open spec fn arrival_stems(self, s: int) -> Seq<u16> {
        let s1 = self.stems@.update(s, (self.stems@[s] + 1) as u16);
        match self.arrival_match(s) {
            None => s1,
            Some(i) => sub_counts(s1, withdrawn(s1, self.designs@[i as int])),
        }
    }
}

/// Strict candidate order: smaller required total first, ties by earlier
/// registration.
pub open spec fn design_key_lt(designs: Seq<Design>, a: int, b: int) -> bool {
    ||| designs[a].total < designs[b].total
    ||| (designs[a].total == designs[b].total && a < b)
}

/// The reflexive candidate order.
pub open spec fn design_key_le(designs: Seq<Design>, a: int, b: int) -> bool {
    ||| designs[a].total < designs[b].total
    ||| (designs[a].total == designs[b].total && a <= b)
}

/// One candidate list in strict matching order.
pub open spec fn row_sorted(designs: Seq<Design>, r: Seq<usize>) -> bool {
    forall|j1: int, j2: int|
        0 <= j1 < j2 < r.len() ==> design_key_lt(designs, r[j1] as int, r[j2] as int)
}

/// Sorts a candidate list by ascending required total, ties by earlier
/// registration: selection sort into a fresh list.
fn sort_row(designs: &Vec<Design>, row: &Vec<usize>) -> (r: Vec<usize>)
    requires
        forall|j: int| 0 <= j < row@.len() ==> (#[trigger] row@[j]) < designs@.len(),
        row@.no_duplicates(),
    ensures
        r@.to_multiset() == row@.to_multiset(),
        r@.len() == row@.len(),
        forall|j: int| 0 <= j < r@.len() ==> (#[trigger] r@[j]) < designs@.len(),
        row_sorted(designs@, r@),
        r@.no_duplicates(),
{
    proof {
        broadcast use vstd::seq_lib::group_to_multiset_ensures;

        row@.lemma_multiset_has_no_duplicates();
    }
    let mut rest: Vec<usize> = Vec::new();
    let mut t: usize = 0;
    while t < row.len()
        invariant
            t <= row@.len(),
            rest@ == row@.take(t as int),
        decreases row@.len() - t,
    {
        rest.push(row[t]);
        proof {
            assert(row@.take(t + 1) =~= row@.take(t as int).push(row@[t as int]));
        }
        t = t + 1;
    }
    assert(rest@ =~= row@);
    let mut out: Vec<usize> = Vec::new();
    proof {
        assert(out@.to_multiset().add(rest@.to_multiset()) =~= row@.to_multiset());
    }
    while rest.len() > 0
        invariant
            forall|j: int| 0 <= j < rest@.len() ==> (#[trigger] rest@[j]) < designs@.len(),
            forall|j: int| 0 <= j < out@.len() ==> (#[trigger] out@[j]) < designs@.len(),
            out@.to_multiset().add(rest@.to_multiset()) == row@.to_multiset(),
            row_sorted(designs@, out@),
            forall|a: int, q: int|
                0 <= a < out@.len() && 0 <= q < rest@.len() ==> design_key_le(
                    designs@,
                    #[trigger] out@[a] as int,
                    #[trigger] rest@[q] as int,
                ),
            forall|x: usize| row@.to_multiset().contains(x) ==> row@.to_multiset().count(x) == 1,
        decreases rest@.len(),
    {
        proof {
            broadcast use vstd::seq_lib::group_to_multiset_ensures;

        }
        let mut m: usize = 0;
        let mut p: usize = 1;
        while p < rest.len()
            invariant
                rest@.len() > 0,
                m < p <= rest@.len(),
                forall|j: int| 0 <= j < rest@.len() ==> (#[trigger] rest@[j]) < designs@.len(),
                forall|q: int|
                    0 <= q < p ==> design_key_le(
                        designs@,
                        rest@[m as int] as int,
                        #[trigger] rest@[q] as int,
                    ),
            decreases rest@.len() - p,
        {
            let rp = rest[p];
            let rm = rest[m];
            let tp = designs[rp].total;
            let tm = designs[rm].total;
            if tp < tm || (tp == tm && rp < rm) {
                m = p;
            }
            p = p + 1;
        }
        let ghost rest0 = rest@;
        let ghost out0 = out@;
        let x = rest.remove(m);
        out.push(x);
        proof {
            assert(rest@ == rest0.remove(m as int));
            assert(rest@.to_multiset() == rest0.to_multiset().remove(x));
            assert(out@.to_multiset() == out0.to_multiset().insert(x));
            assert(rest0.to_multiset().count(x) > 0) by {
                assert(rest0[m as int] == x);
                assert(rest0.contains(x));
            }
            assert(out@.to_multiset().add(rest@.to_multiset()) =~= row@.to_multiset());
            rest0.remove_ensures(m as int);
            // The popped minimum is distinct from everything already placed.
            assert(out0.to_multiset().count(x) == 0) by {
                assert(row@.to_multiset().count(x) == out0.to_multiset().count(x)
                    + rest0.to_multiset().count(x));
                assert(row@.to_multiset().contains(x));
            }
            assert forall|j1: int, j2: int| 0 <= j1 < j2 < out@.len() implies design_key_lt(
                designs@,
                out@[j1] as int,
                out@[j2] as int,
            ) by {
                if j2 == out@.len() - 1 {
                    assert(out@[j2] == x);
                    assert(design_key_le(designs@, out0[j1] as int, x as int));
                    assert(out0[j1] != x) by {
                        if out0[j1] == x {
                            assert(out0.contains(x));
                        }
                    }
                } else {
                    assert(design_key_lt(designs@, out0[j1] as int, out0[j2] as int));
                }
            }
            assert forall|a: int, q: int|
                0 <= a < out@.len() && 0 <= q < rest@.len() implies design_key_le(
                designs@,
                #[trigger] out@[a] as int,
                #[trigger] rest@[q] as int,
            ) by {
                let e = rest@[q];
                assert(e == rest0[q] || e == rest0[q + 1]);
                assert(design_key_le(designs@, x as int, e as int));
                if a < out0.len() {
                    assert(design_key_le(designs@, out0[a] as int, e as int));
                } else {
                    assert(out@[a] == x);
                }
            }
        }
    }
    proof {
        broadcast use vstd::seq_lib::group_to_multiset_ensures;

        assert(rest@ =~= Seq::<usize>::empty());
        assert(rest@.to_multiset() =~= Multiset::<usize>::empty());
        assert(out@.to_multiset() =~= row@.to_multiset());
        assert(out@.to_multiset().len() == row@.to_multiset().len());
        out@.lemma_multiset_has_no_duplicates_conv();
    }
    out
}

impl Default for ProductionLine {
    /// An empty inventory: no stock, no designs.
    fn default() -> (r: Self)
        ensures
            r.wf(),
            r.designs@.len() == 0,
            r.stems@ == zero_counts(),
            r.watermark_view() == zero_counts(),
            forall|s: int| 0 <= s < SPECIES_COUNT ==> (#[trigger] r.row_view(s)).len() == 0,
    {
        let mut designs_per_stem: Vec<Vec<usize>> = Vec::new();
        let mut s: usize = 0;
        while s < SPECIES_COUNT
            invariant
                s <= SPECIES_COUNT,
                designs_per_stem@.len() == s,
                forall|j: int| 0 <= j < s ==> (#[trigger] designs_per_stem@[j]@).len() == 0,
            decreases SPECIES_COUNT - s,
        {
            designs_per_stem.push(Vec::new());
            s = s + 1;
        }
        ProductionLine {
            stems: SpeciesCounts::new(),
            designs: Vec::new(),
            designs_per_stem,
            max_per_stem: SpeciesCounts::new(),
        }
    }
}

impl ProductionLine {
    /// Appends a registered design: it joins the candidate list of every
    /// species it can use, and raises those species' watermarks.
    pub fn add_design(&mut self, design: Design)
        requires
            old(self).wf(),
            design.wf(),
            sum_of(design.min_stems@) <= design.total as int,
        ensures
            final(self).wf(),
            final(self).designs@ == old(self).designs@.push(design),
            final(self).stems@ == old(self).stems@,
            forall|s: int|
                0 <= s < SPECIES_COUNT ==> final(self).watermark_view()[s] == max_u16(
                    old(self).watermark_view()[s],
                    design.max_stems@[s],
                ),
            forall|s: int|
                0 <= s < SPECIES_COUNT ==> #[trigger] final(self).row_view(s) == (
                if design.max_stems@[s] > 0 {
                    old(self).row_view(s).push(old(self).designs@.len() as usize)
                } else {
                    old(self).row_view(s)
                }),
    {
        let idx = self.designs.len();
        let mut s: usize = 0;
        while s < SPECIES_COUNT
            invariant
                old(self).wf(),
                design.wf(),
                s <= SPECIES_COUNT,
                self.designs@ == old(self).designs@,
                self.stems@ == old(self).stems@,
                self.designs_per_stem@.len() == SPECIES_COUNT,
                self.max_per_stem.wf(),
                idx == old(self).designs@.len(),
                forall|j: int|
                    0 <= j < s ==> self.watermark_view()[j] == max_u16(
                        old(self).watermark_view()[j],
                        design.max_stems@[j],
                    ),
                forall|j: int|
                    s <= j < SPECIES_COUNT ==> self.watermark_view()[j] == old(
                        self,
                    ).watermark_view()[j],
                forall|j: int|
                    0 <= j < s ==> #[trigger] self.row_view(j) == (if design.max_stems@[j] > 0 {
                        old(self).row_view(j).push(idx)
                    } else {
                        old(self).row_view(j)
                    }),
                forall|j: int| s <= j < SPECIES_COUNT ==> self.row_view(j) == old(self).row_view(j),
            decreases SPECIES_COUNT - s,
        {
            let ghost pre = *self;
            let amount = design.max_stems.get(s);
            if amount != 0 {
                let cur = self.max_per_stem.get(s);
                if amount > cur {
                    self.max_per_stem.set(s, amount);
                }
                let mut row: Vec<usize> = Vec::new();
                self.designs_per_stem.set_and_swap(s, &mut row);
                row.push(idx);
                self.designs_per_stem.set_and_swap(s, &mut row);
            }
            proof {
                assert(self.max_per_stem@[s as int] == max_u16(
                    pre.max_per_stem@[s as int],
                    design.max_stems@[s as int],
                ));
                assert(design.max_stems@[s as int] > 0 ==> self.row_view(s as int) == pre.row_view(
                    s as int,
                ).push(idx));
                assert(design.max_stems@[s as int] == 0 ==> self.designs_per_stem@[s as int]
                    == pre.designs_per_stem@[s as int]);
                assert forall|j: int| 0 <= j < s + 1 implies self.watermark_view()[j] == max_u16(
                    old(self).watermark_view()[j],
                    design.max_stems@[j],
                ) by {
                    if j < s {
                        assert(self.watermark_view()[j] == pre.watermark_view()[j]);
                        assert(pre.watermark_view()[j] == max_u16(
                            old(self).watermark_view()[j],
                            design.max_stems@[j],
                        ));
                    } else {
                        assert(pre.watermark_view()[j] == old(self).watermark_view()[j]);
                    }
                }
                assert forall|j: int| 0 <= j < s + 1 implies #[trigger] self.row_view(j) == (
                if design.max_stems@[j] > 0 {
                    old(self).row_view(j).push(idx)
                } else {
                    old(self).row_view(j)
                }) by {
                    if j < s {
                        assert(self.designs_per_stem@[j] == pre.designs_per_stem@[j]);
                        assert(pre.row_view(j) == (if design.max_stems@[j] > 0 {
                            old(self).row_view(j).push(idx)
                        } else {
                            old(self).row_view(j)
                        }));
                    } else {
                        assert(pre.row_view(j) == old(self).row_view(j));
                    }
                }
            }
            s = s + 1;
        }
        let ghost mid = *self;
        self.designs.push(design);
        proof {
            let pre = old(self);
            let post = *self;
            assert forall|s2: int| 0 <= s2 < SPECIES_COUNT implies post.row_view(s2)
                == mid.row_view(s2) by {
                assert(post.designs_per_stem@[s2] == mid.designs_per_stem@[s2]);
            }
            assert forall|s2: int| 0 <= s2 < SPECIES_COUNT implies post.watermark_view()[s2]
                == max_u16(pre.watermark_view()[s2], design.max_stems@[s2]) by {
                assert(mid.watermark_view()[s2] == max_u16(
                    pre.watermark_view()[s2],
                    design.max_stems@[s2],
                ));
            }
            assert(post.stems@ == pre.stems@ && post.stems.wf()) by {
                assert(mid.stems@ == pre.stems@);
            }
            assert(post.max_per_stem.wf()) by {
                assert(mid.max_per_stem.wf());
            }
            assert forall|i: int|
                0 <= i < post.designs@.len() implies (#[trigger] post.designs@[i]).wf() && sum_of(
                post.designs@[i].min_stems@,
            ) <= post.designs@[i].total as int by {
                if i < pre.designs@.len() {
                    assert(pre.designs@[i].wf());
                    assert(sum_of(pre.designs@[i].min_stems@) <= pre.designs@[i].total as int);
                }
            }
            assert forall|s2: int, j: int|
                0 <= s2 < SPECIES_COUNT && 0 <= j < post.row_view(s2).len() implies (
            #[trigger] post.row_view(s2)[j]) < post.designs@.len() by {
                let r0 = pre.row_view(s2);
                if design.max_stems@[s2] > 0 {
                    assert(post.row_view(s2) == r0.push(idx));
                    if j < r0.len() {
                        assert(r0[j] < pre.designs@.len());
                    }
                } else {
                    assert(post.row_view(s2) == r0);
                    assert(r0[j] < pre.designs@.len());
                }
            }
            assert forall|s2: int, i: int|
                0 <= s2 < SPECIES_COUNT && 0 <= i < post.designs@.len() implies (
            #[trigger] post.designs@[i].max_stems@[s2]) <= post.max_per_stem@[s2] by {
                if i < pre.designs@.len() {
                    assert(pre.designs@[i].max_stems@[s2] <= pre.max_per_stem@[s2]);
                }
                assert(post.watermark_view()[s2] == max_u16(
                    pre.watermark_view()[s2],
                    design.max_stems@[s2],
                ));
            }
            assert forall|s2: int| 0 <= s2 < SPECIES_COUNT implies (#[trigger] post.row_view(
                s2,
            )).no_duplicates() by {
                if design.max_stems@[s2] > 0 {
                    let r0 = pre.row_view(s2);
                    let r1 = post.row_view(s2);
                    assert(r1 == r0.push(idx));
                    assert forall|a: int, b: int| 0 <= a < b < r1.len() implies r1[a] != r1[b] by {
                        if b < r0.len() {
                            assert(r0.no_duplicates());
                        } else {
                            assert(r1[b] == idx);
                            assert(r1[a] == r0[a]);
                            assert(r0[a] < pre.designs@.len());
                        }
                    }
                }
            }
            assert forall|s2: int, i: int|
                0 <= s2 < SPECIES_COUNT && 0 <= i < post.designs@.len() implies ((
            #[trigger] post.designs@[i].max_stems@[s2]) > 0 <==> post.row_view(s2).contains(
                i as usize,
            )) by {
                let r0 = pre.row_view(s2);
                let r1 = post.row_view(s2);
                if i < pre.designs@.len() {
                    assert(post.designs@[i] == pre.designs@[i]);
                    if design.max_stems@[s2] > 0 {
                        assert(r1 == r0.push(idx));
                        if pre.designs@[i].max_stems@[s2] > 0 {
                            let w = choose|w: int| 0 <= w < r0.len() && r0[w] == i as usize;
                            assert(r1[w] == i as usize);
                        }
                        if r1.contains(i as usize) {
                            let w = choose|w: int| 0 <= w < r1.len() && r1[w] == i as usize;
                            assert(w < r0.len());
                            assert(r0.contains(i as usize));
                        }
                    } else {
                        assert(r1 == r0);
                    }
                } else {
                    assert(i == idx);
                    assert(post.designs@[i] == design);
                    if design.max_stems@[s2] > 0 {
                        assert(r1 == r0.push(idx));
                        assert(r1[r1.len() - 1] == idx);
                        assert(r1.contains(i as usize));
                    } else {
                        assert(r1 == r0);
                        if r1.contains(i as usize) {
                            let w = choose|w: int| 0 <= w < r1.len() && r1[w] == i as usize;
                            assert(r0[w] < pre.designs@.len());
                            assert(false);
                        }
                    }
                }
            }
        }
    }
}

/// Changing on-hand stock alone cannot break an inventory's shape.
proof fn lemma_wf_stems_change(a: ProductionLine, b: ProductionLine)
    requires
        a.wf(),
        b.stems.wf(),
        b.designs@ == a.designs@,
        b.designs_per_stem@ == a.designs_per_stem@,
        b.max_per_stem@ == a.max_per_stem@,
    ensures
        b.wf(),
{
    assert(b.max_per_stem.wf()) by {
        assert(a.max_per_stem.wf());
    }
    assert forall|i: int| 0 <= i < b.designs@.len() implies (#[trigger] b.designs@[i]).wf()
        && sum_of(b.designs@[i].min_stems@) <= b.designs@[i].total as int by {
        assert(a.designs@[i].wf());
        assert(sum_of(a.designs@[i].min_stems@) <= a.designs@[i].total as int);
    }
    assert forall|s: int, j: int|
        0 <= s < SPECIES_COUNT && 0 <= j < b.row_view(s).len() implies (#[trigger] b.row_view(
        s,
    )[j]) < b.designs@.len() by {
        assert(b.row_view(s) == a.row_view(s));
        assert(a.row_view(s)[j] < a.designs@.len());
    }
    assert forall|s: int| 0 <= s < SPECIES_COUNT implies (
    #[trigger] b.row_view(s)).no_duplicates() by {
        assert(b.row_view(s) == a.row_view(s));
        assert(a.row_view(s).no_duplicates());
    }
    assert forall|s: int, i: int|
        0 <= s < SPECIES_COUNT && 0 <= i < b.designs@.len() implies ((
    #[trigger] b.designs@[i].max_stems@[s]) > 0 <==> b.row_view(s).contains(i as usize)) by {
        assert(b.row_view(s) == a.row_view(s));
        assert(a.designs@[i].max_stems@[s] > 0 <==> a.row_view(s).contains(i as usize));
    }
    assert forall|s: int, i: int|
        0 <= s < SPECIES_COUNT && 0 <= i < b.designs@.len() implies (
    #[trigger] b.designs@[i].max_stems@[s]) <= b.max_per_stem@[s] by {
        assert(a.designs@[i].max_stems@[s] <= a.max_per_stem@[s]);
    }
}

impl ProductionLine {
    /// Current on-hand count for one species.
    pub fn stem_count(&self, species: usize) -> (r: u16)
        requires
            self.wf(),
            species < SPECIES_COUNT,
        ensures
            r == self.stems@[species as int],
    {
        self.stems.get(species)
    }

    /// One stem of the given species arrives: the stock is incremented,
    /// the species' candidate designs are tried in order, and the first
    /// satisfiable one — if any — withdraws its stems and emits a bundle.
    pub fn add_stem(&mut self, stem_index: usize) -> (r: Option<Bundle>)
        requires
            old(self).wf(),
            stem_index < SPECIES_COUNT,
            old(self).stems@[stem_index as int] < 65535,
        ensures
            final(self).wf(),
            final(self).designs@ == old(self).designs@,
            final(self).designs_per_stem@ == old(self).designs_per_stem@,
            final(self).watermark_view() == old(self).watermark_view(),
            final(self).stems@ == old(self).arrival_stems(stem_index as int),
            forall|q: int|
                0 <= q < SPECIES_COUNT ==> final(self).stems@[q] <= old(self).stems@[q] + 1,
            old(self).settled() ==> final(self).settled(),
            ({
                let si = stem_index as int;
                let s1 = old(self).stems@.update(si, (old(self).stems@[si] + 1) as u16);
                match old(self).arrival_match(si) {
                    None => r is None,
                    Some(i) => r matches Some(b) && b.name == old(self).designs@[i as int].name
                        && b.size == old(self).designs@[i as int].size && b.stems@ == bundle_pairs(
                        withdrawn(s1, old(self).designs@[i as int]),
                    ),
                }
            }),
    {
        let ghost pre = *self;
        let ghost si = stem_index as int;
        let c: u16 = self.stems.get(stem_index);
        self.stems.set(stem_index, c + 1);
        let ghost s1 = self.stems@;
        if c + 1 > self.max_per_stem.get(stem_index) {
            proof {
                assert(s1[si] > pre.max_per_stem@[si]);
                assert(pre.arrival_match(si) is None);
                lemma_wf_stems_change(pre, *self);
                if pre.settled() {
                    lemma_arrival_preserves_settled(pre, *self, si);
                }
            }
            return None;
        }
        let row_len: usize = self.designs_per_stem[stem_index].len();
        let ghost row = pre.row_view(si);
        let mut pos: usize = 0;
        proof {
            assert(row.skip(0) =~= row);
        }
        while pos < row_len
            invariant
                pre.wf(),
                pre == *old(self),
                stem_index < SPECIES_COUNT,
                si == stem_index as int,
                self.designs@ == pre.designs@,
                self.designs_per_stem@ == pre.designs_per_stem@,
                self.max_per_stem == pre.max_per_stem,
                self.stems@ == s1,
                self.stems.wf(),
                s1 == pre.stems@.update(si, (pre.stems@[si] + 1) as u16),
                pre.stems@[si] < 65535,
                s1.len() == SPECIES_COUNT,
                s1[si] <= pre.max_per_stem@[si],
                row == pre.row_view(si),
                row_len == row.len(),
                pos <= row_len,
                first_sat(s1, pre.designs@, row.skip(pos as int)) == first_sat(
                    s1,
                    pre.designs@,
                    row,
                ),
            decreases row_len - pos,
        {
            let di: usize = self.designs_per_stem[stem_index][pos];
            proof {
                assert(pre.row_view(si)[pos as int] < pre.designs@.len());
                assert(di == row[pos as int]);
                assert(row.skip(pos as int)[0] == row[pos as int]);
            }
            let ghost dd = pre.designs@[di as int];
            let d = &self.designs[di];
            let grabbed0 = self.stems.min_with(&d.max_stems);
            let ghost g0 = grabbed0@;
            let total_grabbed: u32 = grabbed0.sum();
            proof {
                assert(dd.wf());
                assert(g0 == min_counts(s1, dd.max_stems@));
            }
            if total_grabbed < d.total as u32 {
                proof {
                    assert(!satisfiable(s1, dd));
                    assert(row.skip(pos as int).drop_first() =~= row.skip(pos as int + 1));
                }
                pos = pos + 1;
                continue ;
            }
            if grabbed0.any_below(&d.min_stems) {
                proof {
                    assert(!satisfiable(s1, dd));
                    assert(row.skip(pos as int).drop_first() =~= row.skip(pos as int + 1));
                }
                pos = pos + 1;
                continue ;
            }
            // This design is satisfiable: withdraw, returning any excess.
            proof {
                assert(satisfiable(s1, dd));
            }
            let mut grabbed = grabbed0;
            let mut excess: u32 = total_grabbed - d.total as u32;
            let ghost e0 = excess as int;
            let mut sp: usize = 0;
            while sp < SPECIES_COUNT
                invariant
                    dd.wf(),
                    dd == pre.designs@[di as int],
                    *d == dd,
                    g0 == min_counts(s1, dd.max_stems@),
                    e0 == sum_of(g0) - dd.total as int,
                    s1.len() == SPECIES_COUNT,
                    grabbed.wf(),
                    g0.len() == SPECIES_COUNT,
                    sp <= SPECIES_COUNT,
                    le_counts(dd.min_stems@, grabbed@),
                    le_counts(grabbed@, g0),
                    excess >= 0,
                    give_back(grabbed@, dd.min_stems@, excess as int, sp as int) == give_back(
                        g0,
                        dd.min_stems@,
                        e0,
                        0,
                    ),
                ensures
                    grabbed.wf(),
                    le_counts(dd.min_stems@, grabbed@),
                    le_counts(grabbed@, g0),
                    grabbed@ == give_back(g0, dd.min_stems@, e0, 0),
                decreases SPECIES_COUNT - sp,
            {
                if excess == 0 {
                    break ;
                }
                let gv: u16 = grabbed.get(sp);
                let mv: u16 = d.min_stems.get(sp);
                let room: u16 = gv - mv;
                let ghost gb = grabbed@;
                let ghost eb = excess as int;
                if room > 0 {
                    let ret: u16 = if excess < room as u32 {
                        excess as u16
                    } else {
                        room
                    };
                    grabbed.set(sp, gv - ret);
                    excess = excess - ret as u32;
                    proof {
                        assert(give_back(gb, dd.min_stems@, eb, sp as int) == give_back(
                            grabbed@,
                            dd.min_stems@,
                            excess as int,
                            sp as int + 1,
                        ));
                    }
                } else {
                    proof {
                        assert(give_back(gb, dd.min_stems@, eb, sp as int) == give_back(
                            grabbed@,
                            dd.min_stems@,
                            excess as int,
                            sp as int + 1,
                        ));
                    }
                }
                sp = sp + 1;
            }
            proof {
                assert(grabbed@ == withdrawn(s1, dd));
                assert forall|q: int| 0 <= q < SPECIES_COUNT implies grabbed@[q] <= s1[q] by {
                    assert(g0[q] <= s1[q]);
                }
                assert(le_counts(grabbed@, s1));
            }
            let bundle_name: char = d.name;
            let bundle_size: Size = d.size;
            self.stems.subtract(&grabbed);
            let mut pairs: Vec<(u16, usize)> = Vec::new();
            let mut sp2: usize = 0;
            while sp2 < SPECIES_COUNT
                invariant
                    grabbed.wf(),
                    sp2 <= SPECIES_COUNT,
                    pairs@ == pairs_upto(grabbed@, sp2 as int),
                decreases SPECIES_COUNT - sp2,
            {
                let gv: u16 = grabbed.get(sp2);
                if gv != 0 {
                    pairs.push((gv, sp2));
                    proof {
                        assert(pairs@ =~= pairs_upto(grabbed@, sp2 as int) + seq![
                            (grabbed@[sp2 as int], sp2),
                        ]);
                    }
                } else {
                    proof {
                        assert(pairs@ =~= pairs_upto(grabbed@, sp2 as int + 1));
                    }
                }
                sp2 = sp2 + 1;
            }
            proof {
                assert(satisfiable(s1, pre.designs@[row.skip(pos as int)[0] as int]));
                assert(first_sat(s1, pre.designs@, row.skip(pos as int)) == Some(di));
                assert(pre.arrival_match(si) == Some(di));
                assert(self.stems@ == sub_counts(s1, withdrawn(s1, dd)));
                assert(self.stems@ == pre.arrival_stems(si));
                assert(pairs@ == bundle_pairs(withdrawn(s1, dd)));
                lemma_wf_stems_change(pre, *self);
                if pre.settled() {
                    lemma_arrival_preserves_settled(pre, *self, si);
                }
            }
            return Some(Bundle { name: bundle_name, size: bundle_size, stems: pairs });
        }
        proof {
            assert(row.skip(row_len as int) =~= Seq::<usize>::empty());
            assert(first_sat(s1, pre.designs@, row) is None);
            assert(pre.arrival_match(si) is None);
            lemma_wf_stems_change(pre, *self);
            if pre.settled() {
                lemma_arrival_preserves_settled(pre, *self, si);
            }
        }
        None
    }

    /// Sorts every species' candidate list so that designs requiring fewer
    /// stems in total are tried first, ties broken by registration order.
    /// Idempotent; must run after registration and before arrivals.
    pub fn preprocess(&mut self)
        requires
            old(self).wf(),
        ensures
            final(self).wf(),
            final(self).candidates_sorted(),
            final(self).designs@ == old(self).designs@,
            final(self).stems@ == old(self).stems@,
            final(self).watermark_view() == old(self).watermark_view(),
            forall|s: int|
                0 <= s < SPECIES_COUNT ==> (#[trigger] final(self).row_view(s)).to_multiset()
                    == old(self).row_view(s).to_multiset(),
    {
        let mut s: usize = 0;
        while s < SPECIES_COUNT
            invariant
                old(self).wf(),
                s <= SPECIES_COUNT,
                self.designs@ == old(self).designs@,
                self.stems == old(self).stems,
                self.max_per_stem == old(self).max_per_stem,
                self.designs_per_stem@.len() == SPECIES_COUNT,
                forall|j: int|
                    s <= j < SPECIES_COUNT ==> self.designs_per_stem@[j] == old(
                        self,
                    ).designs_per_stem@[j],
                forall|j: int|
                    0 <= j < s ==> (#[trigger] self.row_view(j)).to_multiset() == old(
                        self,
                    ).row_view(j).to_multiset(),
                forall|j: int| 0 <= j < s ==> row_sorted(self.designs@, #[trigger] self.row_view(j)),
                forall|j: int| 0 <= j < s ==> (#[trigger] self.row_view(j)).no_duplicates(),
                forall|j: int, q: int|
                    0 <= j < s && 0 <= q < self.row_view(j).len() ==> (#[trigger] self.row_view(
                        j,
                    )[q]) < self.designs@.len(),
            decreases SPECIES_COUNT - s,
        {
            let ghost pre = *self;
            proof {
                assert(self.designs_per_stem@[s as int] == old(self).designs_per_stem@[s as int]);
                assert(old(self).row_view(s as int).no_duplicates());
                assert forall|q: int| 0 <= q < self.row_view(s as int).len() implies (
                #[trigger] self.row_view(s as int)[q]) < self.designs@.len() by {
                    assert(old(self).row_view(s as int)[q] < old(self).designs@.len());
                }
            }
            let sorted_row = sort_row(&self.designs, &self.designs_per_stem[s]);
            self.designs_per_stem.set(s, sorted_row);
            proof {
                assert forall|j: int| 0 <= j < s + 1 implies (#[trigger] self.row_view(
                    j,
                )).to_multiset() == old(self).row_view(j).to_multiset() && row_sorted(
                    self.designs@,
                    self.row_view(j),
                ) && self.row_view(j).no_duplicates() by {
                    if j < s {
                        assert(self.designs_per_stem@[j] == pre.designs_per_stem@[j]);
                        assert(pre.row_view(j).to_multiset() == old(self).row_view(j).to_multiset());
                        assert(row_sorted(pre.designs@, pre.row_view(j)));
                        assert(pre.row_view(j).no_duplicates());
                    } else {
                        assert(pre.designs_per_stem@[j] == old(self).designs_per_stem@[j]);
                    }
                }
                assert forall|j: int, q: int|
                    0 <= j < s + 1 && 0 <= q < self.row_view(j).len() implies (
                #[trigger] self.row_view(j)[q]) < self.designs@.len() by {
                    if j < s {
                        assert(self.designs_per_stem@[j] == pre.designs_per_stem@[j]);
                        assert(pre.row_view(j)[q] < pre.designs@.len());
                    }
                }
            }
            s = s + 1;
        }
        proof {
            broadcast use vstd::seq_lib::group_to_multiset_ensures;

            let pre = old(self);
            let post = *self;
            assert forall|s2: int, i: int|
                0 <= s2 < SPECIES_COUNT && 0 <= i < post.designs@.len() implies ((
            #[trigger] post.designs@[i].max_stems@[s2]) > 0 <==> post.row_view(s2).contains(
                i as usize,
            )) by {
                assert(pre.designs@[i].max_stems@[s2] > 0 <==> pre.row_view(s2).contains(
                    i as usize,
                ));
                assert(post.row_view(s2).to_multiset() == pre.row_view(s2).to_multiset());
                assert(pre.row_view(s2).contains(i as usize) <==> pre.row_view(
                    s2,
                ).to_multiset().count(i as usize) > 0);
                assert(post.row_view(s2).contains(i as usize) <==> post.row_view(
                    s2,
                ).to_multiset().count(i as usize) > 0);
            }
        }
    }
}

// ---------------------------------------------------------------------------
// Laws of the matching engine.
// ---------------------------------------------------------------------------

/// Spare room above the minima over species `s` and up.
pub open spec fn spare_from(g: Seq<u16>, mins: Seq<u16>, s: int) -> int
    decreases SPECIES_COUNT - s,
{
    if s < 0 || s >= SPECIES_COUNT {
        0
    } else {
        (g[s] - mins[s]) + spare_from(g, mins, s + 1)
    }
}

proof fn lemma_spare_vs_sums(g: Seq<u16>, mins: Seq<u16>, s: int)
    requires
        g.len() == SPECIES_COUNT,
        mins.len() == SPECIES_COUNT,
        0 <= s <= SPECIES_COUNT,
    ensures
        spare_from(g, mins, s) == sum_of(g.skip(s)) - sum_of(mins.skip(s)),
    decreases SPECIES_COUNT - s,
{
    if s == SPECIES_COUNT {
        assert(g.skip(s) =~= Seq::<u16>::empty());
        assert(mins.skip(s) =~= Seq::<u16>::empty());
    } else {
        lemma_spare_vs_sums(g, mins, s + 1);
        assert(g.skip(s) =~= seq![g[s]] + g.skip(s + 1));
        assert(mins.skip(s) =~= seq![mins[s]] + mins.skip(s + 1));
        crate::species::lemma_sum_of_concat(seq![g[s]], g.skip(s + 1));
        crate::species::lemma_sum_of_concat(seq![mins[s]], mins.skip(s + 1));
        assert(sum_of(Seq::<u16>::empty()) == 0);
        assert(sum_of(seq![g[s]]) == g[s] as int) by {
            assert(seq![g[s]].drop_last() =~= Seq::<u16>::empty());
            assert(seq![g[s]].last() == g[s]);
            assert(sum_of(Seq::<u16>::empty()) == 0);
        }
        assert(sum_of(seq![mins[s]]) == mins[s] as int) by {
            assert(seq![mins[s]].drop_last() =~= Seq::<u16>::empty());
            assert(seq![mins[s]].last() == mins[s]);
            assert(sum_of(Seq::<u16>::empty()) == 0);
        }
    }
}

proof fn lemma_spare_same_suffix(g1: Seq<u16>, g2: Seq<u16>, mins: Seq<u16>, s: int)
    requires
        g1.len() == SPECIES_COUNT,
        g2.len() == SPECIES_COUNT,
        forall|q: int| s <= q < SPECIES_COUNT ==> g1[q] == g2[q],
    ensures
        spare_from(g1, mins, s) == spare_from(g2, mins, s),
    decreases SPECIES_COUNT - s,
{
    if 0 <= s < SPECIES_COUNT {
        lemma_spare_same_suffix(g1, g2, mins, s + 1);
    }
}

proof fn lemma_spare_nonneg(g: Seq<u16>, mins: Seq<u16>, s: int)
    requires
        g.len() == SPECIES_COUNT,
        mins.len() == SPECIES_COUNT,
        le_counts(mins, g),
    ensures
        spare_from(g, mins, s) >= 0,
    decreases SPECIES_COUNT - s,
{
    if 0 <= s < SPECIES_COUNT {
        lemma_spare_nonneg(g, mins, s + 1);
    }
}

proof fn lemma_give_back_props(g: Seq<u16>, mins: Seq<u16>, excess: int, s: int)
    requires
        g.len() == SPECIES_COUNT,
        mins.len() == SPECIES_COUNT,
        0 <= s <= SPECIES_COUNT,
        le_counts(mins, g),
        0 <= excess <= spare_from(g, mins, s),
    ensures
        ({
            let w = give_back(g, mins, excess, s);
            &&& w.len() == SPECIES_COUNT
            &&& sum_of(w) == sum_of(g) - excess
            &&& le_counts(mins, w)
            &&& le_counts(w, g)
        }),
    decreases SPECIES_COUNT - s,
{
    if s >= SPECIES_COUNT || excess <= 0 {
    } else {
        let room = g[s] - mins[s];
        let ret = if excess <= room {
            excess
        } else {
            room
        };
        if ret > 0 {
            let g2 = g.update(s, (g[s] - ret) as u16);
            crate::species::lemma_sum_of_update(g, s, (g[s] - ret) as u16);
            lemma_spare_same_suffix(g2, g, mins, s + 1);
            assert(le_counts(mins, g2)) by {
                assert(forall|q: int| 0 <= q < SPECIES_COUNT && q != s ==> g2[q] == g[q]);
                assert(g2[s] >= mins[s]);
            }
            assert(spare_from(g, mins, s) == (g[s] - mins[s]) + spare_from(g, mins, s + 1));
            lemma_spare_nonneg(g2, mins, s + 1);
            lemma_give_back_props(g2, mins, excess - ret, s + 1);
        } else {
            assert(spare_from(g, mins, s) == (g[s] - mins[s]) + spare_from(g, mins, s + 1));
            assert(g[s] - mins[s] == 0);
            lemma_give_back_props(g, mins, excess, s + 1);
        }
    }
}

/// Conservation, bounds and stock-safety of every withdrawal: a matched
/// bundle holds exactly the design's required total; each species sits
/// between the design's bounds, a species left out of the bundle has no
/// minimum; and no species gives more than it has on hand.
pub proof fn lemma_withdrawal(stems: Seq<u16>, d: Design)
    requires
        stems.len() == SPECIES_COUNT,
        d.min_stems@.len() == SPECIES_COUNT,
        d.max_stems@.len() == SPECIES_COUNT,
        sum_of(d.min_stems@) <= d.total as int,
        satisfiable(stems, d),
    ensures
        ({
            let w = withdrawn(stems, d);
            &&& w.len() == SPECIES_COUNT
            &&& sum_of(w) == d.total as int
            &&& forall|s: int|
                0 <= s < SPECIES_COUNT ==> d.min_stems@[s] <= #[trigger] w[s] <= d.max_stems@[s]
            &&& forall|s: int| 0 <= s < SPECIES_COUNT && #[trigger] w[s] == 0 ==> d.min_stems@[s] == 0
            &&& forall|s: int| 0 <= s < SPECIES_COUNT ==> #[trigger] w[s] <= stems[s]
        }),
{
    let g0 = min_counts(stems, d.max_stems@);
    let e = sum_of(g0) - d.total as int;
    lemma_spare_vs_sums(g0, d.min_stems@, 0);
    assert(g0.skip(0) =~= g0);
    assert(d.min_stems@.skip(0) =~= d.min_stems@);
    assert(e <= spare_from(g0, d.min_stems@, 0));
    lemma_give_back_props(g0, d.min_stems@, e, 0);
    let w = withdrawn(stems, d);
    assert forall|s: int| 0 <= s < SPECIES_COUNT implies d.min_stems@[s] <= #[trigger] w[s]
        <= d.max_stems@[s] && w[s] <= stems[s] by {
        assert(w[s] <= g0[s]);
        assert(g0[s] <= d.max_stems@[s]);
        assert(g0[s] <= stems[s]);
    }
}

proof fn lemma_first_sat_none(stems: Seq<u16>, designs: Seq<Design>, list: Seq<usize>)
    requires
        first_sat(stems, designs, list) is None,
    ensures
        forall|j: int| 0 <= j < list.len() ==> !satisfiable(stems, designs[#[trigger] list[j] as int]),
    decreases list.len(),
{
    if list.len() > 0 {
        lemma_first_sat_none(stems, designs, list.drop_first());
        assert forall|j: int| 0 <= j < list.len() implies !satisfiable(
            stems,
            designs[#[trigger] list[j] as int],
        ) by {
            if j > 0 {
                assert(list.drop_first()[j - 1] == list[j]);
            }
        }
    }
}

proof fn lemma_first_sat_some(stems: Seq<u16>, designs: Seq<Design>, list: Seq<usize>, x: usize)
    requires
        first_sat(stems, designs, list) == Some(x),
    ensures
        satisfiable(stems, designs[x as int]),
        exists|p: int|
            0 <= p < list.len() && list[p] == x && (forall|q: int|
                0 <= q < p ==> !satisfiable(stems, designs[#[trigger] list[q] as int])),
    decreases list.len(),
{
    if satisfiable(stems, designs[list[0] as int]) {
        assert(list[0] == x);
        assert(0 <= 0 < list.len() && list[0] == x && (forall|q: int|
            0 <= q < 0 ==> !satisfiable(stems, designs[#[trigger] list[q] as int])));
    } else {
        lemma_first_sat_some(stems, designs, list.drop_first(), x);
        let p0 = choose|p: int|
            0 <= p < list.drop_first().len() && list.drop_first()[p] == x && (forall|q: int|
                0 <= q < p ==> !satisfiable(
                    stems,
                    designs[#[trigger] list.drop_first()[q] as int],
                ));
        assert(list[p0 + 1] == x);
        assert forall|q: int| 0 <= q < p0 + 1 implies !satisfiable(
            stems,
            designs[#[trigger] list[q] as int],
        ) by {
            if q > 0 {
                assert(list.drop_first()[q - 1] == list[q]);
            }
        }
    }
}

/// Satisfiability only grows with stock.
pub proof fn lemma_sat_monotone(stems1: Seq<u16>, stems2: Seq<u16>, d: Design)
    requires
        stems1.len() == SPECIES_COUNT,
        stems2.len() == SPECIES_COUNT,
        d.max_stems@.len() == SPECIES_COUNT,
        forall|q: int| 0 <= q < SPECIES_COUNT ==> stems1[q] <= stems2[q],
        satisfiable(stems1, d),
    ensures
        satisfiable(stems2, d),
{
    let g1 = min_counts(stems1, d.max_stems@);
    let g2 = min_counts(stems2, d.max_stems@);
    assert(le_counts(g1, g2));
    crate::species::lemma_sum_of_le(g1, g2);
}

/// A design that can use at least one species.
pub open spec fn names_species(d: Design) -> bool {
    exists|s: int| 0 <= s < SPECIES_COUNT && d.max_stems@[s] > 0
}

impl ProductionLine {
    /// Between arrivals the inventory is settled: no species-naming design
    /// is satisfiable from what is on hand.
    pub open spec fn settled(&self) -> bool {
        forall|i: int|
            0 <= i < self.designs@.len() && names_species(#[trigger] self.designs@[i])
                ==> !satisfiable(self.stems@, self.designs@[i])
    }
}

/// An inventory with nothing on hand is settled.
pub proof fn lemma_empty_stock_settled(a: ProductionLine)
    requires
        a.wf(),
        forall|q: int| 0 <= q < SPECIES_COUNT ==> a.stems@[q] == 0,
    ensures
        a.settled(),
{
    assert forall|i: int|
        0 <= i < a.designs@.len() && names_species(#[trigger] a.designs@[i]) implies !satisfiable(
        a.stems@,
        a.designs@[i],
    ) by {
        let d = a.designs@[i];
        let s = choose|s: int| 0 <= s < SPECIES_COUNT && d.max_stems@[s] > 0;
        assert(d.min_stems@[s] >= 1);
        assert(min_counts(a.stems@, d.max_stems@)[s] == 0);
    }
}

/// Each arrival leaves the inventory settled again: whatever it did, no
/// design is left satisfiable between arrivals.
pub proof fn lemma_arrival_preserves_settled(a: ProductionLine, b: ProductionLine, s: int)
    requires
        a.wf(),
        a.settled(),
        0 <= s < SPECIES_COUNT,
        a.stems@[s] < 65535,
        b.designs@ == a.designs@,
        b.stems@ == a.arrival_stems(s),
    ensures
        b.settled(),
{
    let s1 = a.stems@.update(s, (a.stems@[s] + 1) as u16);
    match a.arrival_match(s) {
        None => {
            assert(b.stems@ == s1);
            assert forall|i: int|
                0 <= i < b.designs@.len() && names_species(
                    #[trigger] b.designs@[i],
                ) implies !satisfiable(b.stems@, b.designs@[i]) by {
                let d = a.designs@[i];
                assert(names_species(a.designs@[i]));
                assert(!satisfiable(a.stems@, d));
                if d.max_stems@[s] == 0 {
                    assert(min_counts(s1, d.max_stems@) =~= min_counts(a.stems@, d.max_stems@));
                    assert(!satisfiable(s1, d));
                } else {
                    assert(a.designs@[i].max_stems@[s] > 0);
                    assert(a.row_view(s).contains(i as usize));
                    if s1[s] > a.max_per_stem@[s] {
                        assert(d.max_stems@[s] <= a.max_per_stem@[s]);
                        assert(min_counts(s1, d.max_stems@) =~= min_counts(
                            a.stems@,
                            d.max_stems@,
                        ));
                        assert(!satisfiable(s1, d));
                    } else {
                        lemma_first_sat_none(s1, a.designs@, a.row_view(s));
                        vstd::std_specs::vec::axiom_spec_len(&a.designs);
                        let j = choose|j: int|
                            0 <= j < a.row_view(s).len() && a.row_view(s)[j] == i as usize;
                        assert(a.row_view(s)[j] as int == i);
                        assert(!satisfiable(s1, a.designs@[a.row_view(s)[j] as int]));
                        assert(!satisfiable(s1, d));
                    }
                }
                assert(!satisfiable(b.stems@, b.designs@[i]));
            }
        },
        Some(m) => {
            let dm = a.designs@[m as int];
            lemma_first_sat_some(s1, a.designs@, a.row_view(s), m);
            assert(a.row_view(s).contains(m)) by {
                let p = choose|p: int|
                    0 <= p < a.row_view(s).len() && a.row_view(s)[p] == m && (forall|q: int|
                        0 <= q < p ==> !satisfiable(
                            s1,
                            a.designs@[#[trigger] a.row_view(s)[q] as int],
                        ));
                assert(a.row_view(s)[p] == m);
            }
            assert(m < a.designs@.len());
            assert(dm.max_stems@[s] > 0);
            assert(dm.min_stems@[s] >= 1);
            lemma_withdrawal(s1, dm);
            let w = withdrawn(s1, dm);
            assert(b.stems@ == sub_counts(s1, w));
            assert forall|q: int| 0 <= q < SPECIES_COUNT implies b.stems@[q] <= a.stems@[q] by {
                if q == s {
                    assert(w[q] >= dm.min_stems@[q]);
                } else {
                    assert(w[q] >= 0);
                }
            }
            assert forall|i: int|
                0 <= i < b.designs@.len() && names_species(
                    #[trigger] b.designs@[i],
                ) implies !satisfiable(b.stems@, b.designs@[i]) by {
                if satisfiable(b.stems@, a.designs@[i]) {
                    lemma_sat_monotone(b.stems@, a.stems@, a.designs@[i]);
                }
            }
        },
    }
}

/// Priority: when an arrival matches design `m`, every other
/// species-naming design that was also satisfiable at that moment needs a
/// larger total, or the same total and a later registration.
pub proof fn lemma_priority(a: ProductionLine, s: int, m: usize, e: int)
    requires
        a.wf(),
        a.candidates_sorted(),
        a.settled(),
        0 <= s < SPECIES_COUNT,
        a.stems@[s] < 65535,
        a.arrival_match(s) == Some(m),
        0 <= e < a.designs@.len(),
        e != m as int,
        names_species(a.designs@[e]),
        satisfiable(a.stems@.update(s, (a.stems@[s] + 1) as u16), a.designs@[e]),
    ensures
        design_key_lt(a.designs@, m as int, e),
{
    let s1 = a.stems@.update(s, (a.stems@[s] + 1) as u16);
    let de = a.designs@[e];
    let row = a.row_view(s);
    // The other design must name the arrived species, else it was already
    // satisfiable while the inventory was settled.
    if de.max_stems@[s] == 0 {
        assert(min_counts(s1, de.max_stems@) =~= min_counts(a.stems@, de.max_stems@));
        assert(satisfiable(a.stems@, de));
        assert(false);
    }
    assert(a.designs@[e].max_stems@[s] > 0);
    assert(row.contains(e as usize));
    vstd::std_specs::vec::axiom_spec_len(&a.designs);
    let qe = choose|q: int| 0 <= q < row.len() && row[q] == e as usize;
    assert(0 <= qe < row.len() && row[qe] == e as usize);
    assert(row[qe] as int == e);
    lemma_first_sat_some(s1, a.designs@, row, m);
    let pm = choose|p: int|
        0 <= p < row.len() && row[p] == m && (forall|q: int|
            0 <= q < p ==> !satisfiable(s1, a.designs@[#[trigger] row[q] as int]));
    assert(0 <= pm < row.len() && row[pm] == m);
    assert(qe >= pm) by {
        if qe < pm {
            assert(!satisfiable(s1, a.designs@[row[qe] as int]));
            assert(satisfiable(s1, a.designs@[e]));
            assert(false);
        }
    }
    assert(qe != pm) by {
        assert(e as usize != m) by {
            assert(e != m as int);
        }
    }
    assert(design_key_lt(a.designs@, row[pm] as int, row[qe] as int));
}

/// Sum of the counts of an emitted pair list.
pub open spec fn pairs_total(ps: Seq<(u16, usize)>) -> int
    decreases ps.len(),
{
    if ps.len() == 0 {
        0
    } else {
        pairs_total(ps.drop_last()) + ps.last().0
    }
}

proof fn lemma_pairs_upto_total(g: Seq<u16>, n: int)
    requires
        g.len() == SPECIES_COUNT,
        0 <= n <= SPECIES_COUNT,
    ensures
        pairs_total(pairs_upto(g, n)) == sum_of(g.take(n)),
    decreases n,
{
    if n == 0 {
        assert(g.take(0) =~= Seq::<u16>::empty());
        assert(pairs_upto(g, 0) =~= Seq::<(u16, usize)>::empty());
    } else {
        lemma_pairs_upto_total(g, n - 1);
        crate::species::lemma_sum_of_take_step(g, n - 1);
        if g[n - 1] == 0 {
            assert(pairs_upto(g, n) =~= pairs_upto(g, n - 1));
        } else {
            assert(pairs_upto(g, n).drop_last() =~= pairs_upto(g, n - 1));
            assert(pairs_upto(g, n).last() == (g[n - 1], (n - 1) as usize));
        }
    }
}

/// A bundle's emitted pairs carry exactly the withdrawn stems: their
/// counts sum to the sum of the withdrawal vector.
pub proof fn lemma_bundle_total(g: Seq<u16>)
    requires
        g.len() == SPECIES_COUNT,
    ensures
        pairs_total(bundle_pairs(g)) == sum_of(g),
{
    lemma_pairs_upto_total(g, SPECIES_COUNT as int);
    assert(g.take(SPECIES_COUNT as int) =~= g);
}

/// Determinism of the preprocessing order: a candidate list in matching
/// order is the unique such arrangement of its entries.
pub proof fn lemma_sorted_unique(designs: Seq<Design>, l1: Seq<usize>, l2: Seq<usize>)
    requires
        row_sorted(designs, l1),
        row_sorted(designs, l2),
        l1.to_multiset() == l2.to_multiset(),
    ensures
        l1 == l2,
    decreases l1.len(),
{
    broadcast use vstd::seq_lib::group_to_multiset_ensures;

    l1.to_multiset_ensures();
    l2.to_multiset_ensures();
    if l1.len() == 0 {
        assert(l2.to_multiset().len() == 0);
        assert(l1 =~= l2);
    } else {
        assert(l2.len() == l1.len());
        assert(l1.to_multiset().count(l1[0]) > 0) by {
            assert(l1.contains(l1[0]));
        }
        assert(l2.contains(l1[0]));
        let p = choose|p: int| 0 <= p < l2.len() && l2[p] == l1[0];
        assert(l2.to_multiset().count(l2[0]) > 0) by {
            assert(l2.contains(l2[0]));
        }
        assert(l1.contains(l2[0]));
        let p1 = choose|p: int| 0 <= p < l1.len() && l1[p] == l2[0];
        // Both heads are minimal for the strict key order, so they agree.
        assert(l1[0] == l2[0]) by {
            if p > 0 {
                assert(design_key_lt(designs, l2[0] as int, l2[p] as int));
            }
            if p1 > 0 {
                assert(design_key_lt(designs, l1[0] as int, l1[p1] as int));
            }
        }
        assert(l1.drop_first().to_multiset() == l2.drop_first().to_multiset()) by {
            assert(l1.remove(0) =~= l1.drop_first());
            assert(l2.remove(0) =~= l2.drop_first());
            assert(l1.remove(0).to_multiset() =~= l1.to_multiset().remove(l1[0]));
            assert(l2.remove(0).to_multiset() =~= l2.to_multiset().remove(l2[0]));
        }
        assert(row_sorted(designs, l1.drop_first())) by {
            assert forall|j1: int, j2: int|
                0 <= j1 < j2 < l1.drop_first().len() implies design_key_lt(
                designs,
                l1.drop_first()[j1] as int,
                l1.drop_first()[j2] as int,
            ) by {
                assert(l1.drop_first()[j1] == l1[j1 + 1]);
                assert(l1.drop_first()[j2] == l1[j2 + 1]);
            }
        }
        assert(row_sorted(designs, l2.drop_first())) by {
            assert forall|j1: int, j2: int|
                0 <= j1 < j2 < l2.drop_first().len() implies design_key_lt(
                designs,
                l2.drop_first()[j1] as int,
                l2.drop_first()[j2] as int,
            ) by {
                assert(l2.drop_first()[j1] == l2[j1 + 1]);
                assert(l2.drop_first()[j2] == l2[j2 + 1]);
            }
        }
        lemma_sorted_unique(designs, l1.drop_first(), l2.drop_first());
        assert(l1 =~= l2) by {
            assert forall|j: int| 0 <= j < l1.len() implies l1[j] == l2[j] by {
                if j > 0 {
                    assert(l1.drop_first()[j - 1] == l2.drop_first()[j - 1]);
                }
            }
        }
    }
}

} // verus!
