use vstd::prelude::*;

use crate::design::{design_maxs, design_mins, design_size, design_total, parse_ok, Design};
use crate::line::{bundle_pairs, max_u16, withdrawn, Bundle, ProductionLine};
use crate::size::{Size, SizeMap};
use crate::species::{char_to_stem_index, sum_of, SPECIES_COUNT};

verus! {

/// Exactly when a stem arrival line parses: a species letter, then a size
/// marker; anything after the marker is ignored.
pub open spec fn stem_parse_ok(s: Seq<char>) -> bool {
    s.len() >= 2 && (97 <= s[0] as int <= 122) && (s[1] == 'S' || s[1] == 'L')
}

pub open spec fn stem_species(s: Seq<char>) -> int {
    s[0] as int - 97
}

pub open spec fn stem_size(s: Seq<char>) -> Size {
    if s[1] == 'S' {
        Size::Small
    } else {
        Size::Large
    }
}

pub open spec fn other_size(sz: Size) -> Size {
    if sz is Small {
        Size::Large
    } else {
        Size::Small
    }
}

/// Owns one inventory per size class and routes every design and every
/// stem arrival to the inventory of its size class.
pub struct Warehouse {
    pub production_lines: SizeMap<ProductionLine>,
}

impl Warehouse {
    pub open spec fn line_of(self, size: Size) -> ProductionLine {
        if size is Small {
            self.production_lines.small
        } else {
            self.production_lines.large
        }
    }

    pub open spec fn wf(&self) -> bool {
        self.production_lines.small.wf() && self.production_lines.large.wf()
    }

    pub fn new() -> (r: Self)
        ensures
            r.wf(),
            r.production_lines.small.designs@.len() == 0,
            r.production_lines.large.designs@.len() == 0,
            forall|q: int|
                0 <= q < SPECIES_COUNT ==> r.production_lines.small.stems@[q] == 0
                    && r.production_lines.large.stems@[q] == 0,
    {
        Warehouse {
            production_lines: SizeMap::new(ProductionLine::default(), ProductionLine::default()),
        }
    }

    /// Registers one specification line. `None` when the line is
    /// malformed; otherwise whether the design was accepted — a design
    /// whose required total cannot even cover its per-species minima can
    /// never be satisfied and is silently dropped.
    pub fn add_design(&mut self, design_str: &str) -> (r: Option<bool>)
        requires
            old(self).wf(),
        ensures
            final(self).wf(),
            match r {
                None => !parse_ok(design_str@) && *final(self) == *old(self),
                Some(accepted) => {
                    &&& parse_ok(design_str@)
                    &&& accepted == (sum_of(design_mins(design_str@)) <= design_total(design_str@))
                    &&& !accepted ==> *final(self) == *old(self)
                    &&& accepted ==> ({
                        let sz = design_size(design_str@);
                        let pre = old(self).line_of(sz);
                        let post = final(self).line_of(sz);
                        &&& final(self).line_of(other_size(sz)) == old(self).line_of(other_size(sz))
                        &&& post.designs@.len() == pre.designs@.len() + 1
                        &&& post.designs@ == pre.designs@.push(post.designs@.last())
                        &&& ({
                            let d = post.designs@.last();
                            &&& d.name == design_str@[0]
                            &&& d.size == sz
                            &&& d.total as int == design_total(design_str@)
                            &&& d.min_stems@ == design_mins(design_str@)
                            &&& d.max_stems@ == design_maxs(design_str@)
                        })
                        &&& post.stems@ == pre.stems@
                        &&& forall|q: int|
                            0 <= q < SPECIES_COUNT ==> post.watermark_view()[q] == max_u16(
                                pre.watermark_view()[q],
                                post.designs@.last().max_stems@[q],
                            )
                        &&& forall|q: int|
                            0 <= q < SPECIES_COUNT ==> #[trigger] post.row_view(q) == (
                            if post.designs@.last().max_stems@[q] > 0 {
                                pre.row_view(q).push(pre.designs@.len() as usize)
                            } else {
                                pre.row_view(q)
                            })
                    })
                },
            },
    {
        let design = match Design::from_str(design_str) {
            Some(d) => d,
            None => {
                return None;
            },
        };
        let min_sum: u32 = design.min_stems.sum();
        if design.total as u32 >= min_sum {
            let sz = design.size;
            let line = self.production_lines.get_mut(&sz);
            line.add_design(design);
            Some(true)
        } else {
            Some(false)
        }
    }

    /// Sorts both inventories' candidate lists; runs once after all
    /// registrations and before the first arrival.
    pub fn preprocess(&mut self)
        requires
            old(self).wf(),
        ensures
            final(self).wf(),
            final(self).production_lines.small.candidates_sorted(),
            final(self).production_lines.large.candidates_sorted(),
            final(self).production_lines.small.designs@ == old(
                self,
            ).production_lines.small.designs@,
            final(self).production_lines.large.designs@ == old(
                self,
            ).production_lines.large.designs@,
            final(self).production_lines.small.stems@ == old(self).production_lines.small.stems@,
            final(self).production_lines.large.stems@ == old(self).production_lines.large.stems@,
            final(self).production_lines.small.watermark_view() == old(
                self,
            ).production_lines.small.watermark_view(),
            final(self).production_lines.large.watermark_view() == old(
                self,
            ).production_lines.large.watermark_view(),
    {
        let line = self.production_lines.get_mut(&Size::Small);
        line.preprocess();
        let line = self.production_lines.get_mut(&Size::Large);
        line.preprocess();
    }

    /// One stem arrival line. `None` when the line is malformed;
    /// otherwise the matching outcome in the stem's size class: at most
    /// one bundle, exactly as the inventory's own arrival step emits it.
    pub fn add_stem(&mut self, stem_str: &str) -> (r: Option<Option<Bundle>>)
        requires
            old(self).wf(),
            stem_parse_ok(stem_str@) ==> old(self).line_of(stem_size(stem_str@)).stems@[stem_species(
                stem_str@,
            )] < 65535,
        ensures
            final(self).wf(),
            match r {
                None => !stem_parse_ok(stem_str@) && *final(self) == *old(self),
                Some(out) => {
                    &&& stem_parse_ok(stem_str@)
                    &&& ({
                        let sz = stem_size(stem_str@);
                        let sp = stem_species(stem_str@);
                        let pre = old(self).line_of(sz);
                        let post = final(self).line_of(sz);
                        &&& final(self).line_of(other_size(sz)) == old(self).line_of(other_size(sz))
                        &&& post.designs@ == pre.designs@
                        &&& post.designs_per_stem@ == pre.designs_per_stem@
                        &&& post.watermark_view() == pre.watermark_view()
                        &&& post.stems@ == pre.arrival_stems(sp)
                        &&& forall|q: int|
                            0 <= q < SPECIES_COUNT ==> post.stems@[q] <= pre.stems@[q] + 1
                        &&& match pre.arrival_match(sp) {
                            None => out is None,
                            Some(i) => out matches Some(b) && b.name == pre.designs@[i as int].name
                                && b.size == pre.designs@[i as int].size && b.stems@
                                == bundle_pairs(
                                withdrawn(
                                    pre.stems@.update(sp, (pre.stems@[sp] + 1) as u16),
                                    pre.designs@[i as int],
                                ),
                            ),
                        }
                    })
                },
            },
    {
        let n = stem_str.unicode_len();
        if n < 2 {
            return None;
        }
        let c0 = stem_str.get_char(0);
        let u0 = c0 as u32;
        if !(97 <= u0 && u0 <= 122) {
            return None;
        }
        let c1 = stem_str.get_char(1);
        let size = match Size::from_marker(c1) {
            Some(sz) => sz,
            None => {
                return None;
            },
        };
        let species = char_to_stem_index(c0);
        let line = self.production_lines.get_mut(&size);
        let out = line.add_stem(species);
        Some(out)
    }

    /// Current on-hand count of one species in one size class.
    pub fn stem_count(&self, size: Size, species: usize) -> (r: u16)
        requires
            self.wf(),
            species < SPECIES_COUNT,
        ensures
            r == self.line_of(size).stems@[species as int],
    {
        match size {
            Size::Small => self.production_lines.small.stem_count(species),
            Size::Large => self.production_lines.large.stem_count(species),
        }
    }
}

} // verus!
