//! The streaming overlap aggregator: one fragment line at a time, resolve
//! the fragment's two endpoints against its chromosome's interval index
//! through a monotone cursor, and add weights into the count matrix.
//!
//! The whole effect of one line is the spec function [`line_step`]; the
//! executable [`Aggregator::process_line`] is proved to perform exactly that
//! step, whatever the line holds. On a stream whose start coordinates never
//! move backwards within a chromosome run, the cursor stays sound and the
//! step counts, for every feature, exactly the fragment's endpoints that
//! fall in it (see `laws`).

use vstd::prelude::*;

use crate::index::{adv_spec, chrom_pos, collect_spec, ids_ok, lemma_adv, lemma_chrom_pos,
    lemma_collect};
use crate::index::{FeatureIndex, Interval, wf_index};
use crate::matrix::{mat_add, CountMatrix};
use crate::parse::{is_comment, parse_u32, parse_u32_spec, split_fields, split_spec, trim,
    trim_spec, views};
use crate::registry::{reg_col, reg_contains, BarcodeRegistry};

verus! {

/// Mathematical state of the aggregator: the chromosome name of the last
/// line, the cursor into that chromosome's sorted intervals, and the matrix.
pub struct AggView {
    pub name: Seq<u8>,
    pub cursor: int,
    pub mat: Seq<Map<u32, u64>>,
}

/// Contributions of the start-point hits: weight once per hit, and a second
/// time when the fragment's end lies inside the same interval (the fragment
/// is then contained, and both its endpoints are in that interval).
pub open spec fn apply_start_hits(
    mat: Seq<Map<u32, u64>>,
    ivs: Seq<Interval>,
    lookup: Seq<(u32, u64)>,
    hits: Seq<usize>,
    e: u32,
    col: u32,
    k: int,
) -> Seq<Map<u32, u64>>
    decreases hits.len() - k,
{
    if k < 0 || k >= hits.len() {
        mat
    } else {
        let iv = ivs[hits[k] as int];
        let rw = lookup[iv.id as int];
        let m1 = mat_add(mat, rw.0 as int, col, rw.1);
        let m2 = if e < iv.end {
            mat_add(m1, rw.0 as int, col, rw.1)
        } else {
            m1
        };
        apply_start_hits(m2, ivs, lookup, hits, e, col, k + 1)
    }
}

/// Contributions of the end-point hits: weight once per hit.
pub open spec fn apply_end_hits(
    mat: Seq<Map<u32, u64>>,
    ivs: Seq<Interval>,
    lookup: Seq<(u32, u64)>,
    hits: Seq<usize>,
    col: u32,
    k: int,
) -> Seq<Map<u32, u64>>
    decreases hits.len() - k,
{
    if k < 0 || k >= hits.len() {
        mat
    } else {
        let iv = ivs[hits[k] as int];
        let rw = lookup[iv.id as int];
        apply_end_hits(mat_add(mat, rw.0 as int, col, rw.1), ivs, lookup, hits, col, k + 1)
    }
}

/// Some start hit proves containment: the fragment's end lies before that
/// interval's end, so no second query is needed.
pub open spec fn some_hit_contains(ivs: Seq<Interval>, hits: Seq<usize>, e: u32) -> bool {
    exists|k: int| 0 <= k < hits.len() && e < ivs[#[trigger] hits[k] as int].end
}

/// The whole effect of one fragment line on the aggregator state.
///
/// A comment line, a line of fewer than four fields, a barcode absent from
/// the registry, or an unparsable coordinate leaves the matrix unchanged
/// (the chromosome and cursor still switch before coordinates are parsed,
/// as the order of checks dictates). Otherwise the start point is queried
/// through the cursor; each hit contributes its weight, twice when it also
/// holds the end point; and only if no hit holds the end point is the end
/// point queried, from the already-advanced cursor, contributing its weight
/// once per hit.
pub open spec fn line_step(
    ix: FeatureIndex,
    reg: Seq<(Seq<u8>, u32)>,
    st: AggView,
    line: Seq<u8>,
) -> AggView {
    if is_comment(line) {
        st
    } else {
        let fs = split_spec(line);
        if fs.len() < 4 {
            st
        } else if !reg_contains(reg, fs[3]) {
            st
        } else {
            let col = reg_col(reg, fs[3]);
            let st1 = if fs[0] == st.name {
                st
            } else {
                AggView { name: fs[0], cursor: 0, ..st }
            };
            match (parse_u32_spec(trim_spec(fs[1])), parse_u32_spec(trim_spec(fs[2]))) {
                (Some(s), Some(e)) => {
                    let cp = chrom_pos(ix.chroms@, st1.name);
                    if cp >= ix.chroms@.len() {
                        st1
                    } else {
                        let ivs = ix.chroms@[cp].ivs@;
                        let ml = ix.chroms@[cp].max_len;
                        let c2 = adv_spec(ivs, ml, s, st1.cursor);
                        let hits1 = collect_spec(ivs, s, c2);
                        let mat1 = apply_start_hits(st1.mat, ivs, ix.lookup@, hits1, e, col, 0);
                        if some_hit_contains(ivs, hits1, e) {
                            AggView { name: st1.name, cursor: c2, mat: mat1 }
                        } else {
                            let hits2 = collect_spec(ivs, e, c2);
                            let mat2 = apply_end_hits(mat1, ivs, ix.lookup@, hits2, col, 0);
                            AggView { name: st1.name, cursor: c2, mat: mat2 }
                        }
                    }
                },
                _ => st1,
            }
        }
    }
}

/// Folding [`line_step`] over a stream of lines.
pub open spec fn run_lines(
    ix: FeatureIndex,
    reg: Seq<(Seq<u8>, u32)>,
    st: AggView,
    lines: Seq<Seq<u8>>,
) -> AggView
    decreases lines.len(),
{
    if lines.len() == 0 {
        st
    } else {
        run_lines(ix, reg, line_step(ix, reg, st, lines[0]), lines.drop_first())
    }
}

/// The streaming aggregator. The frozen index and the registry are passed
/// to each call; the struct owns the matrix, the current chromosome name,
/// its cached position, and the cursor.
pub struct Aggregator {
    pub counts: CountMatrix,
    pub cur_name: Vec<u8>,
    pub cur_chrom: Option<usize>,
    pub cursor: usize,
}

impl View for Aggregator {
    type V = AggView;

    open spec fn view(&self) -> AggView {
        AggView { name: self.cur_name@, cursor: self.cursor as int, mat: self.counts@ }
    }
}

/// Consistency of the aggregator with the index and registry it is run
/// against: the matrix has one row per feature row and one column per
/// barcode, the cached chromosome is the (unique) index entry named by
/// `cur_name`, and the cursor stays within that entry's intervals.
pub open spec fn agg_inv(a: Aggregator, ix: FeatureIndex, reg: Seq<(Seq<u8>, u32)>) -> bool {
    &&& wf_index(ix)
    &&& forall|i: int, j: int| 0 <= i < j < ix.chroms@.len()
            ==> (#[trigger] ix.chroms@[i]).name@ != (#[trigger] ix.chroms@[j]).name@
    &&& reg.len() <= u32::MAX
    &&& forall|i: int| 0 <= i < reg.len() ==> (#[trigger] reg[i]).1 == i
    &&& a.counts.wf()
    &&& a.counts@.len() == ix.nrows
    &&& a.counts.ncols == reg.len()
    &&& cache_ok(a, ix)
}

impl Aggregator {
    /// A fresh aggregator for one run: an all-zero matrix sized to the
    /// index's rows and the registry's columns.
    pub fn new(ix: &FeatureIndex, reg: &BarcodeRegistry) -> (r: Aggregator)
        requires
            wf_index(*ix),
            forall|i: int, j: int| 0 <= i < j < ix.chroms@.len()
                ==> (#[trigger] ix.chroms@[i]).name@ != (#[trigger] ix.chroms@[j]).name@,
            reg.wf(),
        ensures
            agg_inv(r, *ix, reg@),
            r@.mat.len() == ix.nrows,
            forall|i: int| 0 <= i < ix.nrows ==> #[trigger] r@.mat[i] == Map::<u32, u64>::empty(),
            r@.name == Seq::<u8>::empty(),
            r@.cursor == 0,
    {
        let ncols = reg.len() as u32;
        let counts = CountMatrix::new(ix.nrows, ncols);
        let cur_name: Vec<u8> = Vec::new();
        let cur_chrom = ix.find_chrom(cur_name.as_slice());
        proof {
            crate::index::lemma_vec_len_bound(&ix.chroms);
            lemma_chrom_pos(ix.chroms@, cur_name@);
        }
        Aggregator { counts, cur_name, cur_chrom, cursor: 0 }
    }

    /// Consume one fragment line: exactly the step of [`line_step`].
    pub fn process_line(&mut self, ix: &FeatureIndex, reg: &BarcodeRegistry, line: &[u8])
        requires
            agg_inv(*old(self), *ix, reg@),
            reg.wf(),
        ensures
            agg_inv(*final(self), *ix, reg@),
            final(self)@ == line_step(*ix, reg@, old(self)@, line@),
    {
        let ghost pre = self@;
        let ghost fs = split_spec(line@);
        if line.len() > 0 && line[0] == 35u8 {
            return ;
        }
        let fields = split_fields(line);
        if fields.len() < 4 {
            return ;
        }
        let col: u32 = match reg.lookup(fields[3].as_slice()) {
            Some(c) => c,
            None => {
                return ;
            },
        };
        proof {
            crate::registry::lemma_reg_pos(reg@, fs[3]);
        }
        if !crate::parse::bytes_eq(fields[0].as_slice(), self.cur_name.as_slice()) {
            self.cur_name = crate::parse::subrange_vec(fields[0].as_slice(), 0, fields[0].len());
            proof {
                assert(self.cur_name@ =~= fs[0]);
            }
            self.cur_chrom = ix.find_chrom(self.cur_name.as_slice());
            self.cursor = 0;
            proof {
                crate::index::lemma_vec_len_bound(&ix.chroms);
                lemma_chrom_pos(ix.chroms@, self.cur_name@);
            }
        }
        proof {
            assert(cache_ok(*self, *ix));
        }
        let ghost st1 = AggView { name: self@.name, cursor: self@.cursor, mat: pre.mat };
        let t1 = trim(fields[1].as_slice());
        let s: u32 = match parse_u32(t1.as_slice()) {
            Some(v) => v,
            None => {
                return ;
            },
        };
        let t2 = trim(fields[2].as_slice());
        let e: u32 = match parse_u32(t2.as_slice()) {
            Some(v) => v,
            None => {
                return ;
            },
        };
        let c: usize = match self.cur_chrom {
            Some(c) => c,
            None => {
                return ;
            },
        };
        let chrom = &ix.chroms[c];
        let ghost ivs = chrom.ivs@;
        let ghost ml = chrom.max_len;
        proof {
            crate::index::lemma_vec_len_bound(&chrom.ivs);
            assert(st1.cursor <= ivs.len());
            lemma_adv(ivs, ml, s, st1.cursor);
            lemma_collect(ivs, s, adv_spec(ivs, ml, s, st1.cursor));
        }
        let hits = crate::index::query_point(&chrom.ivs, chrom.max_len, s, &mut self.cursor);
        let ghost c2 = self.cursor as int;
        let ghost hits1 = hits@;
        let nh = hits.len();
        let mut contained = false;
        let mut k: usize = 0;
        proof {
            assert(ids_ok(ivs, ix.lookup@.len() as int));
        }
        while k < nh
            invariant
                0 <= k <= nh == hits1.len(),
                hits1 == hits@,
                c < ix.chroms@.len(),
                ivs == ix.chroms@[c as int].ivs@,
                self.cur_name@ == st1.name,
                self.cursor as int == c2,
                self.cur_chrom == Some(c),
                chrom_pos(ix.chroms@, st1.name) == c as int,
                c2 <= ivs.len(),
                agg_inv_mat_only(*self, *ix, reg@),
                col < self.counts.ncols,
                forall|k2: int| 0 <= k2 < hits1.len() ==> #[trigger] hits1[k2] < ivs.len(),
                ids_ok(ivs, ix.lookup@.len() as int),
                wf_index(*ix),
                apply_start_hits(st1.mat, ivs, ix.lookup@, hits1, e, col, 0) == apply_start_hits(
                    self.counts@,
                    ivs,
                    ix.lookup@,
                    hits1,
                    e,
                    col,
                    k as int,
                ),
                contained == exists|k2: int|
                    0 <= k2 < k && e < ivs[#[trigger] hits1[k2] as int].end,
            decreases nh - k,
        {
            let h = hits[k];
            let iv = ix.chroms[c].ivs[h];
            let rw = ix.lookup[iv.id];
            self.counts.add(rw.0, col, rw.1);
            if e < iv.end {
                contained = true;
                self.counts.add(rw.0, col, rw.1);
                proof {
                    assert(e < ivs[hits1[k as int] as int].end);
                }
            }
            k += 1;
        }
        proof {
            assert(contained == some_hit_contains(ivs, hits1, e));
            assert(self.counts@ == apply_start_hits(st1.mat, ivs, ix.lookup@, hits1, e, col, 0));
        }
        if !contained {
            proof {
                crate::index::lemma_vec_len_bound(&chrom.ivs);
                lemma_collect(ivs, e, c2);
            }
            let hits2 = crate::index::scan_point(&ix.chroms[c].ivs, e, self.cursor);
            let ghost h2 = hits2@;
            let ghost mat1 = self.counts@;
            let n2 = hits2.len();
            let mut k2: usize = 0;
            while k2 < n2
                invariant
                    0 <= k2 <= n2 == h2.len(),
                    h2 == hits2@,
                    c < ix.chroms@.len(),
                    ivs == ix.chroms@[c as int].ivs@,
                    self.cur_name@ == st1.name,
                    self.cursor as int == c2,
                    self.cur_chrom == Some(c),
                    chrom_pos(ix.chroms@, st1.name) == c as int,
                    c2 <= ivs.len(),
                    agg_inv_mat_only(*self, *ix, reg@),
                    col < self.counts.ncols,
                    forall|j: int| 0 <= j < h2.len() ==> #[trigger] h2[j] < ivs.len(),
                    ids_ok(ivs, ix.lookup@.len() as int),
                    wf_index(*ix),
                    apply_end_hits(mat1, ivs, ix.lookup@, h2, col, 0) == apply_end_hits(
                        self.counts@,
                        ivs,
                        ix.lookup@,
                        h2,
                        col,
                        k2 as int,
                    ),
                decreases n2 - k2,
            {
                let h = hits2[k2];
                let iv = ix.chroms[c].ivs[h];
                let rw = ix.lookup[iv.id];
                self.counts.add(rw.0, col, rw.1);
                k2 += 1;
            }
        }
        proof {
            assert(final(self)@ == line_step(*ix, reg@, pre, line@));
        }
    }

    /// Consume a batch of fragment lines in order: the fold of
    /// [`line_step`].
    pub fn process_lines(&mut self, ix: &FeatureIndex, reg: &BarcodeRegistry, lines: &Vec<Vec<u8>>)
        requires
            agg_inv(*old(self), *ix, reg@),
            reg.wf(),
        ensures
            agg_inv(*final(self), *ix, reg@),
            final(self)@ == run_lines(*ix, reg@, old(self)@, views(lines@)),
    {
        let ghost st0 = self@;
        let ghost lvs = views(lines@);
        let n = lines.len();
        let mut k: usize = 0;
        proof {
            assert(lvs.skip(0) =~= lvs);
        }
        while k < n
            invariant
                0 <= k <= n == lines@.len(),
                lvs == views(lines@),
                agg_inv(*self, *ix, reg@),
                reg.wf(),
                run_lines(*ix, reg@, st0, lvs) == run_lines(*ix, reg@, self@, lvs.skip(k as int)),
            decreases n - k,
        {
            self.process_line(ix, reg, lines[k].as_slice());
            k += 1;
            proof {
                assert(lvs[k - 1] == lines@[k - 1]@);
                assert(lvs.skip(k - 1)[0] == lvs[k - 1]);
                assert(lvs.skip(k - 1).drop_first() =~= lvs.skip(k as int));
            }
        }
        proof {
            assert(lvs.skip(n as int) =~= Seq::<Seq<u8>>::empty());
        }
    }
}

/// The chromosome cache and cursor are consistent with the index: the
/// cached position is where `cur_name` stands among the chromosomes, and
/// the cursor stays within that chromosome's intervals.
pub open spec fn cache_ok(a: Aggregator, ix: FeatureIndex) -> bool {
    match a.cur_chrom {
        Some(c) => {
            &&& chrom_pos(ix.chroms@, a.cur_name@) == c
            &&& c < ix.chroms@.len()
            &&& a.cursor <= ix.chroms@[c as int].ivs@.len()
        },
        None => chrom_pos(ix.chroms@, a.cur_name@) == ix.chroms@.len(),
    }
}

/// The parts of [`agg_inv`] that the contribution loops maintain (the
/// chromosome cache and cursor stand still there).
pub open spec fn agg_inv_mat_only(a: Aggregator, ix: FeatureIndex, reg: Seq<(Seq<u8>, u32)>) -> bool {
    &&& a.counts.wf()
    &&& a.counts@.len() == ix.nrows
    &&& a.counts.ncols == reg.len()
}

} // verus!
