//! The feature index builder: consumes region-file lines one at a time and
//! grows per-chromosome interval lists, the (row, weight) lookup table, the
//! row labels, and — when grouping is enabled — the key-to-row table.
//!
//! The whole effect of one line is the spec function [`build_step`]; the
//! executable [`IndexBuilder::add_line`] is proved to perform exactly that
//! step. Malformed lines (bad coordinates, bad weight, short or comment
//! lines, a missing group column) leave the builder unchanged.

use vstd::prelude::*;

use crate::index::{ChromIndex, FeatureIndex, Interval};
use crate::index::{compute_max_len, ids_ok, len_bounded, sort_by_start, wf_chrom, wf_index};
use crate::parse::{
    dec_rep, is_comment, parse_u32, parse_u32_spec, parse_u64, parse_u64_spec, split_fields,
    split_spec, views,
};

verus! {

/// One chromosome's interval list while the index is still growing.
pub struct ChromBuild {
    pub name: Vec<u8>,
    pub ivs: Vec<Interval>,
}

/// Mathematical state of the builder.
pub struct BuilderView {
    pub chroms: Seq<(Seq<u8>, Seq<Interval>)>,
    pub lookup: Seq<(u32, u64)>,
    pub groups: Seq<(Seq<u8>, u32)>,
    pub labels: Seq<Seq<u8>>,
}

/// First position of a chromosome name among the growing lists, or the
/// number of lists if absent.
pub open spec fn bchrom_pos(chroms: Seq<(Seq<u8>, Seq<Interval>)>, name: Seq<u8>) -> int
    decreases chroms.len(),
{
    if chroms.len() == 0 {
        0
    } else if chroms[0].0 == name {
        0
    } else {
        1 + bchrom_pos(chroms.drop_first(), name)
    }
}

pub proof fn lemma_bchrom_pos(chroms: Seq<(Seq<u8>, Seq<Interval>)>, name: Seq<u8>)
    ensures
        0 <= bchrom_pos(chroms, name) <= chroms.len(),
        bchrom_pos(chroms, name) < chroms.len() ==> chroms[bchrom_pos(chroms, name)].0 == name,
        forall|j: int| 0 <= j < bchrom_pos(chroms, name) ==> chroms[j].0 != name,
    decreases chroms.len(),
{
    if chroms.len() > 0 && chroms[0].0 != name {
        lemma_bchrom_pos(chroms.drop_first(), name);
        assert forall|j: int| 0 <= j < bchrom_pos(chroms, name) implies chroms[j].0 != name by {
            if j > 0 {
                assert(chroms.drop_first()[j - 1].0 != name);
            }
        }
    }
}

/// First position of a group key, or the number of groups if absent.
pub open spec fn group_pos(groups: Seq<(Seq<u8>, u32)>, key: Seq<u8>) -> int
    decreases groups.len(),
{
    if groups.len() == 0 {
        0
    } else if groups[0].0 == key {
        0
    } else {
        1 + group_pos(groups.drop_first(), key)
    }
}

pub proof fn lemma_group_pos(groups: Seq<(Seq<u8>, u32)>, key: Seq<u8>)
    ensures
        0 <= group_pos(groups, key) <= groups.len(),
        group_pos(groups, key) < groups.len() ==> groups[group_pos(groups, key)].0 == key,
        forall|j: int| 0 <= j < group_pos(groups, key) ==> groups[j].0 != key,
    decreases groups.len(),
{
    if groups.len() > 0 && groups[0].0 != key {
        lemma_group_pos(groups.drop_first(), key);
        assert forall|j: int| 0 <= j < group_pos(groups, key) implies groups[j].0 != key by {
            if j > 0 {
                assert(groups.drop_first()[j - 1].0 != key);
            }
        }
    }
}

/// Total number of intervals retained across all chromosomes.
pub open spec fn total_ivs(chroms: Seq<(Seq<u8>, Seq<Interval>)>) -> int
    decreases chroms.len(),
{
    if chroms.len() == 0 {
        0
    } else {
        chroms[0].1.len() + total_ivs(chroms.drop_first())
    }
}

proof fn lemma_total_ivs_update(chroms: Seq<(Seq<u8>, Seq<Interval>)>, p: int, e: (Seq<u8>, Seq<Interval>))
    requires
        0 <= p < chroms.len(),
        e.1.len() == chroms[p].1.len() + 1,
    ensures
        total_ivs(chroms.update(p, e)) == total_ivs(chroms) + 1,
    decreases chroms.len(),
{
    if p == 0 {
        assert(chroms.update(0, e).drop_first() =~= chroms.drop_first());
    } else {
        lemma_total_ivs_update(chroms.drop_first(), p - 1, e);
        assert(chroms.update(p, e).drop_first() =~= chroms.drop_first().update(p - 1, e));
    }
}

proof fn lemma_total_ivs_push(chroms: Seq<(Seq<u8>, Seq<Interval>)>, e: (Seq<u8>, Seq<Interval>))
    ensures
        total_ivs(chroms.push(e)) == total_ivs(chroms) + e.1.len(),
    decreases chroms.len(),
{
    if chroms.len() == 0 {
        assert(chroms.push(e).drop_first() =~= Seq::<(Seq<u8>, Seq<Interval>)>::empty());
        assert(total_ivs(chroms.push(e)) == e.1.len() + total_ivs(chroms.push(e).drop_first()));
    } else {
        lemma_total_ivs_push(chroms.drop_first(), e);
        assert(chroms.push(e).drop_first() =~= chroms.drop_first().push(e));
        assert(total_ivs(chroms.push(e)) == chroms[0].1.len() + total_ivs(
            chroms.drop_first().push(e),
        ));
    }
}

/// Append a retained region: tag it with the next interval id, add it to its
/// chromosome's list (opening a new list for a new chromosome), and record
/// its (row, weight) pair.
pub open spec fn push_region(
    v: BuilderView,
    chrom: Seq<u8>,
    start: u32,
    end: u32,
    row: u32,
    w: u64,
) -> BuilderView {
    let iv = Interval { start, end, id: v.lookup.len() as usize };
    let p = bchrom_pos(v.chroms, chrom);
    let chroms2 = if p < v.chroms.len() {
        v.chroms.update(p, (chrom, v.chroms[p].1.push(iv)))
    } else {
        v.chroms.push((chrom, seq![iv]))
    };
    BuilderView { chroms: chroms2, lookup: v.lookup.push((row, w)), ..v }
}

/// The row label of an ungrouped region: `chrom-start-end`.
pub open spec fn label_of(chrom: Seq<u8>, start: u32, end: u32) -> Seq<u8> {
    chrom + seq![45u8] + dec_rep(start as nat) + seq![45u8] + dec_rep(end as nat)
}

/// The weight of a region line: the value of the configured column when that
/// column is present (`None` when it does not parse), and 1 otherwise.
pub open spec fn region_weight(fs: Seq<Seq<u8>>, wc: Option<usize>) -> Option<u64> {
    match wc {
        Some(c) => if fs.len() > c {
            parse_u64_spec(fs[c as int])
        } else {
            Some(1u64)
        },
        None => Some(1u64),
    }
}

/// The whole effect of one region line on the builder state.
pub open spec fn build_step(
    v: BuilderView,
    gc: Option<usize>,
    wc: Option<usize>,
    line: Seq<u8>,
) -> BuilderView {
    if is_comment(line) {
        v
    } else {
        let fs = split_spec(line);
        if fs.len() < 3 {
            v
        } else {
            match (parse_u32_spec(fs[1]), parse_u32_spec(fs[2]), region_weight(fs, wc)) {
                (Some(start), Some(end), Some(w)) => match gc {
                    Some(g) => if fs.len() <= g {
                        v
                    } else if v.lookup.len() >= usize::MAX {
                        v
                    } else {
                        let key = fs[g as int];
                        let p = group_pos(v.groups, key);
                        if p < v.groups.len() {
                            push_region(v, fs[0], start, end, v.groups[p].1, w)
                        } else if v.groups.len() < u32::MAX {
                            let row = v.groups.len() as u32;
                            let v2 = BuilderView {
                                groups: v.groups.push((key, row)),
                                labels: v.labels.push(key),
                                ..v
                            };
                            push_region(v2, fs[0], start, end, row, w)
                        } else {
                            v
                        }
                    },
                    None => if v.lookup.len() < u32::MAX {
                        let row = v.lookup.len() as u32;
                        let v2 = BuilderView { labels: v.labels.push(label_of(fs[0], start, end)), ..v };
                        push_region(v2, fs[0], start, end, row, w)
                    } else {
                        v
                    },
                },
                _ => v,
            }
        }
    }
}

/// Folding [`build_step`] over the region file's lines.
pub open spec fn build_run(
    v: BuilderView,
    gc: Option<usize>,
    wc: Option<usize>,
    lines: Seq<Seq<u8>>,
) -> BuilderView
    decreases lines.len(),
{
    if lines.len() == 0 {
        v
    } else {
        build_run(build_step(v, gc, wc, lines[0]), gc, wc, lines.drop_first())
    }
}

/// Builder states reached from the empty state keep these properties; they
/// carry the run's structural invariant: the number of retained intervals
/// equals the length of the (row, weight) lookup table.
pub open spec fn wf_builder(v: BuilderView, gc: Option<usize>) -> bool {
    &&& total_ivs(v.chroms) == v.lookup.len()
    &&& forall|c: int, i: int|
        0 <= c < v.chroms.len() && 0 <= i < v.chroms[c].1.len()
            ==> (#[trigger] v.chroms[c].1[i]).id < v.lookup.len()
    &&& forall|i: int, j: int| 0 <= i < j < v.chroms.len()
            ==> (#[trigger] v.chroms[i]).0 != (#[trigger] v.chroms[j]).0
    &&& match gc {
        Some(_) => {
            &&& v.groups.len() <= u32::MAX
            &&& forall|i: int| 0 <= i < v.groups.len() ==> (#[trigger] v.groups[i]).1 == i
            &&& forall|k: int| 0 <= k < v.lookup.len() ==> (#[trigger] v.lookup[k]).0 < v.groups.len()
            &&& v.labels =~= v.groups.map_values(|g: (Seq<u8>, u32)| g.0)
        },
        None => {
            &&& v.lookup.len() <= u32::MAX
            &&& forall|k: int| 0 <= k < v.lookup.len() ==> (#[trigger] v.lookup[k]).0 == k
            &&& v.labels.len() == v.lookup.len()
        },
    }
}

/// The number of output rows of a finished builder state.
pub open spec fn nrows_of(v: BuilderView, gc: Option<usize>) -> int {
    match gc {
        Some(_) => v.groups.len() as int,
        None => v.lookup.len() as int,
    }
}

pub proof fn lemma_build_step_wf(v: BuilderView, gc: Option<usize>, wc: Option<usize>, line: Seq<u8>)
    requires
        wf_builder(v, gc),
    ensures
        wf_builder(build_step(v, gc, wc, line), gc),
        nrows_of(build_step(v, gc, wc, line), gc) >= nrows_of(v, gc),
{
    let v2 = build_step(v, gc, wc, line);
    if !is_comment(line) {
        let fs = split_spec(line);
        if fs.len() >= 3 {
            match (parse_u32_spec(fs[1]), parse_u32_spec(fs[2]), region_weight(fs, wc)) {
                (Some(start), Some(end), Some(w)) => {
                    match gc {
                        Some(g) => {
                            if fs.len() > g && v.lookup.len() < usize::MAX {
                                let key = fs[g as int];
                                let p = group_pos(v.groups, key);
                                lemma_group_pos(v.groups, key);
                                if p < v.groups.len() {
                                    lemma_push_region_wf(v, gc, fs[0], start, end, v.groups[p].1, w);
                                } else if v.groups.len() < u32::MAX {
                                    let row = v.groups.len() as u32;
                                    let vg = BuilderView {
                                        groups: v.groups.push((key, row)),
                                        labels: v.labels.push(key),
                                        ..v
                                    };
                                    assert(wf_builder(vg, gc)) by {
                                        assert(vg.labels =~= vg.groups.map_values(
                                            |g2: (Seq<u8>, u32)| g2.0,
                                        ));
                                    }
                                    lemma_push_region_wf(vg, gc, fs[0], start, end, row, w);
                                }
                            }
                        },
                        None => {
                            if v.lookup.len() < u32::MAX {
                                let row = v.lookup.len() as u32;
                                let vl = BuilderView {
                                    labels: v.labels.push(label_of(fs[0], start, end)),
                                    ..v
                                };
                                assert(u32::MAX <= usize::MAX);
                                lemma_push_region_wf(vl, gc, fs[0], start, end, row, w);
                            }
                        },
                    }
                },
                _ => {},
            }
        }
    }
}

proof fn lemma_push_region_wf(
    v: BuilderView,
    gc: Option<usize>,
    chrom: Seq<u8>,
    start: u32,
    end: u32,
    row: u32,
    w: u64,
)
    requires
        total_ivs(v.chroms) == v.lookup.len(),
        forall|c: int, i: int|
            0 <= c < v.chroms.len() && 0 <= i < v.chroms[c].1.len()
                ==> (#[trigger] v.chroms[c].1[i]).id < v.lookup.len(),
        forall|i: int, j: int| 0 <= i < j < v.chroms.len()
                ==> (#[trigger] v.chroms[i]).0 != (#[trigger] v.chroms[j]).0,
        v.lookup.len() < usize::MAX,
        match gc {
            Some(_) => {
                &&& v.groups.len() <= u32::MAX
                &&& forall|i: int| 0 <= i < v.groups.len() ==> (#[trigger] v.groups[i]).1 == i
                &&& forall|k: int|
                    0 <= k < v.lookup.len() ==> (#[trigger] v.lookup[k]).0 < v.groups.len()
                &&& row < v.groups.len()
                &&& v.labels =~= v.groups.map_values(|g: (Seq<u8>, u32)| g.0)
            },
            None => {
                &&& v.lookup.len() < u32::MAX
                &&& forall|k: int| 0 <= k < v.lookup.len() ==> (#[trigger] v.lookup[k]).0 == k
                &&& row == v.lookup.len()
                &&& v.labels.len() == v.lookup.len() + 1
            },
        },
    ensures
        wf_builder(push_region(v, chrom, start, end, row, w), gc),
{
    let v2 = push_region(v, chrom, start, end, row, w);
    let iv = Interval { start, end, id: v.lookup.len() as usize };
    let p = bchrom_pos(v.chroms, chrom);
    lemma_bchrom_pos(v.chroms, chrom);
    if p < v.chroms.len() {
        lemma_total_ivs_update(v.chroms, p, (chrom, v.chroms[p].1.push(iv)));
    } else {
        lemma_total_ivs_push(v.chroms, (chrom, seq![iv]));
    }
    assert forall|c: int, i: int|
        0 <= c < v2.chroms.len() && 0 <= i < v2.chroms[c].1.len() implies (#[trigger] v2.chroms[c].1[i]).id
        < v2.lookup.len() by {
        if c < v.chroms.len() && !(c == p && i == v.chroms[p].1.len()) {
            assert(v.chroms[c].1[i].id < v.lookup.len());
        }
    }
}

impl View for ChromBuild {
    type V = (Seq<u8>, Seq<Interval>);

    open spec fn view(&self) -> (Seq<u8>, Seq<Interval>) {
        (self.name@, self.ivs@)
    }
}

/// The growing feature index. Configure grouping and weighting once, feed
/// every region line through [`IndexBuilder::add_line`], then freeze.
pub struct IndexBuilder {
    pub chroms: Vec<ChromBuild>,
    pub lookup: Vec<(u32, u64)>,
    pub groups: Vec<(Vec<u8>, u32)>,
    pub labels: Vec<Vec<u8>>,
    pub group_col: Option<usize>,
    pub weight_col: Option<usize>,
}

/// Copy a byte vector.
fn clone_bytes(v: &Vec<u8>) -> (r: Vec<u8>)
    ensures
        r@ == v@,
{
    let r = crate::parse::subrange_vec(v.as_slice(), 0, v.len());
    proof {
        assert(v@.subrange(0, v@.len() as int) =~= v@);
    }
    r
}

impl View for IndexBuilder {
    type V = BuilderView;

    open spec fn view(&self) -> BuilderView {
        BuilderView {
            chroms: self.chroms@.map_values(|c: ChromBuild| c@),
            lookup: self.lookup@,
            groups: self.groups@.map_values(|g: (Vec<u8>, u32)| (g.0@, g.1)),
            labels: views(self.labels@),
        }
    }
}

impl IndexBuilder {
    pub open spec fn spec_group_col(&self) -> Option<usize> {
        self.group_col
    }

    pub open spec fn spec_weight_col(&self) -> Option<usize> {
        self.weight_col
    }

    pub open spec fn wf(&self) -> bool {
        wf_builder(self@, self.group_col)
    }

    /// A fresh builder; `group_col` and `weight_col` are the optional
    /// zero-based columns holding the group key and the weight.
    pub fn new(group_col: Option<usize>, weight_col: Option<usize>) -> (r: IndexBuilder)
        ensures
            r.wf(),
            r@.chroms.len() == 0,
            r@.lookup.len() == 0,
            r@.groups.len() == 0,
            r@.labels.len() == 0,
            r.spec_group_col() == group_col,
            r.spec_weight_col() == weight_col,
    {
        let r = IndexBuilder {
            chroms: Vec::new(),
            lookup: Vec::new(),
            groups: Vec::new(),
            labels: Vec::new(),
            group_col,
            weight_col,
        };
        proof {
            assert(r@.chroms =~= Seq::<(Seq<u8>, Seq<Interval>)>::empty());
            assert(r@.groups =~= Seq::<(Seq<u8>, u32)>::empty());
            assert(r@.labels =~= Seq::<Seq<u8>>::empty());
            match group_col {
                Some(_) => {
                    assert(r@.labels =~= r@.groups.map_values(|g: (Seq<u8>, u32)| g.0));
                },
                None => {},
            }
        }
        r
    }

    /// Append one retained region to its chromosome's list and the lookup
    /// table.
    fn push_region_exec(&mut self, name: Vec<u8>, start: u32, end: u32, row: u32, w: u64)
        requires
            old(self).lookup@.len() < usize::MAX,
        ensures
            final(self)@ == push_region(old(self)@, name@, start, end, row, w),
            final(self).spec_group_col() == old(self).spec_group_col(),
            final(self).spec_weight_col() == old(self).spec_weight_col(),
    {
        let iv = Interval { start, end, id: self.lookup.len() };
        let ghost pre = self@;
        let ghost p = bchrom_pos(pre.chroms, name@);
        proof {
            lemma_bchrom_pos(pre.chroms, name@);
        }
        let n = self.chroms.len();
        let mut i: usize = 0;
        while i < n
            invariant_except_break
                0 <= i <= n == self.chroms@.len(),
                pre == self@,
                forall|j: int| 0 <= j < i ==> pre.chroms[j].0 != name@,
            ensures
                0 <= i <= n == self.chroms@.len(),
                pre == self@,
                forall|j: int| 0 <= j < i ==> pre.chroms[j].0 != name@,
                i < n ==> pre.chroms[i as int].0 == name@,
            decreases n - i,
        {
            if crate::parse::bytes_eq(self.chroms[i].name.as_slice(), name.as_slice()) {
                break ;
            }
            i += 1;
        }
        proof {
            assert(i as int == p);
        }
        if i < n {
            let ivs = &mut self.chroms[i].ivs;
            ivs.push(iv);
            proof {
                assert(self@.chroms =~= pre.chroms.update(p, (name@, pre.chroms[p].1.push(iv))));
            }
        } else {
            proof {
                assert(p == pre.chroms.len());
            }
            let mut ivs: Vec<Interval> = Vec::new();
            ivs.push(iv);
            self.chroms.push(ChromBuild { name, ivs });
            proof {
                assert(self@.chroms =~= pre.chroms.push((name@, seq![iv])));
            }
        }
        self.lookup.push((row, w));
        proof {
            assert(self@ == push_region(pre, name@, start, end, row, w)) by {
                assert(self@.groups =~= pre.groups);
                assert(self@.labels =~= pre.labels);
            }
        }
    }

    /// Consume one region line: exactly the step of [`build_step`].
    pub fn add_line(&mut self, line: &[u8])
        requires
            old(self).wf(),
        ensures
            final(self)@ == build_step(
                old(self)@,
                old(self).spec_group_col(),
                old(self).spec_weight_col(),
                line@,
            ),
            final(self).wf(),
            final(self).spec_group_col() == old(self).spec_group_col(),
            final(self).spec_weight_col() == old(self).spec_weight_col(),
    {
        proof {
            lemma_build_step_wf(self@, self.group_col, self.weight_col, line@);
        }
        let ghost pre = self@;
        if line.len() > 0 && line[0] == 35u8 {
            return ;
        }
        let fields = split_fields(line);
        let ghost fs = split_spec(line@);
        if fields.len() < 3 {
            return ;
        }
        let start = match parse_u32(fields[1].as_slice()) {
            Some(s) => s,
            None => {
                return ;
            },
        };
        let end = match parse_u32(fields[2].as_slice()) {
            Some(e) => e,
            None => {
                return ;
            },
        };
        let w: u64 = match self.weight_col {
            Some(wc) => {
                if fields.len() > wc {
                    match parse_u64(fields[wc].as_slice()) {
                        Some(pw) => pw,
                        None => {
                            return ;
                        },
                    }
                } else {
                    1
                }
            },
            None => 1,
        };
        assert(region_weight(fs, self.weight_col) == Some(w));
        match self.group_col {
            Some(gc) => {
                if fields.len() <= gc {
                    return ;
                }
                if self.lookup.len() >= usize::MAX {
                    return ;
                }
                let ghost key = fs[gc as int];
                let ghost p = group_pos(pre.groups, key);
                proof {
                    lemma_group_pos(pre.groups, key);
                }
                let n = self.groups.len();
                let mut i: usize = 0;
                while i < n
                    invariant_except_break
                        0 <= i <= n == self.groups@.len(),
                        pre == self@,
                        fields@.len() > gc,
                        key == fields@[gc as int]@,
                        forall|j: int| 0 <= j < i ==> pre.groups[j].0 != key,
                    ensures
                        0 <= i <= n == self.groups@.len(),
                        pre == self@,
                        forall|j: int| 0 <= j < i ==> pre.groups[j].0 != key,
                        i < n ==> pre.groups[i as int].0 == key,
                    decreases n - i,
                {
                    if crate::parse::bytes_eq(self.groups[i].0.as_slice(), fields[gc].as_slice()) {
                        break ;
                    }
                    i += 1;
                }
                proof {
                    assert(i as int == p);
                }
                let row: u32 = if i < n {
                    self.groups[i].1
                } else {
                    proof {
                        assert(p == pre.groups.len());
                    }
                    if self.groups.len() >= u32::MAX as usize {
                        return ;
                    }
                    let r = self.groups.len() as u32;
                    let key_vec = clone_bytes(&fields[gc]);
                    let key_vec2 = clone_bytes(&fields[gc]);
                    self.groups.push((key_vec, r));
                    self.labels.push(key_vec2);
                    proof {
                        assert(self@.groups =~= pre.groups.push((key, r)));
                        assert(self@.labels =~= pre.labels.push(key));
                        assert(self@.chroms =~= pre.chroms);
                    }
                    r
                };
                let name = clone_bytes(&fields[0]);
                self.push_region_exec(name, start, end, row, w);
            },
            None => {
                if self.lookup.len() >= u32::MAX as usize {
                    return ;
                }
                proof {
                    assert(u32::MAX <= usize::MAX);
                }
                let row = self.lookup.len() as u32;
                let mut label = clone_bytes(&fields[0]);
                label.push(45u8);
                crate::parse::push_dec_u64(&mut label, start as u64);
                label.push(45u8);
                crate::parse::push_dec_u64(&mut label, end as u64);
                proof {
                    assert(label@ =~= label_of(fs[0], start, end));
                }
                self.labels.push(label);
                proof {
                    assert(self@.labels =~= pre.labels.push(label_of(fs[0], start, end)));
                    assert(self@.chroms =~= pre.chroms);
                    assert(self@.groups =~= pre.groups);
                }
                let name = clone_bytes(&fields[0]);
                self.push_region_exec(name, start, end, row, w);
            },
        }
    }

    /// Consume a batch of region lines in order: the fold of
    /// [`build_step`].
    pub fn add_lines(&mut self, lines: &Vec<Vec<u8>>)
        requires
            old(self).wf(),
        ensures
            final(self).wf(),
            final(self)@ == build_run(
                old(self)@,
                old(self).spec_group_col(),
                old(self).spec_weight_col(),
                views(lines@),
            ),
            final(self).spec_group_col() == old(self).spec_group_col(),
            final(self).spec_weight_col() == old(self).spec_weight_col(),
    {
        let ghost st0 = self@;
        let ghost gc = self.group_col;
        let ghost wc = self.weight_col;
        let ghost lvs = views(lines@);
        let n = lines.len();
        let mut k: usize = 0;
        proof {
            assert(lvs.skip(0) =~= lvs);
        }
        while k < n
            invariant
                0 <= k <= n == lines@.len(),
                lvs == views(lines@),
                self.wf(),
                self.spec_group_col() == gc,
                self.spec_weight_col() == wc,
                build_run(st0, gc, wc, lvs) == build_run(self@, gc, wc, lvs.skip(k as int)),
            decreases n - k,
        {
            self.add_line(lines[k].as_slice());
            k += 1;
            proof {
                assert(lvs[k - 1] == lines@[k - 1]@);
                assert(lvs.skip(k - 1)[0] == lvs[k - 1]);
                assert(lvs.skip(k - 1).drop_first() =~= lvs.skip(k as int));
            }
        }
        proof {
            assert(lvs.skip(n as int) =~= Seq::<Seq<u8>>::empty());
        }
    }

    /// The number of output rows assigned so far.
    pub fn nrows(&self) -> (r: u32)
        requires
            self.wf(),
        ensures
            r == nrows_of(self@, self.spec_group_col()),
    {
        match self.group_col {
            Some(_) => self.groups.len() as u32,
            None => self.lookup.len() as u32,
        }
    }

    /// Freeze the builder: sort every chromosome's intervals by start and
    /// bound their lengths, yielding the queryable index and the row labels.
    pub fn freeze(self) -> (r: (FeatureIndex, Vec<Vec<u8>>))
        requires
            self.wf(),
        ensures
            wf_index(r.0),
            r.0.lookup@ == self@.lookup,
            r.0.nrows == nrows_of(self@, self.spec_group_col()),
            r.0.chroms@.len() == self@.chroms.len(),
            forall|c: int| 0 <= c < self@.chroms.len() ==> {
                &&& (#[trigger] r.0.chroms@[c]).name@ == self@.chroms[c].0
                &&& r.0.chroms@[c].ivs@.to_multiset() == self@.chroms[c].1.to_multiset()
            },
            forall|i: int, j: int| 0 <= i < j < r.0.chroms@.len()
                ==> (#[trigger] r.0.chroms@[i]).name@ != (#[trigger] r.0.chroms@[j]).name@,
            views(r.1@) == self@.labels,
    {
        broadcast use vstd::seq_lib::group_to_multiset_ensures;

        let ghost pre = self@;
        let IndexBuilder { chroms, lookup, groups, labels, group_col, weight_col: _ } = self;
        let nrows_final: u32 = match group_col {
            Some(_) => groups.len() as u32,
            None => lookup.len() as u32,
        };
        let mut out: Vec<ChromIndex> = Vec::new();
        let mut c: usize = 0;
        let n = chroms.len();
        while c < n
            invariant
                0 <= c <= n == chroms@.len(),
                out@.len() == c,
                pre.chroms == chroms@.map_values(|cb: ChromBuild| cb@),
                pre.lookup == lookup@,
                forall|k: int| 0 <= k < c ==> wf_chrom(#[trigger] out@[k], lookup@.len() as int),
                forall|k: int| 0 <= k < c ==> {
                    &&& (#[trigger] out@[k]).name@ == pre.chroms[k].0
                    &&& out@[k].ivs@.to_multiset() == pre.chroms[k].1.to_multiset()
                },
                forall|c2: int, i: int|
                    0 <= c2 < pre.chroms.len() && 0 <= i < pre.chroms[c2].1.len()
                        ==> (#[trigger] pre.chroms[c2].1[i]).id < lookup@.len(),
            decreases n - c,
        {
            let cb = &chroms[c];
            let sorted = sort_by_start(&cb.ivs);
            let ml = compute_max_len(&sorted);
            proof {
                broadcast use vstd::seq_lib::group_to_multiset_ensures;

                assert(ids_ok(sorted@, lookup@.len() as int)) by {
                    assert forall|i: int| 0 <= i < sorted@.len() implies (#[trigger] sorted@[i]).id
                        < lookup@.len() by {
                        let x = sorted@[i];
                        assert(sorted@.to_multiset().contains(x));
                        assert(cb.ivs@.to_multiset().contains(x));
                        assert(cb.ivs@.contains(x));
                        let j = choose|j: int| 0 <= j < cb.ivs@.len() && cb.ivs@[j] == x;
                        assert(pre.chroms[c as int].1[j].id < lookup@.len());
                    }
                }
            }
            let name = clone_bytes(&cb.name);
            out.push(ChromIndex { name, ivs: sorted, max_len: ml });
            c += 1;
        }
        let ix = FeatureIndex { chroms: out, lookup, nrows: nrows_final };
        proof {
            assert(wf_index(ix));
        }
        (ix, labels)
    }
}

} // verus!
