//! Frozen per-chromosome interval indexes and the cursor-based point query.
//!
//! A `FeatureIndex` holds, for every chromosome seen in the region file, its
//! intervals sorted by start coordinate, together with a lookup table that
//! maps each interval's identifier to its output row and weight. Point
//! queries walk a monotone cursor: for a stream of query points that never
//! move backwards within a chromosome, every interval overlapping each point
//! is reported exactly once.

use vstd::prelude::*;

verus! {

/// One retained region: a half-open range `[start, end)` on some chromosome,
/// tagged with its position in the row/weight lookup table.
#[derive(Clone, Copy)]
pub struct Interval {
    pub start: u32,
    pub end: u32,
    pub id: usize,
}

/// A chromosome's frozen index: its name, intervals sorted by start, and an
/// upper bound on interval length used by the cursor advance.
pub struct ChromIndex {
    pub name: Vec<u8>,
    pub ivs: Vec<Interval>,
    pub max_len: u32,
}

/// The frozen feature index: all chromosome indexes, the id-keyed
/// (row, weight) lookup table, and the number of output rows.
pub struct FeatureIndex {
    pub chroms: Vec<ChromIndex>,
    pub lookup: Vec<(u32, u64)>,
    pub nrows: u32,
}

/// A vector's view never outgrows the machine's address range.
pub proof fn lemma_vec_len_bound<T>(v: &Vec<T>)
    ensures
        v@.len() <= usize::MAX,
{
    broadcast use vstd::std_specs::vec::axiom_spec_len;

    assert(vstd::std_specs::vec::spec_vec_len(v) == v@.len());
}

/// A point lies in a half-open interval.
pub open spec fn overlaps(iv: Interval, p: u32) -> bool {
    iv.start <= p < iv.end
}

pub open spec fn sorted_by_start(ivs: Seq<Interval>) -> bool {
    forall|i: int, j: int| 0 <= i < j < ivs.len() ==> #[trigger] ivs[i].start <= #[trigger] ivs[j].start
}

/// Every interval's end stays within `ml` of its start.
pub open spec fn len_bounded(ivs: Seq<Interval>, ml: u32) -> bool {
    forall|i: int| 0 <= i < ivs.len() ==> (#[trigger] ivs[i]).end <= ivs[i].start + ml
}

/// Every interval id indexes the lookup table.
pub open spec fn ids_ok(ivs: Seq<Interval>, n: int) -> bool {
    forall|i: int| 0 <= i < ivs.len() ==> (#[trigger] ivs[i]).id < n
}

pub open spec fn wf_chrom(c: ChromIndex, nlookup: int) -> bool {
    &&& sorted_by_start(c.ivs@)
    &&& len_bounded(c.ivs@, c.max_len)
    &&& ids_ok(c.ivs@, nlookup)
}

/// First position of a chromosome name, or the length if absent.
pub open spec fn chrom_pos(chroms: Seq<ChromIndex>, name: Seq<u8>) -> int
    decreases chroms.len(),
{
    if chroms.len() == 0 {
        0
    } else if chroms[0].name@ == name {
        0
    } else {
        1 + chrom_pos(chroms.drop_first(), name)
    }
}

pub proof fn lemma_chrom_pos(chroms: Seq<ChromIndex>, name: Seq<u8>)
    ensures
        0 <= chrom_pos(chroms, name) <= chroms.len(),
        chrom_pos(chroms, name) < chroms.len() ==> chroms[chrom_pos(chroms, name)].name@ == name,
        forall|j: int| 0 <= j < chrom_pos(chroms, name) ==> chroms[j].name@ != name,
    decreases chroms.len(),
{
    if chroms.len() > 0 && chroms[0].name@ != name {
        lemma_chrom_pos(chroms.drop_first(), name);
        assert forall|j: int| 0 <= j < chrom_pos(chroms, name) implies chroms[j].name@ != name by {
            if j > 0 {
                assert(chroms.drop_first()[j - 1].name@ != name);
            }
        }
    }
}

pub open spec fn wf_index(ix: FeatureIndex) -> bool {
    &&& forall|c: int| 0 <= c < ix.chroms@.len() ==> wf_chrom(#[trigger] ix.chroms@[c], ix.lookup@.len() as int)
    &&& forall|k: int| 0 <= k < ix.lookup@.len() ==> (#[trigger] ix.lookup@[k]).0 < ix.nrows
}

impl FeatureIndex {
    /// Position of a chromosome's index, if that chromosome has features.
    pub fn find_chrom(&self, name: &[u8]) -> (r: Option<usize>)
        ensures
            r == (if chrom_pos(self.chroms@, name@) < self.chroms@.len() {
                Some(chrom_pos(self.chroms@, name@) as usize)
            } else {
                None::<usize>
            }),
    {
        let n = self.chroms.len();
        let mut i: usize = 0;
        while i < n
            invariant
                0 <= i <= n == self.chroms@.len(),
                forall|j: int| 0 <= j < i ==> self.chroms@[j].name@ != name@,
            decreases n - i,
        {
            if crate::parse::bytes_eq(self.chroms[i].name.as_slice(), name) {
                proof {
                    lemma_chrom_pos(self.chroms@, name@);
                }
                return Some(i);
            }
            i += 1;
        }
        proof {
            lemma_chrom_pos(self.chroms@, name@);
        }
        None
    }
}

/// Cursor advance: skip every leading interval that ends at or before `p`
/// and therefore cannot overlap `p` nor any later point.
pub open spec fn adv_spec(ivs: Seq<Interval>, ml: u32, p: u32, cur: int) -> int
    decreases ivs.len() - cur,
{
    if 0 <= cur < ivs.len() && ivs[cur].start + ml <= p {
        adv_spec(ivs, ml, p, cur + 1)
    } else {
        cur
    }
}

/// Scan from `j`: indexes of the intervals containing `p`, in ascending
/// order, stopping at the first interval that starts beyond `p`.
pub open spec fn collect_spec(ivs: Seq<Interval>, p: u32, j: int) -> Seq<usize>
    decreases ivs.len() - j,
{
    if 0 <= j < ivs.len() && ivs[j].start <= p {
        if p < ivs[j].end {
            seq![j as usize] + collect_spec(ivs, p, j + 1)
        } else {
            collect_spec(ivs, p, j + 1)
        }
    } else {
        Seq::empty()
    }
}

pub proof fn lemma_adv(ivs: Seq<Interval>, ml: u32, p: u32, cur: int)
    requires
        0 <= cur <= ivs.len(),
    ensures
        cur <= adv_spec(ivs, ml, p, cur) <= ivs.len(),
        forall|i: int| cur <= i < adv_spec(ivs, ml, p, cur) ==> (#[trigger] ivs[i]).start + ml <= p,
        adv_spec(ivs, ml, p, cur) < ivs.len() ==> ivs[adv_spec(ivs, ml, p, cur)].start + ml > p,
    decreases ivs.len() - cur,
{
    if cur < ivs.len() && ivs[cur].start + ml <= p {
        lemma_adv(ivs, ml, p, cur + 1);
    }
}

/// What the scan returns: exactly the overlapping intervals at or after `j`,
/// in strictly ascending index order, provided the intervals are sorted.
pub proof fn lemma_collect(ivs: Seq<Interval>, p: u32, j: int)
    requires
        0 <= j <= ivs.len(),
        ivs.len() <= usize::MAX,
        sorted_by_start(ivs),
    ensures
        forall|i: int| j <= i < ivs.len() ==> (collect_spec(ivs, p, j).contains(i as usize)
            <==> overlaps(#[trigger] ivs[i], p)),
        forall|k: int| 0 <= k < collect_spec(ivs, p, j).len()
            ==> j <= #[trigger] collect_spec(ivs, p, j)[k] < ivs.len(),
        forall|k1: int, k2: int| 0 <= k1 < k2 < collect_spec(ivs, p, j).len()
            ==> #[trigger] collect_spec(ivs, p, j)[k1] < #[trigger] collect_spec(ivs, p, j)[k2],
        forall|k: int| 0 <= k < collect_spec(ivs, p, j).len()
            ==> overlaps(ivs[#[trigger] collect_spec(ivs, p, j)[k] as int], p),
    decreases ivs.len() - j,
{
    let r = collect_spec(ivs, p, j);
    if j < ivs.len() && ivs[j].start <= p {
        lemma_collect(ivs, p, j + 1);
        let r2 = collect_spec(ivs, p, j + 1);
        if p < ivs[j].end {
            assert(r == seq![j as usize] + r2);
            assert forall|i: int| j <= i < ivs.len() implies (r.contains(i as usize) <==> overlaps(
                ivs[i],
                p,
            )) by {
                if i == j {
                    assert(r[0] == j as usize);
                    assert(r.contains(j as usize));
                } else {
                    assert(r.contains(i as usize) <==> r2.contains(i as usize)) by {
                        if r.contains(i as usize) {
                            let k = choose|k: int| 0 <= k < r.len() && r[k] == i as usize;
                            assert(k > 0);
                            assert(r2[k - 1] == i as usize);
                        }
                        if r2.contains(i as usize) {
                            let k = choose|k: int| 0 <= k < r2.len() && r2[k] == i as usize;
                            assert(r[k + 1] == i as usize);
                        }
                    }
                }
            }
        } else {
            assert(r == r2);
            assert forall|i: int| j <= i < ivs.len() implies (r.contains(i as usize) <==> overlaps(
                ivs[i],
                p,
            )) by {
                if i == j {
                    assert(!overlaps(ivs[j], p));
                    if r.contains(j as usize) {
                        let k = choose|k: int| 0 <= k < r.len() && r[k] == j as usize;
                        assert(j <= r2[k]);
                    }
                }
            }
        }
    } else {
        assert(r == Seq::<usize>::empty());
        assert forall|i: int| j <= i < ivs.len() implies (r.contains(i as usize) <==> overlaps(
            ivs[i],
            p,
        )) by {
            if j < ivs.len() {
                // the scan stopped at an interval starting beyond p; sortedness
                // rules out any later overlap
                assert(ivs[j].start <= ivs[i].start);
            }
        }
    }
}

/// Overlap query at point `p`, advancing the cursor past intervals that no
/// later point of an ascending stream can touch. Returns the positions,
/// within the sorted interval list, of every interval containing `p` at or
/// after the advanced cursor; when the cursor was sound for `p` (nothing
/// before it overlaps `p`), that is every interval containing `p`.
pub fn query_point(ivs: &Vec<Interval>, ml: u32, p: u32, cursor: &mut usize) -> (hits: Vec<usize>)
    requires
        *old(cursor) <= ivs@.len(),
    ensures
        *final(cursor) == adv_spec(ivs@, ml, p, *old(cursor) as int),
        hits@ == collect_spec(ivs@, p, *final(cursor) as int),
        *old(cursor) <= *final(cursor) <= ivs@.len(),
{
    let n = ivs.len();
    proof {
        lemma_adv(ivs@, ml, p, *cursor as int);
    }
    while *cursor < n && ivs[*cursor].start as u64 + ml as u64 <= p as u64
        invariant
            *cursor <= n == ivs@.len(),
            *old(cursor) <= *cursor,
            adv_spec(ivs@, ml, p, *old(cursor) as int) == adv_spec(ivs@, ml, p, *cursor as int),
        decreases n - *cursor,
    {
        *cursor = *cursor + 1;
    }
    let c2 = *cursor;
    let mut hits: Vec<usize> = Vec::new();
    let mut j: usize = c2;
    proof {
        assert(hits@ + collect_spec(ivs@, p, j as int) =~= collect_spec(ivs@, p, c2 as int));
    }
    while j < n && ivs[j].start <= p
        invariant
            c2 <= j <= n == ivs@.len(),
            collect_spec(ivs@, p, c2 as int) =~= hits@ + collect_spec(ivs@, p, j as int),
        decreases n - j,
    {
        if p < ivs[j].end {
            hits.push(j);
        }
        j += 1;
        proof {
            assert(collect_spec(ivs@, p, c2 as int) =~= hits@ + collect_spec(ivs@, p, j as int));
        }
    }
    proof {
        assert(collect_spec(ivs@, p, j as int) =~= Seq::<usize>::empty());
        assert(hits@ =~= collect_spec(ivs@, p, c2 as int));
    }
    hits
}

/// Overlap scan at point `p` from a fixed position, without moving any
/// cursor: the end-point query of a fragment, issued from the cursor the
/// start-point query advanced.
pub fn scan_point(ivs: &Vec<Interval>, p: u32, from: usize) -> (hits: Vec<usize>)
    requires
        from <= ivs@.len(),
    ensures
        hits@ == collect_spec(ivs@, p, from as int),
{
    let n = ivs.len();
    let mut hits: Vec<usize> = Vec::new();
    let mut j: usize = from;
    proof {
        assert(hits@ + collect_spec(ivs@, p, j as int) =~= collect_spec(ivs@, p, from as int));
    }
    while j < n && ivs[j].start <= p
        invariant
            from <= j <= n == ivs@.len(),
            collect_spec(ivs@, p, from as int) =~= hits@ + collect_spec(ivs@, p, j as int),
        decreases n - j,
    {
        if p < ivs[j].end {
            hits.push(j);
        }
        j += 1;
        proof {
            assert(collect_spec(ivs@, p, from as int) =~= hits@ + collect_spec(ivs@, p, j as int));
        }
    }
    proof {
        assert(collect_spec(ivs@, p, j as int) =~= Seq::<usize>::empty());
        assert(hits@ =~= collect_spec(ivs@, p, from as int));
    }
    hits
}

/// Insert an interval before the first interval starting later, keeping the
/// list sorted.
fn sorted_insert(v: &mut Vec<Interval>, x: Interval)
    requires
        sorted_by_start(old(v)@),
    ensures
        sorted_by_start(final(v)@),
        final(v)@.to_multiset() == old(v)@.to_multiset().insert(x),
        final(v)@.len() == old(v)@.len() + 1,
{
    broadcast use vstd::seq_lib::group_seq_properties;

    let n = v.len();
    let mut pos: usize = 0;
    while pos < n && v[pos].start <= x.start
        invariant
            0 <= pos <= n == v@.len(),
            forall|j: int| 0 <= j < pos ==> (#[trigger] v@[j]).start <= x.start,
        decreases n - pos,
    {
        pos += 1;
    }
    proof {
        if pos < v@.len() {
            assert(x.start < v@[pos as int].start);
        }
    }
    v.insert(pos, x);
    proof {
        vstd::seq_lib::to_multiset_insert(old(v)@, pos as int, x);
        assert forall|i: int, j: int| 0 <= i < j < v@.len() implies #[trigger] v@[i].start
            <= #[trigger] v@[j].start by {
            if i < pos && j > pos {
                assert(old(v)@[i] == v@[i]);
                assert(old(v)@[j - 1] == v@[j]);
            }
        }
    }
}

/// Sort a chromosome's intervals by start coordinate.
pub fn sort_by_start(v: &Vec<Interval>) -> (r: Vec<Interval>)
    ensures
        sorted_by_start(r@),
        r@.to_multiset() == v@.to_multiset(),
        r@.len() == v@.len(),
{
    broadcast use vstd::seq_lib::group_to_multiset_ensures;

    let n = v.len();
    let mut r: Vec<Interval> = Vec::new();
    let mut i: usize = 0;
    proof {
        assert(v@.take(0) =~= Seq::<Interval>::empty());
        assert(r@.to_multiset() =~= v@.take(0).to_multiset());
    }
    while i < n
        invariant
            0 <= i <= n == v@.len(),
            sorted_by_start(r@),
            r@.to_multiset() == v@.take(i as int).to_multiset(),
            r@.len() == i,
        decreases n - i,
    {
        sorted_insert(&mut r, v[i]);
        i += 1;
        proof {
            broadcast use vstd::seq_lib::to_multiset_build;

            assert(v@.take(i as int) =~= v@.take(i as int - 1).push(v@[i as int - 1]));
        }
    }
    proof {
        assert(v@.take(n as int) =~= v@);
    }
    r
}

/// Smallest bound on interval length: every `end` is within the result of
/// its `start`.
pub fn compute_max_len(v: &Vec<Interval>) -> (ml: u32)
    ensures
        len_bounded(v@, ml),
{
    let n = v.len();
    let mut ml: u32 = 0;
    let mut i: usize = 0;
    while i < n
        invariant
            0 <= i <= n == v@.len(),
            forall|j: int| 0 <= j < i ==> (#[trigger] v@[j]).end <= v@[j].start + ml,
        decreases n - i,
    {
        let iv = v[i];
        if iv.end > iv.start {
            let len = iv.end - iv.start;
            if len > ml {
                ml = len;
            }
        }
        i += 1;
    }
    ml
}

} // verus!
