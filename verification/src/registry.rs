//! The barcode registry: allowed barcodes mapped to column indices in input
//! order. It is consumed, not rebuilt: one line of the barcode file per
//! call, first occurrence of a barcode fixing its column. Lookups go
//! through a hash index — buckets keyed by a verified FNV-1a digest of the
//! barcode bytes — whose consistency with the canonical entry list is part
//! of the registry's well-formedness.

use std::collections::HashMap;
use vstd::prelude::*;

use crate::parse::views;

verus! {

broadcast use vstd::std_specs::hash::group_hash_axioms;

/// One FNV-1a step: fold a byte into the digest.
pub open spec fn fnv_step(h: u64, b: u8) -> u64 {
    (((h ^ (b as u64)) * 0x100000001b3) % 0x1_0000_0000_0000_0000) as u64
}

/// The FNV-1a digest of a byte string.
pub open spec fn fnv_spec(s: Seq<u8>) -> u64
    decreases s.len(),
{
    if s.len() == 0 {
        0xcbf29ce484222325u64
    } else {
        fnv_step(fnv_spec(s.drop_last()), s.last())
    }
}

/// Compute the FNV-1a digest of a byte string.
pub fn fnv64(s: &[u8]) -> (h: u64)
    ensures
        h == fnv_spec(s@),
{
    let n: usize = s.len();
    let mut h: u64 = 0xcbf29ce484222325;
    let mut i: usize = 0;
    proof {
        assert(s@.take(0) =~= Seq::<u8>::empty());
    }
    while i < n
        invariant
            0 <= i <= n == s@.len(),
            h == fnv_spec(s@.take(i as int)),
        decreases n - i,
    {
        let x: u64 = h ^ (s[i] as u64);
        h = ((x as u128 * 0x100000001b3u128) % 0x1_0000_0000_0000_0000u128) as u64;
        i += 1;
        proof {
            assert(s@.take(i as int).drop_last() =~= s@.take(i as int - 1));
        }
    }
    proof {
        assert(s@.take(n as int) =~= s@);
    }
    h
}

/// First position of a barcode among the entries, or their number if
/// absent.
pub open spec fn reg_pos(entries: Seq<(Seq<u8>, u32)>, b: Seq<u8>) -> int
    decreases entries.len(),
{
    if entries.len() == 0 {
        0
    } else if entries[0].0 == b {
        0
    } else {
        1 + reg_pos(entries.drop_first(), b)
    }
}

pub proof fn lemma_reg_pos(entries: Seq<(Seq<u8>, u32)>, b: Seq<u8>)
    ensures
        0 <= reg_pos(entries, b) <= entries.len(),
        reg_pos(entries, b) < entries.len() ==> entries[reg_pos(entries, b)].0 == b,
        forall|j: int| 0 <= j < reg_pos(entries, b) ==> entries[j].0 != b,
    decreases entries.len(),
{
    if entries.len() > 0 && entries[0].0 != b {
        lemma_reg_pos(entries.drop_first(), b);
        assert forall|j: int| 0 <= j < reg_pos(entries, b) implies entries[j].0 != b by {
            if j > 0 {
                assert(entries.drop_first()[j - 1].0 != b);
            }
        }
    }
}

/// `reg_pos` is determined by a barcode-free prefix.
proof fn lemma_reg_pos_is(entries: Seq<(Seq<u8>, u32)>, b: Seq<u8>, t: int)
    requires
        0 <= t <= entries.len(),
        forall|j: int| 0 <= j < t ==> entries[j].0 != b,
        t < entries.len() ==> entries[t].0 == b,
    ensures
        reg_pos(entries, b) == t,
    decreases entries.len(),
{
    if entries.len() > 0 && entries[0].0 != b {
        lemma_reg_pos_is(entries.drop_first(), b, t - 1);
    }
}

pub open spec fn reg_contains(entries: Seq<(Seq<u8>, u32)>, b: Seq<u8>) -> bool {
    reg_pos(entries, b) < entries.len()
}

/// The column of a registered barcode.
pub open spec fn reg_col(entries: Seq<(Seq<u8>, u32)>, b: Seq<u8>) -> u32 {
    entries[reg_pos(entries, b)].1
}

/// The effect of one barcode-file line.
pub open spec fn reg_step(entries: Seq<(Seq<u8>, u32)>, line: Seq<u8>) -> Seq<(Seq<u8>, u32)> {
    if reg_contains(entries, line) {
        entries
    } else if entries.len() < u32::MAX {
        entries.push((line, entries.len() as u32))
    } else {
        entries
    }
}

/// Folding [`reg_step`] over the barcode file's lines.
pub open spec fn reg_run(entries: Seq<(Seq<u8>, u32)>, lines: Seq<Seq<u8>>) -> Seq<(Seq<u8>, u32)>
    decreases lines.len(),
{
    if lines.len() == 0 {
        entries
    } else {
        reg_run(reg_step(entries, lines[0]), lines.drop_first())
    }
}

pub struct BarcodeRegistry {
    pub entries: Vec<(Vec<u8>, u32)>,
    pub buckets: HashMap<u64, Vec<(Vec<u8>, u32)>>,
}

impl View for BarcodeRegistry {
    type V = Seq<(Seq<u8>, u32)>;

    open spec fn view(&self) -> Seq<(Seq<u8>, u32)> {
        self.entries@.map_values(|e: (Vec<u8>, u32)| (e.0@, e.1))
    }
}

/// Scan one bucket for a barcode.
fn bucket_find(bucket: &Vec<(Vec<u8>, u32)>, b: &[u8]) -> (r: Option<u32>)
    ensures
        match r {
            Some(c) => exists|k: int|
                0 <= k < bucket@.len() && (#[trigger] bucket@[k]).0@ == b@ && bucket@[k].1 == c,
            None => forall|k: int| 0 <= k < bucket@.len() ==> (#[trigger] bucket@[k]).0@ != b@,
        },
{
    let n = bucket.len();
    let mut k: usize = 0;
    while k < n
        invariant_except_break
            0 <= k <= n == bucket@.len(),
            forall|j: int| 0 <= j < k ==> (#[trigger] bucket@[j]).0@ != b@,
        ensures
            0 <= k <= n == bucket@.len(),
            forall|j: int| 0 <= j < k ==> (#[trigger] bucket@[j]).0@ != b@,
            k < n ==> bucket@[k as int].0@ == b@,
        decreases n - k,
    {
        if crate::parse::bytes_eq(bucket[k].0.as_slice(), b) {
            break ;
        }
        k += 1;
    }
    if k < n {
        Some(bucket[k].1)
    } else {
        None
    }
}

impl BarcodeRegistry {
    /// Columns are dense, in input order; barcodes are distinct; every
    /// bucket pair restates a canonical entry under its own digest, and
    /// every entry is found in its digest's bucket.
    pub open spec fn wf(&self) -> bool {
        &&& self@.len() <= u32::MAX
        &&& forall|i: int| 0 <= i < self@.len() ==> (#[trigger] self@[i]).1 == i
        &&& forall|i: int, j: int|
            0 <= i < j < self@.len() ==> (#[trigger] self@[i]).0 != (#[trigger] self@[j]).0
        &&& forall|h: u64, k: int|
            self.buckets@.contains_key(h) && 0 <= k < self.buckets@[h]@.len() ==> {
                let p = #[trigger] self.buckets@[h]@[k];
                &&& fnv_spec(p.0@) == h
                &&& reg_contains(self@, p.0@)
                &&& reg_col(self@, p.0@) == p.1
            }
        &&& forall|i: int|
            0 <= i < self@.len() ==> {
                let b = (#[trigger] self@[i]).0;
                &&& self.buckets@.contains_key(fnv_spec(b))
                &&& exists|k: int|
                    0 <= k < self.buckets@[fnv_spec(b)]@.len() && (
                    #[trigger] self.buckets@[fnv_spec(b)]@[k]).0@ == b
            }
    }

    pub fn new() -> (r: BarcodeRegistry)
        ensures
            r.wf(),
            r@.len() == 0,
    {
        let r = BarcodeRegistry { entries: Vec::new(), buckets: HashMap::new() };
        proof {
            assert(r@ =~= Seq::<(Seq<u8>, u32)>::empty());
        }
        r
    }

    /// The number of columns: one per registered barcode.
    pub fn len(&self) -> (r: usize)
        ensures
            r == self@.len(),
    {
        self.entries.len()
    }

    /// Register one barcode-file line.
    pub fn add_line(&mut self, line: &[u8])
        requires
            old(self).wf(),
        ensures
            final(self).wf(),
            final(self)@ == reg_step(old(self)@, line@),
    {
        let ghost pre = *old(self);
        let h = fnv64(line);
        let found: Option<u32> = match self.buckets.get(&h) {
            Some(bucket) => bucket_find(bucket, line),
            None => None,
        };
        if found.is_some() {
            // a bucket pair restates a canonical entry: the barcode is
            // registered and the step changes nothing
            proof {
                assert(reg_contains(pre@, line@));
            }
            return ;
        }
        // were the barcode registered, its digest's bucket would hold it
        proof {
            if reg_contains(pre@, line@) {
                lemma_reg_pos(pre@, line@);
                assert(pre.buckets@.contains_key(h));
                let kw = choose|kw: int|
                    0 <= kw < pre.buckets@[h]@.len() && (#[trigger] pre.buckets@[h]@[kw]).0@
                        == line@;
            }
        }
        if self.entries.len() >= u32::MAX as usize {
            return ;
        }
        let col = self.entries.len() as u32;
        let b1 = crate::parse::subrange_vec(line, 0, line.len());
        let b2 = crate::parse::subrange_vec(line, 0, line.len());
        proof {
            assert(b1@ =~= line@);
            assert(b2@ =~= line@);
        }
        let mut bucket: Vec<(Vec<u8>, u32)> = match self.buckets.remove(&h) {
            Some(v) => v,
            None => Vec::new(),
        };
        let ghost bview = bucket@;
        proof {
            if pre.buckets@.contains_key(h) {
                assert(bview == pre.buckets@[h]@);
            } else {
                assert(bview =~= Seq::<(Vec<u8>, u32)>::empty());
            }
        }
        self.entries.push((b1, col));
        bucket.push((b2, col));
        self.buckets.insert(h, bucket);
        proof {
            assert(self@ =~= pre@.push((line@, pre@.len() as u32)));
            lemma_reg_pos(pre@, line@);
            lemma_reg_pos_is(self@, line@, pre@.len() as int);
            assert(reg_col(self@, line@) == col);
            assert forall|b: Seq<u8>| reg_contains(pre@, b) implies reg_contains(self@, b)
                && reg_col(self@, b) == reg_col(pre@, b) by {
                lemma_reg_pos(pre@, b);
                lemma_reg_pos_is(self@, b, reg_pos(pre@, b));
            }
            assert(final(self).wf()) by {
                assert forall|h2: u64, k2: int|
                    self.buckets@.contains_key(h2) && 0 <= k2 < self.buckets@[h2]@.len() implies ({
                    let p = #[trigger] self.buckets@[h2]@[k2];
                    &&& fnv_spec(p.0@) == h2
                    &&& reg_contains(self@, p.0@)
                    &&& reg_col(self@, p.0@) == p.1
                }) by {
                    if h2 == h {
                        assert(self.buckets@[h2]@ == bview.push((b2, col)));
                        if k2 < bview.len() {
                            assert(pre.buckets@[h]@[k2] == bview[k2]);
                        }
                    } else {
                        assert(pre.buckets@.contains_key(h2));
                        assert(self.buckets@[h2] == pre.buckets@[h2]);
                    }
                }
                assert forall|i: int| 0 <= i < self@.len() implies ({
                    let b = (#[trigger] self@[i]).0;
                    &&& self.buckets@.contains_key(fnv_spec(b))
                    &&& exists|k2: int|
                        0 <= k2 < self.buckets@[fnv_spec(b)]@.len() && (
                        #[trigger] self.buckets@[fnv_spec(b)]@[k2]).0@ == b
                }) by {
                    let b = self@[i].0;
                    if i < pre@.len() {
                        assert(pre@[i].0 == b);
                        let k2 = choose|k2: int|
                            0 <= k2 < pre.buckets@[fnv_spec(b)]@.len() && (
                            #[trigger] pre.buckets@[fnv_spec(b)]@[k2]).0@ == b;
                        if fnv_spec(b) == h {
                            assert(self.buckets@[h]@[k2].0@ == b);
                        } else {
                            assert(self.buckets@[fnv_spec(b)] == pre.buckets@[fnv_spec(b)]);
                            assert(self.buckets@[fnv_spec(b)]@[k2].0@ == b);
                        }
                    } else {
                        assert(b == line@);
                        assert(self.buckets@[h]@[bview.len() as int].0@ == line@);
                    }
                }
            }
        }
    }

    /// Register a batch of barcode-file lines in order: the fold of
    /// [`reg_step`].
    pub fn add_lines(&mut self, lines: &Vec<Vec<u8>>)
        requires
            old(self).wf(),
        ensures
            final(self).wf(),
            final(self)@ == reg_run(old(self)@, views(lines@)),
    {
        let ghost st0 = self@;
        let ghost lvs = views(lines@);
        let n = lines.len();
        let mut k: usize = 0;
        proof {
            assert(lvs.skip(0) =~= lvs);
        }
        while k < n
            invariant
                0 <= k <= n == lines@.len(),
                lvs == views(lines@),
                self.wf(),
                reg_run(st0, lvs) == reg_run(self@, lvs.skip(k as int)),
            decreases n - k,
        {
            self.add_line(lines[k].as_slice());
            k += 1;
            proof {
                assert(lvs[k - 1] == lines@[k - 1]@);
                assert(lvs.skip(k - 1)[0] == lvs[k - 1]);
                assert(lvs.skip(k - 1).drop_first() =~= lvs.skip(k as int));
            }
        }
        proof {
            assert(lvs.skip(n as int) =~= Seq::<Seq<u8>>::empty());
        }
    }

    /// The column of a barcode, if it is registered: one digest, one
    /// bucket scan.
    pub fn lookup(&self, b: &[u8]) -> (r: Option<u32>)
        requires
            self.wf(),
        ensures
            r == (if reg_contains(self@, b@) {
                Some(reg_col(self@, b@))
            } else {
                None::<u32>
            }),
    {
        let h = fnv64(b);
        let found: Option<u32> = match self.buckets.get(&h) {
            Some(bucket) => bucket_find(bucket, b),
            None => None,
        };
        proof {
            if reg_contains(self@, b@) {
                lemma_reg_pos(self@, b@);
                assert(self.buckets@.contains_key(h));
                let kw = choose|kw: int|
                    0 <= kw < self.buckets@[h]@.len() && (#[trigger] self.buckets@[h]@[kw]).0@
                        == b@;
                assert(found is Some);
            }
        }
        found
    }

    /// The registered barcodes, in column order.
    pub fn barcodes(&self) -> (r: Vec<Vec<u8>>)
        ensures
            views(r@).len() == self@.len(),
            forall|i: int| 0 <= i < self@.len() ==> views(r@)[i] == self@[i].0,
    {
        let n = self.entries.len();
        let mut out: Vec<Vec<u8>> = Vec::new();
        let mut i: usize = 0;
        while i < n
            invariant
                0 <= i <= n == self.entries@.len(),
                out@.len() == i,
                forall|j: int| 0 <= j < i ==> (#[trigger] out@[j])@ == self@[j].0,
            decreases n - i,
        {
            let e = &self.entries[i];
            let b = crate::parse::subrange_vec(e.0.as_slice(), 0, e.0.len());
            proof {
                assert(b@ =~= self@[i as int].0);
            }
            out.push(b);
            i += 1;
        }
        proof {
            assert forall|j: int| 0 <= j < self@.len() implies views(out@)[j] == self@[j].0 by {
                assert(views(out@)[j] == out@[j]@);
            }
        }
        out
    }
}

} // verus!
