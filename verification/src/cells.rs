//! Per-barcode fragment counting and barcode-based fragment subsetting:
//! the decisions of the two companion utilities, one line at a time. The
//! surrounding application only decompresses, feeds lines, and writes what
//! comes back.

use vstd::prelude::*;

use crate::matrix::sat_add;
use crate::parse::{is_comment, split_fields, split_spec, views};
use crate::registry::{reg_contains, BarcodeRegistry};

verus! {

/// First position of a barcode among the counts, or their number if
/// absent.
pub open spec fn count_pos(entries: Seq<(Seq<u8>, u64)>, b: Seq<u8>) -> int
    decreases entries.len(),
{
    if entries.len() == 0 {
        0
    } else if entries[0].0 == b {
        0
    } else {
        1 + count_pos(entries.drop_first(), b)
    }
}

pub proof fn lemma_count_pos(entries: Seq<(Seq<u8>, u64)>, b: Seq<u8>)
    ensures
        0 <= count_pos(entries, b) <= entries.len(),
        count_pos(entries, b) < entries.len() ==> entries[count_pos(entries, b)].0 == b,
        forall|j: int| 0 <= j < count_pos(entries, b) ==> entries[j].0 != b,
    decreases entries.len(),
{
    if entries.len() > 0 && entries[0].0 != b {
        lemma_count_pos(entries.drop_first(), b);
        assert forall|j: int| 0 <= j < count_pos(entries, b) implies entries[j].0 != b by {
            if j > 0 {
                assert(entries.drop_first()[j - 1].0 != b);
            }
        }
    }
}

/// The effect of one fragment line on the per-barcode counts: a comment or
/// a line without a barcode field changes nothing; otherwise the line's
/// barcode gains one fragment, entering the table at its first occurrence.
pub open spec fn count_step(entries: Seq<(Seq<u8>, u64)>, line: Seq<u8>) -> Seq<(Seq<u8>, u64)> {
    if is_comment(line) {
        entries
    } else {
        let fs = split_spec(line);
        if fs.len() < 4 {
            entries
        } else {
            let p = count_pos(entries, fs[3]);
            if p < entries.len() {
                entries.update(p, (entries[p].0, sat_add(entries[p].1, 1)))
            } else {
                entries.push((fs[3], 1u64))
            }
        }
    }
}

/// The barcodes whose count exceeds the cutoff, in table order.
pub open spec fn selected(entries: Seq<(Seq<u8>, u64)>, cutoff: u64) -> Seq<Seq<u8>>
    decreases entries.len(),
{
    if entries.len() == 0 {
        Seq::empty()
    } else {
        (if entries[0].1 > cutoff {
            seq![entries[0].0]
        } else {
            Seq::empty()
        }) + selected(entries.drop_first(), cutoff)
    }
}

/// Fragment counts per cell barcode, in first-seen order.
pub struct BarcodeCounts {
    pub entries: Vec<(Vec<u8>, u64)>,
}

impl View for BarcodeCounts {
    type V = Seq<(Seq<u8>, u64)>;

    open spec fn view(&self) -> Seq<(Seq<u8>, u64)> {
        self.entries@.map_values(|e: (Vec<u8>, u64)| (e.0@, e.1))
    }
}

impl BarcodeCounts {
    /// Each barcode appears once.
    pub open spec fn wf(&self) -> bool {
        forall|i: int, j: int|
            0 <= i < j < self@.len() ==> (#[trigger] self@[i]).0 != (#[trigger] self@[j]).0
    }

    pub fn new() -> (r: BarcodeCounts)
        ensures
            r.wf(),
            r@.len() == 0,
    {
        let r = BarcodeCounts { entries: Vec::new() };
        proof {
            assert(r@ =~= Seq::<(Seq<u8>, u64)>::empty());
        }
        r
    }

    /// Count one fragment line: exactly the step of [`count_step`].
    pub fn count_line(&mut self, line: &[u8])
        requires
            old(self).wf(),
        ensures
            final(self).wf(),
            final(self)@ == count_step(old(self)@, line@),
    {
        let ghost pre = self@;
        if line.len() > 0 && line[0] == 35u8 {
            return ;
        }
        let fields = split_fields(line);
        if fields.len() < 4 {
            return ;
        }
        let ghost b = split_spec(line@)[3];
        let ghost p = count_pos(pre, b);
        proof {
            lemma_count_pos(pre, b);
        }
        let n = self.entries.len();
        let mut i: usize = 0;
        while i < n
            invariant_except_break
                0 <= i <= n == self.entries@.len(),
                pre == self@,
                b == fields@[3]@,
                fields@.len() >= 4,
                forall|j: int| 0 <= j < i ==> pre[j].0 != b,
            ensures
                0 <= i <= n == self.entries@.len(),
                pre == self@,
                forall|j: int| 0 <= j < i ==> pre[j].0 != b,
                i < n ==> pre[i as int].0 == b,
            decreases n - i,
        {
            if crate::parse::bytes_eq(self.entries[i].0.as_slice(), fields[3].as_slice()) {
                break ;
            }
            i += 1;
        }
        proof {
            assert(i as int == p);
        }
        if i < n {
            let cur = self.entries[i].1;
            let newv: u64 = if cur <= u64::MAX - 1 {
                cur + 1
            } else {
                u64::MAX
            };
            let e = &mut self.entries[i];
            e.1 = newv;
            proof {
                assert(self@ =~= pre.update(p, (pre[p].0, sat_add(pre[p].1, 1))));
            }
        } else {
            let key = crate::parse::subrange_vec(fields[3].as_slice(), 0, fields[3].len());
            proof {
                assert(key@ =~= b);
            }
            self.entries.push((key, 1u64));
            proof {
                assert(self@ =~= pre.push((b, 1u64)));
            }
        }
    }

    /// The barcodes counted more often than the cutoff, in first-seen
    /// order.
    pub fn select_barcodes(&self, cutoff: u64) -> (r: Vec<Vec<u8>>)
        ensures
            views(r@) == selected(self@, cutoff),
    {
        let n = self.entries.len();
        let mut out: Vec<Vec<u8>> = Vec::new();
        let mut i: usize = 0;
        proof {
            assert(self@.skip(0) =~= self@);
            assert(views(out@) + selected(self@.skip(0), cutoff) =~= selected(self@, cutoff));
        }
        while i < n
            invariant
                0 <= i <= n == self.entries@.len(),
                selected(self@, cutoff) =~= views(out@) + selected(self@.skip(i as int), cutoff),
            decreases n - i,
        {
            if self.entries[i].1 > cutoff {
                let e = &self.entries[i];
                let key = crate::parse::subrange_vec(e.0.as_slice(), 0, e.0.len());
                proof {
                    assert(key@ =~= self@[i as int].0);
                }
                out.push(key);
                proof {
                    assert(views(out@) =~= views(out@.drop_last()).push(self@[i as int].0));
                }
            }
            i += 1;
            proof {
                assert(self@.skip(i - 1)[0] == self@[i - 1]);
                assert(self@.skip(i - 1).drop_first() =~= self@.skip(i as int));
                assert(selected(self@, cutoff) =~= views(out@) + selected(
                    self@.skip(i as int),
                    cutoff,
                ));
            }
        }
        proof {
            assert(selected(self@.skip(n as int), cutoff) =~= Seq::<Seq<u8>>::empty());
            assert(views(out@) =~= selected(self@, cutoff));
        }
        out
    }
}

/// Whether a fragment line belongs to one of the selected cells: comments
/// and short lines are dropped, anything else is kept exactly when its
/// barcode is registered.
pub open spec fn kept_spec(cells: Seq<(Seq<u8>, u32)>, line: Seq<u8>) -> bool {
    &&& !is_comment(line)
    &&& split_spec(line).len() >= 4
    &&& reg_contains(cells, split_spec(line)[3])
}

/// The subsetting decision for one fragment line.
pub fn fragment_kept(cells: &BarcodeRegistry, line: &[u8]) -> (r: bool)
    requires
        cells.wf(),
    ensures
        r == kept_spec(cells@, line@),
{
    if line.len() > 0 && line[0] == 35u8 {
        return false;
    }
    let fields = split_fields(line);
    if fields.len() < 4 {
        return false;
    }
    match cells.lookup(fields[3].as_slice()) {
        Some(_) => true,
        None => false,
    }
}

} // verus!
