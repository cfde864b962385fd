//! What the aggregation guarantees, proved once and for all over the spec
//! functions of the other modules: exactness of the cursor query on
//! in-order streams, the per-fragment counting rules for features that do
//! not overlap one another, the grouping rules of the index builder, and
//! the independence of the serialized entry set from anything but the
//! matrix.

use vstd::prelude::*;

use crate::agg::{apply_end_hits, apply_start_hits, line_step, run_lines, some_hit_contains,
    AggView};
use crate::builder::{build_step, group_pos, lemma_group_pos, region_weight,
    wf_builder, BuilderView};
use crate::index::{adv_spec, chrom_pos, collect_spec, lemma_adv, lemma_collect, overlaps,
    sorted_by_start, len_bounded, FeatureIndex, Interval, wf_index};
use crate::matrix::{doms_finite, entry_of, lemma_mat_add_total, lemma_mat_total_nonneg, mat_add,
    mat_total, sat_add};
use crate::mmwrite::{entries_of, mm_output_ok};
use crate::parse::{is_comment, parse_u32_spec, split_spec, trim_spec};
use crate::registry::{reg_col, reg_contains};

verus! {

/// Features of one chromosome that never overlap one another.
pub open spec fn disjoint(ivs: Seq<Interval>) -> bool {
    forall|i: int, j: int|
        0 <= i < j < ivs.len() ==> (#[trigger] ivs[i]).end <= (#[trigger] ivs[j]).start
            || ivs[j].end <= ivs[i].start
}

/// The cursor admits every interval that can still contain `p` or any later
/// point.
pub open spec fn cursor_sound(ivs: Seq<Interval>, ml: u32, cur: int, p: u32) -> bool {
    &&& 0 <= cur <= ivs.len()
    &&& forall|i: int| 0 <= i < cur ==> (#[trigger] ivs[i]).start + ml <= p
}

/// A line that parses as a fragment on a chromosome that has features:
/// its coordinates, its barcode's column, and its chromosome's position.
pub open spec fn valid_fragment(
    ix: FeatureIndex,
    reg: Seq<(Seq<u8>, u32)>,
    line: Seq<u8>,
    s: u32,
    e: u32,
    col: u32,
    cp: int,
) -> bool {
    let fs = split_spec(line);
    &&& !is_comment(line)
    &&& fs.len() >= 4
    &&& reg_contains(reg, fs[3])
    &&& col == reg_col(reg, fs[3])
    &&& parse_u32_spec(trim_spec(fs[1])) == Some(s)
    &&& parse_u32_spec(trim_spec(fs[2])) == Some(e)
    &&& cp == chrom_pos(ix.chroms@, fs[0])
    &&& 0 <= cp < ix.chroms@.len()
}

/// The stream is in order at this line: if the chromosome does not change,
/// the cursor is still sound for the new start coordinate. (A chromosome
/// change resets the cursor, which is sound for anything.)
pub open spec fn in_order(ix: FeatureIndex, st: AggView, line: Seq<u8>, s: u32, cp: int) -> bool {
    split_spec(line)[0] == st.name ==> cursor_sound(
        ix.chroms@[cp].ivs@,
        ix.chroms@[cp].max_len,
        st.cursor,
        s,
    )
}

/// From a cursor that is sound for `p`, the scan at `p` reports exactly
/// the intervals containing `p`.
pub proof fn lemma_scan_exact(ivs: Seq<Interval>, ml: u32, p: u32, from: int)
    requires
        sorted_by_start(ivs),
        len_bounded(ivs, ml),
        ivs.len() <= usize::MAX,
        cursor_sound(ivs, ml, from, p),
    ensures
        forall|i: int|
            0 <= i < ivs.len() ==> (collect_spec(ivs, p, from).contains(i as usize) <==> overlaps(
                #[trigger] ivs[i],
                p,
            )),
{
    lemma_collect(ivs, p, from);
    assert forall|i: int| 0 <= i < ivs.len() implies (collect_spec(ivs, p, from).contains(
        i as usize,
    ) <==> overlaps(ivs[i], p)) by {
        if i < from {
            assert(ivs[i].start + ml <= p);
            assert(!overlaps(ivs[i], p));
            if collect_spec(ivs, p, from).contains(i as usize) {
                let k = choose|k: int|
                    0 <= k < collect_spec(ivs, p, from).len() && collect_spec(ivs, p, from)[k]
                        == i as usize;
                assert(from <= collect_spec(ivs, p, from)[k]);
            }
        }
    }
}

/// Two disjoint intervals cannot both contain a point.
pub proof fn lemma_disjoint_unique(ivs: Seq<Interval>, p: u32, j1: int, j2: int)
    requires
        disjoint(ivs),
        0 <= j1 < ivs.len(),
        0 <= j2 < ivs.len(),
        overlaps(ivs[j1], p),
        overlaps(ivs[j2], p),
    ensures
        j1 == j2,
{
}

/// Exact hits at a point covered by exactly the interval `j` form the
/// singleton `[j]`; a point covered by nothing yields no hits.
proof fn lemma_hits_shape(ivs: Seq<Interval>, hits: Seq<usize>, p: u32, c2: int)
    requires
        disjoint(ivs),
        ivs.len() <= usize::MAX,
        sorted_by_start(ivs),
        0 <= c2 <= ivs.len(),
        hits == collect_spec(ivs, p, c2),
        forall|i: int|
            0 <= i < ivs.len() ==> (collect_spec(ivs, p, c2).contains(i as usize) <==> overlaps(
                #[trigger] ivs[i],
                p,
            )),
    ensures
        (forall|j: int| 0 <= j < ivs.len() ==> !overlaps(#[trigger] ivs[j], p)) ==> hits
            =~= Seq::<usize>::empty(),
        forall|j: int|
            0 <= j < ivs.len() && overlaps(#[trigger] ivs[j], p) ==> hits =~= seq![j as usize],
{
    lemma_collect(ivs, p, c2);
    if forall|j: int| 0 <= j < ivs.len() ==> !overlaps(#[trigger] ivs[j], p) {
        if hits.len() > 0 {
            let h = hits[0];
            assert(hits.contains(h));
            assert(overlaps(ivs[h as int], p));
        }
    }
    assert forall|j: int| 0 <= j < ivs.len() && overlaps(#[trigger] ivs[j], p) implies hits
        =~= seq![j as usize] by {
        assert(hits.contains(j as usize));
        let k0 = choose|k: int| 0 <= k < hits.len() && hits[k] == j as usize;
        assert forall|k: int| 0 <= k < hits.len() implies hits[k] == j as usize by {
            assert(hits.contains(hits[k]));
            assert(overlaps(ivs[hits[k] as int], p));
            lemma_disjoint_unique(ivs, p, hits[k] as int, j);
        }
        if hits.len() >= 2 {
            assert(hits[0] < hits[1]);
        }
        assert(hits.len() == 1);
    }
}

/// Unfolding the start-hit contribution of a single hit.
proof fn lemma_apply_start_single(
    mat: Seq<Map<u32, u64>>,
    ivs: Seq<Interval>,
    lookup: Seq<(u32, u64)>,
    j: int,
    e: u32,
    col: u32,
)
    requires
        0 <= j < ivs.len(),
        ivs.len() <= usize::MAX,
    ensures
        ({
            let rw = lookup[ivs[j].id as int];
            let m1 = mat_add(mat, rw.0 as int, col, rw.1);
            apply_start_hits(mat, ivs, lookup, seq![j as usize], e, col, 0) == (if e < ivs[j].end {
                mat_add(m1, rw.0 as int, col, rw.1)
            } else {
                m1
            })
        }),
{
    let hits = seq![j as usize];
    assert(hits[0] == j as usize);
    let rw = lookup[ivs[j].id as int];
    let m1 = mat_add(mat, rw.0 as int, col, rw.1);
    if e < ivs[j].end {
        let m2 = mat_add(m1, rw.0 as int, col, rw.1);
        assert(apply_start_hits(m2, ivs, lookup, hits, e, col, 1) == m2);
        assert(apply_start_hits(mat, ivs, lookup, hits, e, col, 0) == apply_start_hits(
            m2,
            ivs,
            lookup,
            hits,
            e,
            col,
            1,
        ));
    } else {
        assert(apply_start_hits(m1, ivs, lookup, hits, e, col, 1) == m1);
        assert(apply_start_hits(mat, ivs, lookup, hits, e, col, 0) == apply_start_hits(
            m1,
            ivs,
            lookup,
            hits,
            e,
            col,
            1,
        ));
    }
}

/// Unfolding the end-hit contribution of a single hit, and of none.
proof fn lemma_apply_end_single(
    mat: Seq<Map<u32, u64>>,
    ivs: Seq<Interval>,
    lookup: Seq<(u32, u64)>,
    j: int,
    col: u32,
)
    requires
        0 <= j < ivs.len(),
        ivs.len() <= usize::MAX,
    ensures
        ({
            let rw = lookup[ivs[j].id as int];
            apply_end_hits(mat, ivs, lookup, seq![j as usize], col, 0) == mat_add(
                mat,
                rw.0 as int,
                col,
                rw.1,
            )
        }),
{
    let hits = seq![j as usize];
    assert(hits[0] == j as usize);
    let rw = lookup[ivs[j].id as int];
    let m1 = mat_add(mat, rw.0 as int, col, rw.1);
    assert(apply_end_hits(m1, ivs, lookup, hits, col, 1) == m1);
    assert(apply_end_hits(mat, ivs, lookup, hits, col, 0) == apply_end_hits(
        m1,
        ivs,
        lookup,
        hits,
        col,
        1,
    ));
}

/// The spine of every per-fragment law: on an in-order stream over features
/// that do not overlap one another, one valid fragment line turns the
/// matrix into at most two single-entry additions, decided purely by which
/// features contain the fragment's two endpoints.
///
/// Writing `F(q)` for the feature containing point `q` (unique when it
/// exists):
/// - both endpoints in one feature `j`: two additions of `j`'s weight;
/// - endpoints in two features `j1 != j2`: one addition of each weight;
/// - one endpoint in a feature `j`, the other in none: one addition;
/// - neither endpoint in a feature: the matrix is unchanged.
#[verifier::rlimit(100)]
pub proof fn lemma_fragment_effect(
    ix: FeatureIndex,
    reg: Seq<(Seq<u8>, u32)>,
    st: AggView,
    line: Seq<u8>,
    s: u32,
    e: u32,
    col: u32,
    cp: int,
)
    requires
        wf_index(ix),
        valid_fragment(ix, reg, line, s, e, col, cp),
        in_order(ix, st, line, s, cp),
        0 <= st.cursor,
        s <= e,
        disjoint(ix.chroms@[cp].ivs@),
        ix.chroms@[cp].ivs@.len() <= usize::MAX,
    ensures
        ({
            let ivs = ix.chroms@[cp].ivs@;
            let lookup = ix.lookup@;
            let mat2 = line_step(ix, reg, st, line).mat;
            &&& (forall|j: int| 0 <= j < ivs.len() ==> !overlaps(#[trigger] ivs[j], s)
                && !overlaps(ivs[j], e)) ==> mat2 == st.mat
            &&& forall|j: int|
                0 <= j < ivs.len() && overlaps(#[trigger] ivs[j], s) && overlaps(ivs[j], e) ==> {
                    let rw = lookup[ivs[j].id as int];
                    mat2 == mat_add(
                        mat_add(st.mat, rw.0 as int, col, rw.1),
                        rw.0 as int,
                        col,
                        rw.1,
                    )
                }
            &&& forall|j1: int, j2: int|
                0 <= j1 < ivs.len() && 0 <= j2 < ivs.len() && j1 != j2 && overlaps(
                    #[trigger] ivs[j1],
                    s,
                ) && overlaps(#[trigger] ivs[j2], e) ==> {
                    let rw1 = lookup[ivs[j1].id as int];
                    let rw2 = lookup[ivs[j2].id as int];
                    mat2 == mat_add(
                        mat_add(st.mat, rw1.0 as int, col, rw1.1),
                        rw2.0 as int,
                        col,
                        rw2.1,
                    )
                }
            &&& forall|j: int|
                0 <= j < ivs.len() && overlaps(#[trigger] ivs[j], s) && !overlaps(ivs[j], e) && (
                forall|j2: int| 0 <= j2 < ivs.len() ==> !overlaps(#[trigger] ivs[j2], e)) ==> {
                    let rw = lookup[ivs[j].id as int];
                    mat2 == mat_add(st.mat, rw.0 as int, col, rw.1)
                }
            &&& forall|j: int|
                0 <= j < ivs.len() && overlaps(#[trigger] ivs[j], e) && !overlaps(ivs[j], s) && (
                forall|j2: int| 0 <= j2 < ivs.len() ==> !overlaps(#[trigger] ivs[j2], s)) ==> {
                    let rw = lookup[ivs[j].id as int];
                    mat2 == mat_add(st.mat, rw.0 as int, col, rw.1)
                }
        }),
{
    let fs = split_spec(line);
    let st1 = if fs[0] == st.name {
        st
    } else {
        AggView { name: fs[0], cursor: 0, ..st }
    };
    let ivs = ix.chroms@[cp].ivs@;
    let ml = ix.chroms@[cp].max_len;
    let lookup = ix.lookup@;
    assert(sorted_by_start(ivs) && len_bounded(ivs, ml)) by {
        assert(crate::index::wf_chrom(ix.chroms@[cp], lookup.len() as int));
    }
    assert(cursor_sound(ivs, ml, st1.cursor, s)) by {
        if fs[0] != st.name {
            assert(st1.cursor == 0);
        }
    }
    let c2 = adv_spec(ivs, ml, s, st1.cursor);
    let hits1 = collect_spec(ivs, s, c2);
    lemma_adv(ivs, ml, s, st1.cursor);
    assert(cursor_sound(ivs, ml, c2, s));
    lemma_scan_exact(ivs, ml, s, c2);
    lemma_hits_shape(ivs, hits1, s, c2);
    lemma_collect(ivs, s, c2);
    assert(cursor_sound(ivs, ml, c2, e));
    let hits2 = collect_spec(ivs, e, c2);
    lemma_scan_exact(ivs, ml, e, c2);
    lemma_hits_shape(ivs, hits2, e, c2);
    lemma_collect(ivs, e, c2);
    let mat1 = apply_start_hits(st.mat, ivs, lookup, hits1, e, col, 0);
    let st2 = line_step(ix, reg, st, line);

    // case: no endpoint in any feature
    if forall|j: int| 0 <= j < ivs.len() ==> !overlaps(#[trigger] ivs[j], s) && !overlaps(
        ivs[j],
        e,
    ) {
        assert(hits1 =~= Seq::<usize>::empty());
        assert(hits2 =~= Seq::<usize>::empty());
        assert(!some_hit_contains(ivs, hits1, e)) by {
            if some_hit_contains(ivs, hits1, e) {
                let k = choose|k: int| 0 <= k < hits1.len() && e < ivs[hits1[k] as int].end;
            }
        }
        assert(st2.mat == st.mat);
    }
    // case: contained in one feature
    assert forall|j: int|
        0 <= j < ivs.len() && overlaps(#[trigger] ivs[j], s) && overlaps(ivs[j], e) implies ({
        let rw = lookup[ivs[j].id as int];
        st2.mat == mat_add(mat_add(st.mat, rw.0 as int, col, rw.1), rw.0 as int, col, rw.1)
    }) by {
        assert(hits1 =~= seq![j as usize]);
        assert(e < ivs[j].end);
        assert(some_hit_contains(ivs, hits1, e)) by {
            assert(0 <= 0 < hits1.len() && e < ivs[hits1[0] as int].end);
        }
        lemma_apply_start_single(st.mat, ivs, lookup, j, e, col);
    }
    // case: endpoints in two distinct features
    assert forall|j1: int, j2: int|
        0 <= j1 < ivs.len() && 0 <= j2 < ivs.len() && j1 != j2 && overlaps(#[trigger] ivs[j1], s)
            && overlaps(#[trigger] ivs[j2], e) implies ({
        let rw1 = lookup[ivs[j1].id as int];
        let rw2 = lookup[ivs[j2].id as int];
        st2.mat == mat_add(mat_add(st.mat, rw1.0 as int, col, rw1.1), rw2.0 as int, col, rw2.1)
    }) by {
        assert(hits1 =~= seq![j1 as usize]);
        assert(hits2 =~= seq![j2 as usize]);
        assert(!(e < ivs[j1].end)) by {
            if e < ivs[j1].end {
                assert(overlaps(ivs[j1], e));
                lemma_disjoint_unique(ivs, e, j1, j2);
            }
        }
        assert(!some_hit_contains(ivs, hits1, e)) by {
            if some_hit_contains(ivs, hits1, e) {
                let k = choose|k: int| 0 <= k < hits1.len() && e < ivs[hits1[k] as int].end;
                assert(hits1[k] == j1 as usize);
            }
        }
        lemma_apply_start_single(st.mat, ivs, lookup, j1, e, col);
        lemma_apply_end_single(mat1, ivs, lookup, j2, col);
    }
    // case: only the start in a feature
    assert forall|j: int|
        0 <= j < ivs.len() && overlaps(#[trigger] ivs[j], s) && !overlaps(ivs[j], e) && (forall|
            j2: int,
        | 0 <= j2 < ivs.len() ==> !overlaps(#[trigger] ivs[j2], e)) implies ({
        let rw = lookup[ivs[j].id as int];
        st2.mat == mat_add(st.mat, rw.0 as int, col, rw.1)
    }) by {
        assert(hits1 =~= seq![j as usize]);
        assert(hits2 =~= Seq::<usize>::empty());
        assert(!(e < ivs[j].end)) by {
            if e < ivs[j].end {
                assert(ivs[j].start <= s <= e);
                assert(overlaps(ivs[j], e));
            }
        }
        assert(!some_hit_contains(ivs, hits1, e)) by {
            if some_hit_contains(ivs, hits1, e) {
                let k = choose|k: int| 0 <= k < hits1.len() && e < ivs[hits1[k] as int].end;
                assert(hits1[k] == j as usize);
            }
        }
        lemma_apply_start_single(st.mat, ivs, lookup, j, e, col);
    }
    // case: only the end in a feature
    assert forall|j: int|
        0 <= j < ivs.len() && overlaps(#[trigger] ivs[j], e) && !overlaps(ivs[j], s) && (forall|
            j2: int,
        | 0 <= j2 < ivs.len() ==> !overlaps(#[trigger] ivs[j2], s)) implies ({
        let rw = lookup[ivs[j].id as int];
        st2.mat == mat_add(st.mat, rw.0 as int, col, rw.1)
    }) by {
        assert(hits1 =~= Seq::<usize>::empty());
        assert(hits2 =~= seq![j as usize]);
        assert(!some_hit_contains(ivs, hits1, e)) by {
            if some_hit_contains(ivs, hits1, e) {
                let k = choose|k: int| 0 <= k < hits1.len() && e < ivs[hits1[k] as int].end;
            }
        }
        assert(mat1 == st.mat);
        lemma_apply_end_single(mat1, ivs, lookup, j, col);
    }
}

/// In-orderness is self-sustaining: after a valid fragment with start
/// `s`, the cursor is sound for every point at or beyond `s` on the same
/// chromosome, so a stream of ascending starts within each chromosome run
/// keeps every step exact (a chromosome change resets the cursor, which is
/// sound for anything).
pub proof fn lemma_step_keeps_order(
    ix: FeatureIndex,
    reg: Seq<(Seq<u8>, u32)>,
    st: AggView,
    line: Seq<u8>,
    s: u32,
    e: u32,
    col: u32,
    cp: int,
    s2: u32,
)
    requires
        wf_index(ix),
        valid_fragment(ix, reg, line, s, e, col, cp),
        in_order(ix, st, line, s, cp),
        0 <= st.cursor,
        s <= s2,
    ensures
        line_step(ix, reg, st, line).name == split_spec(line)[0],
        cursor_sound(
            ix.chroms@[cp].ivs@,
            ix.chroms@[cp].max_len,
            line_step(ix, reg, st, line).cursor,
            s2,
        ),
{
    let fs = split_spec(line);
    let st1 = if fs[0] == st.name {
        st
    } else {
        AggView { name: fs[0], cursor: 0, ..st }
    };
    let ivs = ix.chroms@[cp].ivs@;
    let ml = ix.chroms@[cp].max_len;
    assert(cursor_sound(ivs, ml, st1.cursor, s)) by {
        if fs[0] != st.name {
            assert(st1.cursor == 0);
        }
    }
    lemma_adv(ivs, ml, s, st1.cursor);
}

/// Entry-level reading of one contribution.
pub proof fn lemma_mat_add_entries(rows: Seq<Map<u32, u64>>, r: int, c: u32, w: u64)
    requires
        0 <= r < rows.len(),
    ensures
        mat_add(rows, r, c, w).len() == rows.len(),
        entry_of(mat_add(rows, r, c, w)[r], c) == sat_add(entry_of(rows[r], c), w),
        forall|r2: int| 0 <= r2 < rows.len() && r2 != r ==> mat_add(rows, r, c, w)[r2] == rows[r2],
        forall|c2: u32| c2 != c ==> entry_of(mat_add(rows, r, c, w)[r], c2) == entry_of(
            rows[r],
            c2,
        ),
{
}

/// One contribution keeps every row map finite.
pub proof fn lemma_mat_add_finite(rows: Seq<Map<u32, u64>>, r: int, c: u32, w: u64)
    requires
        doms_finite(rows),
    ensures
        doms_finite(mat_add(rows, r, c, w)),
{
    if 0 <= r < rows.len() {
        let m2 = rows[r].insert(c, sat_add(entry_of(rows[r], c), w));
        assert(m2.dom() =~= rows[r].dom().insert(c));
        assert forall|r2: int|
            0 <= r2 < mat_add(rows, r, c, w).len() implies (#[trigger] mat_add(rows, r, c, w)[r2]).dom().finite() by {
            if r2 != r {
                assert(mat_add(rows, r, c, w)[r2] == rows[r2]);
            }
        }
    }
}

/// The row and weight of the feature at `j`, and that the row is a matrix
/// row.
pub proof fn lemma_row_in_range(ix: FeatureIndex, cp: int, j: int)
    requires
        wf_index(ix),
        0 <= cp < ix.chroms@.len(),
        0 <= j < ix.chroms@[cp].ivs@.len(),
    ensures
        ix.chroms@[cp].ivs@[j].id < ix.lookup@.len(),
        ix.lookup@[ix.chroms@[cp].ivs@[j].id as int].0 < ix.nrows,
{
    assert(crate::index::wf_chrom(ix.chroms@[cp], ix.lookup@.len() as int));
}

/// A fragment entirely inside exactly one feature raises that feature's
/// (row, barcode-column) value by exactly twice the feature's weight, and
/// the sum of all matrix values by the same amount; no other cell moves.
#[verifier::rlimit(50)]
pub proof fn lemma_contained_fragment(
    ix: FeatureIndex,
    reg: Seq<(Seq<u8>, u32)>,
    st: AggView,
    line: Seq<u8>,
    s: u32,
    e: u32,
    col: u32,
    cp: int,
    j: int,
)
    requires
        wf_index(ix),
        valid_fragment(ix, reg, line, s, e, col, cp),
        in_order(ix, st, line, s, cp),
        0 <= st.cursor,
        s <= e,
        disjoint(ix.chroms@[cp].ivs@),
        ix.chroms@[cp].ivs@.len() <= usize::MAX,
        0 <= j < ix.chroms@[cp].ivs@.len(),
        overlaps(ix.chroms@[cp].ivs@[j], s),
        overlaps(ix.chroms@[cp].ivs@[j], e),
        st.mat.len() == ix.nrows,
        doms_finite(st.mat),
        mat_total(st.mat) + 2 * (ix.lookup@[ix.chroms@[cp].ivs@[j].id as int].1 as int)
            <= u64::MAX,
    ensures
        ({
            let rw = ix.lookup@[ix.chroms@[cp].ivs@[j].id as int];
            let mat2 = line_step(ix, reg, st, line).mat;
            &&& mat2.len() == st.mat.len()
            &&& entry_of(mat2[rw.0 as int], col) == entry_of(st.mat[rw.0 as int], col) + 2 * rw.1
            &&& forall|r2: int|
                0 <= r2 < st.mat.len() && r2 != rw.0 as int ==> mat2[r2] == st.mat[r2]
            &&& forall|c2: u32| c2 != col ==> entry_of(mat2[rw.0 as int], c2) == entry_of(
                st.mat[rw.0 as int],
                c2,
            )
            &&& mat_total(mat2) == mat_total(st.mat) + 2 * rw.1
        }),
{
    lemma_fragment_effect(ix, reg, st, line, s, e, col, cp);
    lemma_row_in_range(ix, cp, j);
    let rw = ix.lookup@[ix.chroms@[cp].ivs@[j].id as int];
    let r = rw.0 as int;
    let w = rw.1;
    let m1 = mat_add(st.mat, r, col, w);
    let mat2 = line_step(ix, reg, st, line).mat;
    assert(mat2 == mat_add(m1, r, col, w));
    lemma_mat_total_nonneg(st.mat);
    crate::matrix::lemma_map_sum_bounds(st.mat[r]);
    assert(entry_of(st.mat[r], col) + 2 * w <= u64::MAX);
    lemma_mat_add_entries(st.mat, r, col, w);
    lemma_mat_add_entries(m1, r, col, w);
    lemma_mat_add_total(st.mat, r, col, w);
    lemma_mat_add_finite(st.mat, r, col, w);
    lemma_mat_add_total(m1, r, col, w);
}

/// A fragment whose endpoints land in two distinct features (or in one,
/// the other endpoint outside every feature) raises each matched feature's
/// (row, barcode-column) value by exactly once its weight, and the sum of
/// all matrix values by the weights of the matched endpoints; two matched
/// features sharing a row (grouping) add both weights to that one cell.
#[verifier::rlimit(50)]
pub proof fn lemma_split_fragment(
    ix: FeatureIndex,
    reg: Seq<(Seq<u8>, u32)>,
    st: AggView,
    line: Seq<u8>,
    s: u32,
    e: u32,
    col: u32,
    cp: int,
    j1: int,
    j2: int,
)
    requires
        wf_index(ix),
        valid_fragment(ix, reg, line, s, e, col, cp),
        in_order(ix, st, line, s, cp),
        0 <= st.cursor,
        s <= e,
        disjoint(ix.chroms@[cp].ivs@),
        ix.chroms@[cp].ivs@.len() <= usize::MAX,
        0 <= j1 < ix.chroms@[cp].ivs@.len(),
        0 <= j2 < ix.chroms@[cp].ivs@.len(),
        j1 != j2,
        overlaps(ix.chroms@[cp].ivs@[j1], s),
        overlaps(ix.chroms@[cp].ivs@[j2], e),
        st.mat.len() == ix.nrows,
        doms_finite(st.mat),
        mat_total(st.mat) + (ix.lookup@[ix.chroms@[cp].ivs@[j1].id as int].1 as int) + (
        ix.lookup@[ix.chroms@[cp].ivs@[j2].id as int].1 as int) <= u64::MAX,
    ensures
        ({
            let rw1 = ix.lookup@[ix.chroms@[cp].ivs@[j1].id as int];
            let rw2 = ix.lookup@[ix.chroms@[cp].ivs@[j2].id as int];
            let mat2 = line_step(ix, reg, st, line).mat;
            &&& mat2.len() == st.mat.len()
            &&& mat_total(mat2) == mat_total(st.mat) + rw1.1 + rw2.1
            &&& rw1.0 != rw2.0 ==> {
                &&& entry_of(mat2[rw1.0 as int], col) == entry_of(st.mat[rw1.0 as int], col)
                    + rw1.1
                &&& entry_of(mat2[rw2.0 as int], col) == entry_of(st.mat[rw2.0 as int], col)
                    + rw2.1
                &&& forall|r2: int|
                    0 <= r2 < st.mat.len() && r2 != rw1.0 as int && r2 != rw2.0 as int
                        ==> mat2[r2] == st.mat[r2]
            }
            &&& rw1.0 == rw2.0 ==> entry_of(mat2[rw1.0 as int], col) == entry_of(
                st.mat[rw1.0 as int],
                col,
            ) + rw1.1 + rw2.1
        }),
{
    lemma_fragment_effect(ix, reg, st, line, s, e, col, cp);
    lemma_row_in_range(ix, cp, j1);
    lemma_row_in_range(ix, cp, j2);
    let rw1 = ix.lookup@[ix.chroms@[cp].ivs@[j1].id as int];
    let rw2 = ix.lookup@[ix.chroms@[cp].ivs@[j2].id as int];
    let r1 = rw1.0 as int;
    let r2 = rw2.0 as int;
    let m1 = mat_add(st.mat, r1, col, rw1.1);
    let mat2 = line_step(ix, reg, st, line).mat;
    assert(mat2 == mat_add(m1, r2, col, rw2.1));
    lemma_mat_total_nonneg(st.mat);
    crate::matrix::lemma_map_sum_bounds(st.mat[r1]);
    lemma_mat_add_entries(st.mat, r1, col, rw1.1);
    lemma_mat_add_total(st.mat, r1, col, rw1.1);
    lemma_mat_add_finite(st.mat, r1, col, rw1.1);
    lemma_mat_total_nonneg(m1);
    crate::matrix::lemma_map_sum_bounds(m1[r2]);
    lemma_mat_add_entries(m1, r2, col, rw2.1);
    lemma_mat_add_total(m1, r2, col, rw2.1);
}

/// One matched endpoint, the other outside every feature: exactly one
/// addition of that feature's weight.
#[verifier::rlimit(50)]
pub proof fn lemma_single_endpoint(
    ix: FeatureIndex,
    reg: Seq<(Seq<u8>, u32)>,
    st: AggView,
    line: Seq<u8>,
    s: u32,
    e: u32,
    col: u32,
    cp: int,
    j: int,
)
    requires
        wf_index(ix),
        valid_fragment(ix, reg, line, s, e, col, cp),
        in_order(ix, st, line, s, cp),
        0 <= st.cursor,
        s <= e,
        disjoint(ix.chroms@[cp].ivs@),
        ix.chroms@[cp].ivs@.len() <= usize::MAX,
        0 <= j < ix.chroms@[cp].ivs@.len(),
        overlaps(ix.chroms@[cp].ivs@[j], s) || overlaps(ix.chroms@[cp].ivs@[j], e),
        overlaps(ix.chroms@[cp].ivs@[j], s) ==> forall|j2: int|
            0 <= j2 < ix.chroms@[cp].ivs@.len() ==> !overlaps(#[trigger] ix.chroms@[cp].ivs@[j2], e),
        !overlaps(ix.chroms@[cp].ivs@[j], s) ==> forall|j2: int|
            0 <= j2 < ix.chroms@[cp].ivs@.len() ==> !overlaps(#[trigger] ix.chroms@[cp].ivs@[j2], s),
        st.mat.len() == ix.nrows,
        doms_finite(st.mat),
        mat_total(st.mat) + (ix.lookup@[ix.chroms@[cp].ivs@[j].id as int].1 as int) <= u64::MAX,
    ensures
        ({
            let rw = ix.lookup@[ix.chroms@[cp].ivs@[j].id as int];
            let mat2 = line_step(ix, reg, st, line).mat;
            &&& mat2.len() == st.mat.len()
            &&& entry_of(mat2[rw.0 as int], col) == entry_of(st.mat[rw.0 as int], col) + rw.1
            &&& forall|r2: int|
                0 <= r2 < st.mat.len() && r2 != rw.0 as int ==> mat2[r2] == st.mat[r2]
            &&& mat_total(mat2) == mat_total(st.mat) + rw.1
        }),
{
    lemma_fragment_effect(ix, reg, st, line, s, e, col, cp);
    lemma_row_in_range(ix, cp, j);
    let ivs = ix.chroms@[cp].ivs@;
    let rw = ix.lookup@[ivs[j].id as int];
    let r = rw.0 as int;
    let mat2 = line_step(ix, reg, st, line).mat;
    if overlaps(ivs[j], s) {
        assert(!overlaps(ivs[j], e));
        assert(mat2 == mat_add(st.mat, r, col, rw.1));
    } else {
        assert(overlaps(ivs[j], e));
        assert(mat2 == mat_add(st.mat, r, col, rw.1));
    }
    lemma_mat_total_nonneg(st.mat);
    crate::matrix::lemma_map_sum_bounds(st.mat[r]);
    lemma_mat_add_entries(st.mat, r, col, rw.1);
    lemma_mat_add_total(st.mat, r, col, rw.1);
}

/// A barcode absent from the registry never alters the matrix — nor
/// anything else of the aggregator's state.
pub proof fn lemma_unknown_barcode(
    ix: FeatureIndex,
    reg: Seq<(Seq<u8>, u32)>,
    st: AggView,
    line: Seq<u8>,
)
    requires
        split_spec(line).len() >= 4,
        !reg_contains(reg, split_spec(line)[3]),
    ensures
        line_step(ix, reg, st, line) == st,
{
}

/// A line whose start coordinate does not parse is skipped: the matrix is
/// unchanged, and the step still yields a well-defined state from which
/// later valid lines are counted as ever.
pub proof fn lemma_bad_coordinate(
    ix: FeatureIndex,
    reg: Seq<(Seq<u8>, u32)>,
    st: AggView,
    line: Seq<u8>,
)
    requires
        parse_u32_spec(trim_spec(split_spec(line)[1])) is None || parse_u32_spec(
            trim_spec(split_spec(line)[2]),
        ) is None,
    ensures
        line_step(ix, reg, st, line).mat == st.mat,
{
}

/// Group entries persist: one build step never moves or retracts an
/// assigned group row, it can only append a new one.
proof fn lemma_build_step_groups(v: BuilderView, gc: Option<usize>, wc: Option<usize>, line: Seq<u8>)
    ensures
        ({
            let v2 = build_step(v, gc, wc, line);
            &&& v.groups.len() <= v2.groups.len()
            &&& forall|q: int| 0 <= q < v.groups.len() ==> v2.groups[q] == v.groups[q]
        }),
{
}

proof fn lemma_build_run_groups(
    v: BuilderView,
    gc: Option<usize>,
    wc: Option<usize>,
    lines: Seq<Seq<u8>>,
)
    requires
        wf_builder(v, gc),
    ensures
        ({
            let v2 = crate::builder::build_run(v, gc, wc, lines);
            &&& wf_builder(v2, gc)
            &&& v.groups.len() <= v2.groups.len()
            &&& forall|q: int| 0 <= q < v.groups.len() ==> v2.groups[q] == v.groups[q]
        }),
    decreases lines.len(),
{
    if lines.len() > 0 {
        lemma_build_step_groups(v, gc, wc, lines[0]);
        crate::builder::lemma_build_step_wf(v, gc, wc, lines[0]);
        lemma_build_run_groups(build_step(v, gc, wc, lines[0]), gc, wc, lines.drop_first());
    }
}

/// Two regions sharing a group key always resolve to the same output row,
/// whatever lines the file holds between them: the row recorded for the
/// second region equals the row recorded for the first.
pub proof fn lemma_same_key_same_row(
    v: BuilderView,
    gc: usize,
    wc: Option<usize>,
    l1: Seq<u8>,
    mid: Seq<Seq<u8>>,
    l2: Seq<u8>,
)
    requires
        wf_builder(v, Some(gc)),
        grouped_region(l1, gc, wc),
        grouped_region(l2, gc, wc),
        split_spec(l1)[gc as int] == split_spec(l2)[gc as int],
        v.lookup.len() < usize::MAX,
        v.groups.len() < u32::MAX,
        crate::builder::build_run(
            build_step(v, Some(gc), wc, l1),
            Some(gc),
            wc,
            mid,
        ).lookup.len() < usize::MAX,
    ensures
        ({
            let v1 = build_step(v, Some(gc), wc, l1);
            let vm = crate::builder::build_run(v1, Some(gc), wc, mid);
            let v2 = build_step(vm, Some(gc), wc, l2);
            &&& v1.lookup.len() == v.lookup.len() + 1
            &&& v2.lookup.len() == vm.lookup.len() + 1
            &&& v2.lookup[v2.lookup.len() - 1].0 == v1.lookup[v1.lookup.len() - 1].0
        }),
{
    let key = split_spec(l1)[gc as int];
    let p1 = group_pos(v.groups, key);
    lemma_group_pos(v.groups, key);
    let v1 = build_step(v, Some(gc), wc, l1);
    crate::builder::lemma_build_step_wf(v, Some(gc), wc, l1);
    // after the first region, `key` stands at some position `p` with the
    // recorded row, and nothing before `p` carries it
    let (p, row): (int, u32) = if p1 < v.groups.len() {
        (p1, v.groups[p1].1)
    } else {
        (v.groups.len() as int, v.groups.len() as u32)
    };
    assert(v1.lookup == v.lookup.push((row, region_weight(split_spec(l1), wc)->0)));
    assert(0 <= p < v1.groups.len() && v1.groups[p] == (key, row));
    assert(forall|q: int| 0 <= q < p ==> v1.groups[q].0 != key);
    let vm = crate::builder::build_run(v1, Some(gc), wc, mid);
    lemma_build_run_groups(v1, Some(gc), wc, mid);
    assert(vm.groups[p] == (key, row));
    assert forall|q: int| 0 <= q < p implies vm.groups[q].0 != key by {
        assert(vm.groups[q] == v1.groups[q]);
    }
    lemma_group_pos_is(vm.groups, key, p);
    let v2 = build_step(vm, Some(gc), wc, l2);
    assert(v2.lookup == vm.lookup.push((row, region_weight(split_spec(l2), wc)->0)));
}

/// A region line that the grouped builder retains.
pub open spec fn grouped_region(line: Seq<u8>, gc: usize, wc: Option<usize>) -> bool {
    let fs = split_spec(line);
    &&& !is_comment(line)
    &&& fs.len() >= 3
    &&& fs.len() > gc
    &&& parse_u32_spec(fs[1]) is Some
    &&& parse_u32_spec(fs[2]) is Some
    &&& region_weight(fs, wc) is Some
}

/// `group_pos` is determined by a key-free prefix.
proof fn lemma_group_pos_is(groups: Seq<(Seq<u8>, u32)>, key: Seq<u8>, t: int)
    requires
        0 <= t <= groups.len(),
        forall|j: int| 0 <= j < t ==> groups[j].0 != key,
        t < groups.len() ==> groups[t].0 == key,
    ensures
        group_pos(groups, key) == t,
    decreases groups.len(),
{
    if groups.len() > 0 && groups[0].0 != key {
        lemma_group_pos_is(groups.drop_first(), key, t - 1);
    }
}

/// Without grouping, every retained region gets a fresh row: the row
/// recorded for it is its position among the valid regions, so rows are
/// distinct and follow valid-input order.
pub proof fn lemma_ungrouped_unique_rows(v: BuilderView, wc: Option<usize>, line: Seq<u8>)
    requires
        wf_builder(v, None),
        ({
            let fs = split_spec(line);
            &&& !is_comment(line)
            &&& fs.len() >= 3
            &&& parse_u32_spec(fs[1]) is Some
            &&& parse_u32_spec(fs[2]) is Some
            &&& region_weight(fs, wc) is Some
        }),
        v.lookup.len() < u32::MAX,
    ensures
        ({
            let v2 = build_step(v, None, wc, line);
            &&& v2.lookup.len() == v.lookup.len() + 1
            &&& v2.lookup[v2.lookup.len() - 1].0 == v.lookup.len()
            &&& forall|k1: int, k2: int|
                0 <= k1 < k2 < v2.lookup.len() ==> (#[trigger] v2.lookup[k1]).0 != (
                #[trigger] v2.lookup[k2]).0
        }),
{
    crate::builder::lemma_build_step_wf(v, None, wc, line);
}

/// The set of nonzero (row, column, value) lines that the serializer emits
/// is a function of the matrix alone. Compression workers only ever see the
/// serialized bytes, so runs with different worker counts carry identical
/// entry sets, merely compressed differently.
pub proof fn lemma_serialized_entry_set(
    out1: Seq<u8>,
    out2: Seq<u8>,
    mat: Seq<Map<u32, u64>>,
    ncols: u32,
    es1: Seq<(int, u32, u64)>,
    es2: Seq<(int, u32, u64)>,
)
    requires
        mm_output_ok(out1, mat, ncols, es1),
        mm_output_ok(out2, mat, ncols, es2),
    ensures
        es1.to_set() == es2.to_set(),
        es1.to_set() == entries_of(mat),
        es1.len() == es2.len(),
{
}

/// The weight a fragment `[s, e]` owes feature `j`: the feature's weight
/// once per endpoint that falls in it.
pub open spec fn frag_term(
    ivs: Seq<Interval>,
    lookup: Seq<(u32, u64)>,
    s: u32,
    e: u32,
    j: int,
) -> int {
    let w = lookup[ivs[j].id as int].1 as int;
    (if overlaps(ivs[j], s) {
        w
    } else {
        0
    }) + (if overlaps(ivs[j], e) {
        w
    } else {
        0
    })
}

/// The weight a fragment owes all features from `j` on.
pub open spec fn frag_weight_from(
    ivs: Seq<Interval>,
    lookup: Seq<(u32, u64)>,
    s: u32,
    e: u32,
    j: int,
) -> int
    decreases ivs.len() - j,
{
    if j < 0 || j >= ivs.len() {
        0
    } else {
        frag_term(ivs, lookup, s, e, j) + frag_weight_from(ivs, lookup, s, e, j + 1)
    }
}

/// A line the aggregator skips without touching the matrix: a comment, a
/// short line, an unknown barcode, an unparsable coordinate, or a
/// chromosome without features.
pub open spec fn inert_line(ix: FeatureIndex, reg: Seq<(Seq<u8>, u32)>, line: Seq<u8>) -> bool {
    let fs = split_spec(line);
    ||| is_comment(line)
    ||| fs.len() < 4
    ||| !reg_contains(reg, fs[3])
    ||| parse_u32_spec(trim_spec(fs[1])) is None
    ||| parse_u32_spec(trim_spec(fs[2])) is None
    ||| chrom_pos(ix.chroms@, fs[0]) >= ix.chroms@.len()
}

/// The matched-endpoint weight of one line: zero for an inert line, and
/// the sum of its fragment's per-feature terms otherwise.
pub open spec fn line_weight(ix: FeatureIndex, reg: Seq<(Seq<u8>, u32)>, line: Seq<u8>) -> int {
    if inert_line(ix, reg, line) {
        0
    } else {
        let fs = split_spec(line);
        let s = parse_u32_spec(trim_spec(fs[1]))->0;
        let e = parse_u32_spec(trim_spec(fs[2]))->0;
        let cp = chrom_pos(ix.chroms@, fs[0]);
        frag_weight_from(ix.chroms@[cp].ivs@, ix.lookup@, s, e, 0)
    }
}

/// The matched-endpoint weight of a whole stream.
pub open spec fn run_weight(ix: FeatureIndex, reg: Seq<(Seq<u8>, u32)>, lines: Seq<Seq<u8>>) -> int
    decreases lines.len(),
{
    if lines.len() == 0 {
        0
    } else {
        line_weight(ix, reg, lines[0]) + run_weight(ix, reg, lines.drop_first())
    }
}

/// Every line of the stream is inert or an in-order fragment over features
/// that do not overlap one another. This is the shape of the input the
/// aggregation is made for: fragments sorted by ascending start within
/// each chromosome run.
pub open spec fn run_ok(
    ix: FeatureIndex,
    reg: Seq<(Seq<u8>, u32)>,
    st: AggView,
    lines: Seq<Seq<u8>>,
) -> bool
    decreases lines.len(),
{
    if lines.len() == 0 {
        true
    } else {
        line_ok(ix, reg, st, lines[0]) && run_ok(
            ix,
            reg,
            line_step(ix, reg, st, lines[0]),
            lines.drop_first(),
        )
    }
}

pub open spec fn line_ok(ix: FeatureIndex, reg: Seq<(Seq<u8>, u32)>, st: AggView, line: Seq<u8>) -> bool {
    ||| inert_line(ix, reg, line)
    ||| {
        let fs = split_spec(line);
        let s = parse_u32_spec(trim_spec(fs[1]))->0;
        let e = parse_u32_spec(trim_spec(fs[2]))->0;
        let cp = chrom_pos(ix.chroms@, fs[0]);
        &&& s <= e
        &&& in_order(ix, st, line, s, cp)
        &&& disjoint(ix.chroms@[cp].ivs@)
        &&& ix.chroms@[cp].ivs@.len() <= usize::MAX
    }
}

/// The fragment terms of features holding no endpoint vanish, so the
/// fragment's weight is the sum of at most two terms.
proof fn lemma_frag_weight_pair(
    ivs: Seq<Interval>,
    lookup: Seq<(u32, u64)>,
    s: u32,
    e: u32,
    j1: int,
    j2: int,
    from: int,
)
    requires
        0 <= from <= ivs.len(),
        forall|i: int|
            0 <= i < ivs.len() && i != j1 && i != j2 ==> !overlaps(#[trigger] ivs[i], s)
                && !overlaps(ivs[i], e),
    ensures
        frag_weight_from(ivs, lookup, s, e, from) == (if from <= j1 < ivs.len() {
            frag_term(ivs, lookup, s, e, j1)
        } else {
            0
        }) + (if j2 != j1 && from <= j2 < ivs.len() {
            frag_term(ivs, lookup, s, e, j2)
        } else {
            0
        }),
    decreases ivs.len() - from,
{
    if from < ivs.len() {
        lemma_frag_weight_pair(ivs, lookup, s, e, j1, j2, from + 1);
        if from != j1 && from != j2 {
            assert(frag_term(ivs, lookup, s, e, from) == 0);
        }
    }
}

/// Sum of all matrix values, after one line: it grows by exactly the
/// line's matched-endpoint weight.
#[verifier::rlimit(100)]
pub proof fn lemma_line_total(
    ix: FeatureIndex,
    reg: Seq<(Seq<u8>, u32)>,
    st: AggView,
    line: Seq<u8>,
)
    requires
        wf_index(ix),
        st.mat.len() == ix.nrows,
        doms_finite(st.mat),
        0 <= st.cursor,
        line_ok(ix, reg, st, line),
        mat_total(st.mat) + line_weight(ix, reg, line) <= u64::MAX,
    ensures
        ({
            let st2 = line_step(ix, reg, st, line);
            &&& mat_total(st2.mat) == mat_total(st.mat) + line_weight(ix, reg, line)
            &&& st2.mat.len() == st.mat.len()
            &&& doms_finite(st2.mat)
            &&& 0 <= st2.cursor
        }),
{
    let st2 = line_step(ix, reg, st, line);
    let fs = split_spec(line);
    if inert_line(ix, reg, line) {
        assert(st2.mat == st.mat);
        assert(0 <= st2.cursor) by {
            if !is_comment(line) && fs.len() >= 4 && reg_contains(reg, fs[3]) {
                let st1 = if fs[0] == st.name {
                    st
                } else {
                    AggView { name: fs[0], cursor: 0, ..st }
                };
                let cp = chrom_pos(ix.chroms@, st1.name);
                if parse_u32_spec(trim_spec(fs[1])) is Some && parse_u32_spec(trim_spec(fs[2]))
                    is Some && cp < ix.chroms@.len() {
                    let ivs = ix.chroms@[cp].ivs@;
                    lemma_adv(ivs, ix.chroms@[cp].max_len,
                        parse_u32_spec(trim_spec(fs[1]))->0, st1.cursor);
                }
            }
        }
    } else {
        let s = parse_u32_spec(trim_spec(fs[1]))->0;
        let e = parse_u32_spec(trim_spec(fs[2]))->0;
        let col = reg_col(reg, fs[3]);
        let cp = chrom_pos(ix.chroms@, fs[0]);
        let ivs = ix.chroms@[cp].ivs@;
        let lookup = ix.lookup@;
        crate::index::lemma_chrom_pos(ix.chroms@, fs[0]);
        assert(valid_fragment(ix, reg, line, s, e, col, cp));
        lemma_fragment_effect(ix, reg, st, line, s, e, col, cp);
        assert(0 <= st2.cursor) by {
            let st1 = if fs[0] == st.name {
                st
            } else {
                AggView { name: fs[0], cursor: 0, ..st }
            };
            lemma_adv(ivs, ix.chroms@[cp].max_len, s, st1.cursor);
        }
        lemma_mat_total_nonneg(st.mat);
        if exists|j: int| 0 <= j < ivs.len() && overlaps(#[trigger] ivs[j], s) {
            let j1 = choose|j: int| 0 <= j < ivs.len() && overlaps(#[trigger] ivs[j], s);
            lemma_row_in_range(ix, cp, j1);
            let rw1 = lookup[ivs[j1].id as int];
            if exists|j: int| 0 <= j < ivs.len() && overlaps(#[trigger] ivs[j], e) {
                let j2 = choose|j: int| 0 <= j < ivs.len() && overlaps(#[trigger] ivs[j], e);
                lemma_row_in_range(ix, cp, j2);
                let rw2 = lookup[ivs[j2].id as int];
                assert forall|i: int|
                    0 <= i < ivs.len() && i != j1 && i != j2 implies !overlaps(#[trigger] ivs[i], s)
                    && !overlaps(ivs[i], e) by {
                    if overlaps(ivs[i], s) {
                        lemma_disjoint_unique(ivs, s, i, j1);
                    }
                    if overlaps(ivs[i], e) {
                        lemma_disjoint_unique(ivs, e, i, j2);
                    }
                }
                lemma_frag_weight_pair(ivs, lookup, s, e, j1, j2, 0);
                if j1 == j2 {
                    assert(line_weight(ix, reg, line) == 2 * rw1.1);
                    assert(st2.mat == mat_add(
                        mat_add(st.mat, rw1.0 as int, col, rw1.1),
                        rw1.0 as int,
                        col,
                        rw1.1,
                    ));
                    lemma_mat_add_total(st.mat, rw1.0 as int, col, rw1.1);
                    lemma_mat_add_finite(st.mat, rw1.0 as int, col, rw1.1);
                    lemma_mat_add_total(
                        mat_add(st.mat, rw1.0 as int, col, rw1.1),
                        rw1.0 as int,
                        col,
                        rw1.1,
                    );
                    lemma_mat_add_finite(
                        mat_add(st.mat, rw1.0 as int, col, rw1.1),
                        rw1.0 as int,
                        col,
                        rw1.1,
                    );
                } else {
                    assert(!overlaps(ivs[j1], e) && !overlaps(ivs[j2], s)) by {
                        if overlaps(ivs[j1], e) {
                            lemma_disjoint_unique(ivs, e, j1, j2);
                        }
                        if overlaps(ivs[j2], s) {
                            lemma_disjoint_unique(ivs, s, j2, j1);
                        }
                    }
                    assert(line_weight(ix, reg, line) == rw1.1 + rw2.1);
                    assert(st2.mat == mat_add(
                        mat_add(st.mat, rw1.0 as int, col, rw1.1),
                        rw2.0 as int,
                        col,
                        rw2.1,
                    ));
                    lemma_mat_add_total(st.mat, rw1.0 as int, col, rw1.1);
                    lemma_mat_add_finite(st.mat, rw1.0 as int, col, rw1.1);
                    lemma_mat_add_total(
                        mat_add(st.mat, rw1.0 as int, col, rw1.1),
                        rw2.0 as int,
                        col,
                        rw2.1,
                    );
                    lemma_mat_add_finite(
                        mat_add(st.mat, rw1.0 as int, col, rw1.1),
                        rw2.0 as int,
                        col,
                        rw2.1,
                    );
                }
            } else {
                assert forall|i: int|
                    0 <= i < ivs.len() && i != j1 implies !overlaps(#[trigger] ivs[i], s)
                    && !overlaps(ivs[i], e) by {
                    if overlaps(ivs[i], s) {
                        lemma_disjoint_unique(ivs, s, i, j1);
                    }
                }
                lemma_frag_weight_pair(ivs, lookup, s, e, j1, j1, 0);
                assert(!overlaps(ivs[j1], e));
                assert(line_weight(ix, reg, line) == rw1.1);
                assert(st2.mat == mat_add(st.mat, rw1.0 as int, col, rw1.1));
                lemma_mat_add_total(st.mat, rw1.0 as int, col, rw1.1);
                lemma_mat_add_finite(st.mat, rw1.0 as int, col, rw1.1);
            }
        } else {
            if exists|j: int| 0 <= j < ivs.len() && overlaps(#[trigger] ivs[j], e) {
                let j2 = choose|j: int| 0 <= j < ivs.len() && overlaps(#[trigger] ivs[j], e);
                lemma_row_in_range(ix, cp, j2);
                let rw2 = lookup[ivs[j2].id as int];
                assert forall|i: int|
                    0 <= i < ivs.len() && i != j2 implies !overlaps(#[trigger] ivs[i], s)
                    && !overlaps(ivs[i], e) by {
                    if overlaps(ivs[i], e) {
                        lemma_disjoint_unique(ivs, e, i, j2);
                    }
                }
                lemma_frag_weight_pair(ivs, lookup, s, e, j2, j2, 0);
                assert(!overlaps(ivs[j2], s));
                assert(line_weight(ix, reg, line) == rw2.1);
                assert(st2.mat == mat_add(st.mat, rw2.0 as int, col, rw2.1));
                lemma_mat_add_total(st.mat, rw2.0 as int, col, rw2.1);
                lemma_mat_add_finite(st.mat, rw2.0 as int, col, rw2.1);
            } else {
                lemma_frag_weight_pair(ivs, lookup, s, e, -1, -1, 0);
                assert(line_weight(ix, reg, line) == 0);
                assert(st2.mat == st.mat);
            }
        }
    }
}

proof fn lemma_line_weight_nonneg(ix: FeatureIndex, reg: Seq<(Seq<u8>, u32)>, line: Seq<u8>)
    ensures
        line_weight(ix, reg, line) >= 0,
{
    if !inert_line(ix, reg, line) {
        let fs = split_spec(line);
        let s = parse_u32_spec(trim_spec(fs[1]))->0;
        let e = parse_u32_spec(trim_spec(fs[2]))->0;
        let cp = chrom_pos(ix.chroms@, fs[0]);
        lemma_frag_weight_nonneg(ix.chroms@[cp].ivs@, ix.lookup@, s, e, 0);
    }
}

proof fn lemma_frag_weight_nonneg(
    ivs: Seq<Interval>,
    lookup: Seq<(u32, u64)>,
    s: u32,
    e: u32,
    j: int,
)
    ensures
        frag_weight_from(ivs, lookup, s, e, j) >= 0,
    decreases ivs.len() - j,
{
    if 0 <= j < ivs.len() {
        lemma_frag_weight_nonneg(ivs, lookup, s, e, j + 1);
    }
}

pub proof fn lemma_run_weight_nonneg(ix: FeatureIndex, reg: Seq<(Seq<u8>, u32)>, lines: Seq<Seq<u8>>)
    ensures
        run_weight(ix, reg, lines) >= 0,
    decreases lines.len(),
{
    if lines.len() > 0 {
        lemma_line_weight_nonneg(ix, reg, lines[0]);
        lemma_run_weight_nonneg(ix, reg, lines.drop_first());
    }
}

/// The sum of all matrix values after a run equals its value before plus,
/// over all processed fragments, the fragment's matched endpoints times the
/// matched features' weights.
pub proof fn lemma_run_total(
    ix: FeatureIndex,
    reg: Seq<(Seq<u8>, u32)>,
    st: AggView,
    lines: Seq<Seq<u8>>,
)
    requires
        wf_index(ix),
        st.mat.len() == ix.nrows,
        doms_finite(st.mat),
        0 <= st.cursor,
        run_ok(ix, reg, st, lines),
        mat_total(st.mat) + run_weight(ix, reg, lines) <= u64::MAX,
    ensures
        mat_total(run_lines(ix, reg, st, lines).mat) == mat_total(st.mat) + run_weight(
            ix,
            reg,
            lines,
        ),
    decreases lines.len(),
{
    if lines.len() > 0 {
        let st1 = line_step(ix, reg, st, lines[0]);
        lemma_line_weight_nonneg(ix, reg, lines[0]);
        lemma_run_weight_nonneg(ix, reg, lines.drop_first());
        lemma_line_total(ix, reg, st, lines[0]);
        lemma_run_total(ix, reg, st1, lines.drop_first());
    }
}

} // verus!
