//! Matrix Market coordinate serialization of the accumulator.
//!
//! The output is the fixed header line, a producer/version comment, the
//! dimensions line `rows columns nonzero`, then one `row column value` line
//! per nonzero entry with 1-based indices. Rows are emitted in row order;
//! the order within a row is whatever the row's map yields — the contract
//! fixes the *set* of emitted entries and their count, not their order, and
//! the logical content is fully decided here, before any compression worker
//! sees a byte.

use std::collections::HashMap;
use vstd::prelude::*;
use vstd::string::*;

use crate::matrix::{nnz, CountMatrix};
use crate::parse::{dec_rep, push_dec_u128, push_dec_u64, push_str_bytes};

verus! {

broadcast use vstd::std_specs::hash::group_hash_axioms;

pub open spec fn header_spec() -> Seq<u8> {
    "%%MatrixMarket matrix coordinate integer general\n".spec_bytes()
}

pub open spec fn meta_spec() -> Seq<u8> {
    "%%metadata json: {{\"software_version\": \"fragtk-1.1.0\"}}\n".spec_bytes()
}

/// The dimensions line: `rows columns nonzero`.
pub open spec fn dims_spec(nrows: nat, ncols: nat, nz: nat) -> Seq<u8> {
    dec_rep(nrows) + seq![32u8] + dec_rep(ncols) + seq![32u8] + dec_rep(nz) + seq![10u8]
}

/// One entry line, with 1-based row and column.
pub open spec fn entry_line(r: int, c: u32, v: u64) -> Seq<u8> {
    dec_rep((r + 1) as nat) + seq![32u8] + dec_rep((c + 1) as nat) + seq![32u8] + dec_rep(v as nat)
        + seq![10u8]
}

/// The entry lines of an enumeration, concatenated.
pub open spec fn render_entries(es: Seq<(int, u32, u64)>) -> Seq<u8>
    decreases es.len(),
{
    if es.len() == 0 {
        Seq::empty()
    } else {
        entry_line(es[0].0, es[0].1, es[0].2) + render_entries(es.drop_first())
    }
}

/// The nonzero entries of a matrix, as (row, column, value) triples.
pub open spec fn entries_of(mat: Seq<Map<u32, u64>>) -> Set<(int, u32, u64)> {
    Set::new(
        |t: (int, u32, u64)|
            0 <= t.0 < mat.len() && mat[t.0].contains_key(t.1) && t.2 == mat[t.0][t.1],
    )
}

/// The nonzero entries of the rows before `upto`.
pub open spec fn entries_upto(mat: Seq<Map<u32, u64>>, upto: int) -> Set<(int, u32, u64)> {
    Set::new(
        |t: (int, u32, u64)|
            0 <= t.0 < upto && t.0 < mat.len() && mat[t.0].contains_key(t.1) && t.2
                == mat[t.0][t.1],
    )
}

/// What a serialization of `mat` is: some enumeration of exactly its
/// nonzero entries, one line each, behind the two header lines and the
/// dimensions line.
pub open spec fn mm_output_ok(
    out: Seq<u8>,
    mat: Seq<Map<u32, u64>>,
    ncols: u32,
    es: Seq<(int, u32, u64)>,
) -> bool {
    &&& es.len() == nnz(mat)
    &&& es.to_set() == entries_of(mat)
    &&& out == header_spec() + meta_spec() + dims_spec(mat.len() as nat, ncols as nat, nnz(mat) as nat)
        + render_entries(es)
}

proof fn lemma_render_entries_concat(a: Seq<(int, u32, u64)>, b: Seq<(int, u32, u64)>)
    ensures
        render_entries(a + b) == render_entries(a) + render_entries(b),
    decreases a.len(),
{
    if a.len() == 0 {
        assert(a + b =~= b);
        assert(render_entries(a) =~= Seq::<u8>::empty());
        assert(render_entries(a) + render_entries(b) =~= render_entries(b));
    } else {
        lemma_render_entries_concat(a.drop_first(), b);
        assert((a + b).drop_first() =~= a.drop_first() + b);
        assert(render_entries(a + b) =~= render_entries(a) + render_entries(b));
    }
}

/// Append one row's entry lines to `out`; the entries written are exactly
/// the row's map, in its enumeration order.
fn render_row_into(out: &mut Vec<u8>, row: &HashMap<u32, u64>, r: u32) -> (es: Ghost<
    Seq<(int, u32, u64)>,
>)
    ensures
        es@.len() == row@.dom().len(),
        es@.to_set() == Set::new(
            |t: (int, u32, u64)|
                t.0 == r as int && row@.contains_key(t.1) && t.2 == row@[t.1],
        ),
        final(out)@ == old(out)@ + render_entries(es@),
{
    let ghost pre = out@;
    let it0 = row.iter();
    let ghost kvs = vstd::std_specs::hash::into_iter(it0);
    let ghost es = kvs.map_values(|p: (u32, u64)| (r as int, p.0, p.1));
    for kv in it: it0
        invariant
            kvs == vstd::std_specs::hash::into_iter(it0),
            es == kvs.map_values(|p: (u32, u64)| (r as int, p.0, p.1)),
            it.seq().unref() == kvs,
            0 <= it.index() <= kvs.len() == es.len(),
            out@ == pre + render_entries(es.take(it.index() as int)),
    {
        let (k, v): (&u32, &u64) = kv;
        let ghost i = it.index();
        proof {
            assert((*k, *v) == kvs[i]);
        }
        push_dec_u64(out, (r as u64) + 1);
        out.push(32u8);
        push_dec_u64(out, (*k as u64) + 1);
        out.push(32u8);
        push_dec_u64(out, *v);
        out.push(10u8);
        proof {
            assert(es[i] == (r as int, kvs[i].0, kvs[i].1));
            assert(seq![es[i]].drop_first() =~= Seq::<(int, u32, u64)>::empty());
            assert(render_entries(Seq::<(int, u32, u64)>::empty()) =~= Seq::<u8>::empty());
            lemma_render_entries_concat(es.take(i), seq![es[i]]);
            assert(es.take(i + 1) =~= es.take(i) + seq![es[i]]);
            assert(render_entries(seq![es[i]]) =~= entry_line(r as int, kvs[i].0, kvs[i].1));
            assert(out@ =~= pre + render_entries(es.take(i + 1)));
        }
    }
    proof {
        assert(es.take(es.len() as int) =~= es);
        assert(kvs.to_set() == row@.kv_pairs());
        assert(es.to_set() =~= Set::new(
            |t: (int, u32, u64)|
                t.0 == r as int && row@.contains_key(t.1) && t.2 == row@[t.1],
        )) by {
            let target = Set::new(
                |t: (int, u32, u64)|
                    t.0 == r as int && row@.contains_key(t.1) && t.2 == row@[t.1],
            );
            assert forall|t: (int, u32, u64)| es.to_set().contains(t) implies target.contains(t) by {
                let i = choose|i: int| 0 <= i < es.len() && es[i] == t;
                assert(kvs.to_set().contains(kvs[i]));
                assert(row@.kv_pairs().contains(kvs[i]));
            }
            assert forall|t: (int, u32, u64)| target.contains(t) implies es.to_set().contains(t) by {
                assert(row@.kv_pairs().contains((t.1, t.2)));
                assert(kvs.to_set().contains((t.1, t.2)));
                let i = choose|i: int| 0 <= i < kvs.len() && kvs[i] == (t.1, t.2);
                assert(es[i] == t);
            }
        }
    }
    Ghost(es)
}

/// The two header lines and the dimensions line.
pub fn render_header(mat: &CountMatrix) -> (out: Vec<u8>)
    ensures
        out@ == header_spec() + meta_spec() + dims_spec(
            mat@.len() as nat,
            mat.ncols as nat,
            nnz(mat@) as nat,
        ),
{
    let mut out: Vec<u8> = Vec::new();
    push_str_bytes(&mut out, "%%MatrixMarket matrix coordinate integer general\n");
    push_str_bytes(&mut out, "%%metadata json: {{\"software_version\": \"fragtk-1.1.0\"}}\n");
    push_dec_u64(&mut out, mat.rows.len() as u64);
    out.push(32u8);
    push_dec_u64(&mut out, mat.ncols as u64);
    out.push(32u8);
    let nz = mat.nonzero();
    push_dec_u128(&mut out, nz);
    out.push(10u8);
    proof {
        assert(out@ =~= header_spec() + meta_spec() + dims_spec(
            mat@.len() as nat,
            mat.ncols as nat,
            nnz(mat@) as nat,
        ));
    }
    out
}

/// One row's entry lines; the application streams the matrix by calling
/// this for every row in order, batching the chunks it hands to the
/// compressor.
pub fn render_row(mat: &CountMatrix, r: u32) -> (out: Vec<u8>)
    requires
        r < mat@.len(),
    ensures
        exists|es: Seq<(int, u32, u64)>|
            {
                &&& es.len() == mat@[r as int].dom().len()
                &&& es.to_set() == Set::new(
                    |t: (int, u32, u64)|
                        t.0 == r as int && mat@[r as int].contains_key(t.1) && t.2
                            == mat@[r as int][t.1],
                )
                &&& out@ == #[trigger] render_entries(es)
            },
{
    let mut out: Vec<u8> = Vec::new();
    let es = render_row_into(&mut out, &mat.rows[r as usize], r);
    proof {
        assert(out@ == render_entries(es@));
    }
    out
}

/// The whole serialized matrix: header, dimensions, and one line per
/// nonzero entry, rows in order.
pub fn render_matrix(mat: &CountMatrix) -> (out: Vec<u8>)
    requires
        mat@.len() <= u32::MAX,
    ensures
        exists|es: Seq<(int, u32, u64)>| #[trigger] mm_output_ok(out@, mat@, mat.ncols, es),
{
    let mut out = render_header(mat);
    let ghost head = out@;
    let n = mat.rows.len();
    let mut r: usize = 0;
    let ghost mut es_acc: Seq<(int, u32, u64)> = Seq::empty();
    proof {
        assert(render_entries(es_acc) =~= Seq::<u8>::empty());
        assert(out@ =~= head + render_entries(es_acc));
        assert(es_acc.to_set() =~= entries_upto(mat@, 0));
        lemma_nnz_prefix(mat@, 0);
    }
    while r < n
        invariant
            0 <= r <= n == mat@.len(),
            n <= u32::MAX,
            n == mat.rows@.len(),
            head == header_spec() + meta_spec() + dims_spec(
                mat@.len() as nat,
                mat.ncols as nat,
                nnz(mat@) as nat,
            ),
            out@ == head + render_entries(es_acc),
            es_acc.to_set() == entries_upto(mat@, r as int),
            es_acc.len() == nnz(mat@.take(r as int)),
        decreases n - r,
    {
        let es_row = render_row_into(&mut out, &mat.rows[r], r as u32);
        proof {
            assert(mat@[r as int] == mat.rows@[r as int]@);
            lemma_render_entries_concat(es_acc, es_row@);
            lemma_nnz_prefix(mat@, r as int);
            assert(mat@.take(r as int + 1).drop_last() =~= mat@.take(r as int));
            assert((es_acc + es_row@).to_set() =~= entries_upto(mat@, r as int + 1)) by {
                assert forall|t: (int, u32, u64)| (es_acc + es_row@).to_set().contains(t) implies
                    entries_upto(mat@, r as int + 1).contains(t) by {
                    let i = choose|i: int| 0 <= i < (es_acc + es_row@).len() && (es_acc
                        + es_row@)[i] == t;
                    if i < es_acc.len() {
                        assert(es_acc.to_set().contains(t));
                    } else {
                        assert(es_row@[i - es_acc.len()] == t);
                        assert(es_row@.to_set().contains(t));
                    }
                }
                assert forall|t: (int, u32, u64)| entries_upto(mat@, r as int + 1).contains(t)
                    implies (es_acc + es_row@).to_set().contains(t) by {
                    if t.0 < r as int {
                        assert(es_acc.to_set().contains(t));
                        let i = choose|i: int| 0 <= i < es_acc.len() && es_acc[i] == t;
                        assert((es_acc + es_row@)[i] == t);
                    } else {
                        assert(es_row@.to_set().contains(t));
                        let i = choose|i: int| 0 <= i < es_row@.len() && es_row@[i] == t;
                        assert((es_acc + es_row@)[es_acc.len() + i] == t);
                    }
                }
            }
        }
        proof {
            es_acc = es_acc + es_row@;
        }
        r += 1;
    }
    proof {
        assert(mat@.take(n as int) =~= mat@);
        assert(es_acc.to_set() =~= entries_of(mat@));
        assert(mm_output_ok(out@, mat@, mat.ncols, es_acc));
    }
    out
}

/// The nonzero count of a prefix grows by the next row's entry count.
proof fn lemma_nnz_prefix(mat: Seq<Map<u32, u64>>, r: int)
    requires
        0 <= r < mat.len() || r == 0,
    ensures
        0 <= r < mat.len() ==> nnz(mat.take(r + 1)) == nnz(mat.take(r)) + mat[r].dom().len(),
        r == 0 ==> nnz(mat.take(0)) == 0,
{
    if r == 0 {
        assert(mat.take(0) =~= Seq::<Map<u32, u64>>::empty());
        assert(nnz(Seq::<Map<u32, u64>>::empty()) == 0);
    }
    if 0 <= r < mat.len() {
        assert(mat.take(r + 1) =~= mat.take(r).push(mat[r]));
        crate::matrix::lemma_nnz_push(mat.take(r), mat[r]);
    }
}

} // verus!
