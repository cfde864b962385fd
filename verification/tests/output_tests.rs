use fragtk::agg::Aggregator;
use fragtk::builder::IndexBuilder;
use fragtk::matrix::CountMatrix;
use fragtk::mmwrite::{render_header, render_matrix, render_row};
use fragtk::registry::BarcodeRegistry;

fn lines(ls: &[&str]) -> Vec<Vec<u8>> {
    ls.iter().map(|s| s.as_bytes().to_vec()).collect()
}

fn entry_lines(out: &[u8]) -> Vec<String> {
    let text = String::from_utf8(out.to_vec()).unwrap();
    text.lines().skip(3).map(|l| l.to_string()).collect()
}

#[test]
fn matrix_market_output_exact_bytes() {
    let mut m = CountMatrix::new(2, 2);
    m.add(0, 0, 3);
    m.add(1, 1, 2);
    let out = render_matrix(&m);
    let expected = "%%MatrixMarket matrix coordinate integer general\n\
                    %%metadata json: {{\"software_version\": \"fragtk-1.1.0\"}}\n\
                    2 2 2\n\
                    1 1 3\n\
                    2 2 2\n";
    assert_eq!(out, expected.as_bytes().to_vec());
}

#[test]
fn header_counts_nonzero_entries() {
    let mut m = CountMatrix::new(3, 4);
    m.add(0, 1, 1);
    m.add(0, 2, 1);
    m.add(2, 0, 7);
    let head = render_header(&m);
    let text = String::from_utf8(head).unwrap();
    let dims = text.lines().nth(2).unwrap().to_string();
    assert_eq!(dims, "3 4 3");
}

#[test]
fn row_chunks_compose_the_matrix() {
    let mut m = CountMatrix::new(2, 3);
    m.add(0, 0, 1);
    m.add(0, 2, 4);
    m.add(1, 1, 2);
    let mut streamed = render_header(&m);
    for r in 0..2 {
        streamed.extend_from_slice(&render_row(&m, r));
    }
    let whole = render_matrix(&m);
    let mut a = entry_lines(&streamed);
    let mut b = entry_lines(&whole);
    a.sort();
    b.sort();
    assert_eq!(a, b);
    assert_eq!(a, vec!["1 1 1".to_string(), "1 3 4".to_string(), "2 2 2".to_string()]);
}

#[test]
fn repeated_entries_accumulate_by_addition() {
    let mut m = CountMatrix::new(1, 1);
    m.add(0, 0, 2);
    m.add(0, 0, 5);
    assert_eq!(m.get(0, 0), 7);
    assert_eq!(m.nonzero(), 1);
}

#[test]
fn serialized_entry_sets_agree_across_runs() {
    // The logical entries are fixed before any compression worker runs;
    // two serializations of the same aggregation carry the same set.
    let mut b = IndexBuilder::new(None, None);
    b.add_lines(&lines(&["chr1\t100\t200", "chr1\t200\t300"]));
    let (ix, _) = b.freeze();
    let mut reg = BarcodeRegistry::new();
    reg.add_lines(&lines(&["B1", "B2"]));
    let frags = lines(&["chr1\t110\t190\tB1", "chr1\t150\t250\tB2", "chr1\t210\t290\tB2"]);
    let mut a1 = Aggregator::new(&ix, &reg);
    a1.process_lines(&ix, &reg, &frags);
    let mut a2 = Aggregator::new(&ix, &reg);
    a2.process_lines(&ix, &reg, &frags);
    let mut l1 = entry_lines(&render_matrix(&a1.counts));
    let mut l2 = entry_lines(&render_matrix(&a2.counts));
    l1.sort();
    l2.sort();
    assert_eq!(l1, l2);
    assert_eq!(l1, vec!["1 1 2".to_string(), "1 2 1".to_string(), "2 2 3".to_string()]);
}

#[test]
fn empty_matrix_renders_header_only() {
    let m = CountMatrix::new(0, 0);
    let out = render_matrix(&m);
    let expected = "%%MatrixMarket matrix coordinate integer general\n\
                    %%metadata json: {{\"software_version\": \"fragtk-1.1.0\"}}\n\
                    0 0 0\n";
    assert_eq!(out, expected.as_bytes().to_vec());
}

#[test]
fn saturating_addition_stops_at_the_top() {
    let mut m = CountMatrix::new(1, 1);
    m.add(0, 0, u64::MAX - 1);
    m.add(0, 0, 5);
    assert_eq!(m.get(0, 0), u64::MAX);
}

#[test]
fn row_without_entries_renders_nothing() {
    let mut m = CountMatrix::new(3, 2);
    m.add(1, 0, 9);
    assert!(render_row(&m, 0).is_empty());
    assert_eq!(render_row(&m, 1), b"2 1 9\n".to_vec());
    assert!(render_row(&m, 2).is_empty());
}
