use fragtk::cells::{fragment_kept, BarcodeCounts};
use fragtk::registry::BarcodeRegistry;

fn lines(ls: &[&str]) -> Vec<Vec<u8>> {
    ls.iter().map(|s| s.as_bytes().to_vec()).collect()
}

#[test]
fn barcode_counts_accumulate_per_cell() {
    let mut c = BarcodeCounts::new();
    for l in lines(&[
        "chr1\t1\t2\tB1",
        "chr1\t3\t4\tB2",
        "chr1\t5\t6\tB1",
        "# comment",
        "short\tline",
        "chr1\t7\t8\tB1",
    ]) {
        c.count_line(&l);
    }
    assert_eq!(c.entries.len(), 2);
    assert_eq!(c.entries[0], (b"B1".to_vec(), 3));
    assert_eq!(c.entries[1], (b"B2".to_vec(), 1));
}

#[test]
fn selection_is_strictly_above_the_cutoff() {
    let mut c = BarcodeCounts::new();
    for l in lines(&[
        "chr1\t1\t2\tB1",
        "chr1\t1\t2\tB1",
        "chr1\t1\t2\tB1",
        "chr1\t1\t2\tB2",
        "chr1\t1\t2\tB2",
        "chr1\t1\t2\tB3",
    ]) {
        c.count_line(&l);
    }
    assert_eq!(c.select_barcodes(2), vec![b"B1".to_vec()]);
    assert_eq!(c.select_barcodes(1), vec![b"B1".to_vec(), b"B2".to_vec()]);
    assert_eq!(c.select_barcodes(0).len(), 3);
}

#[test]
fn fragment_subsetting_keeps_only_selected_cells() {
    let mut cells = BarcodeRegistry::new();
    cells.add_lines(&lines(&["B1", "B3"]));
    assert!(fragment_kept(&cells, b"chr1\t1\t2\tB1"));
    assert!(fragment_kept(&cells, b"chr1\t1\t2\tB3\textra"));
    assert!(!fragment_kept(&cells, b"chr1\t1\t2\tB2"));
    assert!(!fragment_kept(&cells, b"# comment line"));
    assert!(!fragment_kept(&cells, b"chr1\t1\t2"));
}
