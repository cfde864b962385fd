use fragtk::builder::IndexBuilder;
use fragtk::registry::BarcodeRegistry;

fn lines(ls: &[&str]) -> Vec<Vec<u8>> {
    ls.iter().map(|s| s.as_bytes().to_vec()).collect()
}

#[test]
fn ungrouped_rows_follow_valid_input_order() {
    let mut b = IndexBuilder::new(None, None);
    b.add_lines(&lines(&[
        "# header",
        "chr1\t100\t200",
        "chr1\tbad\t300",
        "chr1\t200\t300",
        "short",
        "chr2\t10\t20",
    ]));
    assert_eq!(b.nrows(), 3);
    let (ix, labels) = b.freeze();
    assert_eq!(ix.nrows, 3);
    assert_eq!(ix.lookup.len(), 3);
    // rows are dense and in valid-input order
    assert_eq!(ix.lookup[0].0, 0);
    assert_eq!(ix.lookup[1].0, 1);
    assert_eq!(ix.lookup[2].0, 2);
    assert_eq!(labels.len(), 3);
    assert_eq!(labels[0], b"chr1-100-200".to_vec());
    assert_eq!(labels[1], b"chr1-200-300".to_vec());
    assert_eq!(labels[2], b"chr2-10-20".to_vec());
}

#[test]
fn grouped_regions_share_rows() {
    let mut b = IndexBuilder::new(Some(3), None);
    b.add_lines(&lines(&[
        "chr1\t100\t200\tgA",
        "chr1\t300\t400\tgB",
        "chr1\t500\t600\tgA",
        "chr1\t700\t800",  // group column missing: skipped
    ]));
    assert_eq!(b.nrows(), 2);
    let (ix, labels) = b.freeze();
    assert_eq!(ix.nrows, 2);
    assert_eq!(ix.lookup.len(), 3);
    assert_eq!(ix.lookup[0].0, 0); // gA
    assert_eq!(ix.lookup[1].0, 1); // gB
    assert_eq!(ix.lookup[2].0, 0); // gA again: same row, no duplicate label
    assert_eq!(labels, vec![b"gA".to_vec(), b"gB".to_vec()]);
}

#[test]
fn weight_column_is_read_and_bad_weight_skips() {
    let mut b = IndexBuilder::new(None, Some(4));
    b.add_lines(&lines(&[
        "chr1\t100\t200\tx\t5",
        "chr1\t300\t400\tx\tbad",
        "chr1\t500\t600",  // weight column missing: default weight 1
    ]));
    let (ix, labels) = b.freeze();
    assert_eq!(ix.nrows, 2);
    assert_eq!(ix.lookup[0], (0, 5));
    assert_eq!(ix.lookup[1], (1, 1));
    assert_eq!(labels.len(), 2);
}

#[test]
fn freeze_sorts_intervals_by_start() {
    let mut b = IndexBuilder::new(None, None);
    b.add_lines(&lines(&["chr1\t500\t600", "chr1\t100\t200", "chr1\t300\t400"]));
    let (ix, _) = b.freeze();
    assert_eq!(ix.chroms.len(), 1);
    let ivs = &ix.chroms[0].ivs;
    assert_eq!(ivs.len(), 3);
    assert!(ivs[0].start <= ivs[1].start && ivs[1].start <= ivs[2].start);
    // sorting permutes intervals, not which (row, weight) record an id names
    assert_eq!(ivs[0].start, 100);
    assert_eq!(ix.lookup[ivs[0].id].0, 1);
    assert_eq!(ivs[2].start, 500);
    assert_eq!(ix.lookup[ivs[2].id].0, 0);
}

#[test]
fn registry_assigns_columns_in_input_order() {
    let mut reg = BarcodeRegistry::new();
    reg.add_lines(&lines(&["B1", "B2", "B1", "B3"]));
    assert_eq!(reg.len(), 3);
    assert_eq!(reg.lookup(b"B1"), Some(0));
    assert_eq!(reg.lookup(b"B2"), Some(1));
    assert_eq!(reg.lookup(b"B3"), Some(2));
    assert_eq!(reg.lookup(b"BX"), None);
    let bcs = reg.barcodes();
    assert_eq!(bcs, vec![b"B1".to_vec(), b"B2".to_vec(), b"B3".to_vec()]);
}
