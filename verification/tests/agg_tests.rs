use fragtk::agg::Aggregator;
use fragtk::builder::IndexBuilder;
use fragtk::index::FeatureIndex;
use fragtk::registry::BarcodeRegistry;

fn lines(ls: &[&str]) -> Vec<Vec<u8>> {
    ls.iter().map(|s| s.as_bytes().to_vec()).collect()
}

fn three_regions() -> (FeatureIndex, BarcodeRegistry) {
    let mut b = IndexBuilder::new(None, None);
    b.add_lines(&lines(&["chr1\t100\t200", "chr1\t200\t300", "chr1\t500\t600"]));
    let (ix, _) = b.freeze();
    let mut reg = BarcodeRegistry::new();
    reg.add_lines(&lines(&["B1", "B2"]));
    (ix, reg)
}

#[test]
fn three_fragments_scenario() {
    let (ix, reg) = three_regions();
    let mut agg = Aggregator::new(&ix, &reg);
    agg.process_lines(&ix, &reg, &lines(&[
        "chr1\t50\t150\tB1",   // start outside, end in row 0: +1
        "chr1\t120\t180\tB1",  // contained in row 0: +2
        "chr1\t250\t280\tB2",  // contained in row 1: +2
    ]));
    assert_eq!(agg.counts.get(0, 0), 3);
    assert_eq!(agg.counts.get(1, 1), 2);
    assert_eq!(agg.counts.get(0, 1), 0);
    assert_eq!(agg.counts.get(1, 0), 0);
    assert_eq!(agg.counts.get(2, 0), 0);
    assert_eq!(agg.counts.get(2, 1), 0);
    assert_eq!(agg.counts.nonzero(), 2);
}

#[test]
fn unknown_barcode_never_alters_the_matrix() {
    let (ix, reg) = three_regions();
    let mut agg = Aggregator::new(&ix, &reg);
    agg.process_line(&ix, &reg, b"chr1\t120\t180\tBX");
    assert_eq!(agg.counts.nonzero(), 0);
    for r in 0..3 {
        for c in 0..2 {
            assert_eq!(agg.counts.get(r, c), 0);
        }
    }
}

#[test]
fn bad_start_is_skipped_and_later_lines_count() {
    let (ix, reg) = three_regions();
    let mut agg = Aggregator::new(&ix, &reg);
    agg.process_lines(&ix, &reg, &lines(&[
        "chr1\tabc\t150\tB1",  // skipped with no contribution
        "chr1\t120\t180\tB1",  // still counted
    ]));
    assert_eq!(agg.counts.get(0, 0), 2);
    assert_eq!(agg.counts.nonzero(), 1);
}

#[test]
fn endpoints_in_two_features_count_once_each() {
    let (ix, reg) = three_regions();
    let mut agg = Aggregator::new(&ix, &reg);
    // start in [100,200), end in [200,300)
    agg.process_line(&ix, &reg, b"chr1\t150\t250\tB1");
    assert_eq!(agg.counts.get(0, 0), 1);
    assert_eq!(agg.counts.get(1, 0), 1);
    assert_eq!(agg.counts.nonzero(), 2);
}

#[test]
fn both_endpoints_outside_add_nothing() {
    let (ix, reg) = three_regions();
    let mut agg = Aggregator::new(&ix, &reg);
    agg.process_line(&ix, &reg, b"chr1\t350\t450\tB1");
    assert_eq!(agg.counts.nonzero(), 0);
}

#[test]
fn comment_and_short_lines_are_ignored() {
    let (ix, reg) = three_regions();
    let mut agg = Aggregator::new(&ix, &reg);
    agg.process_lines(&ix, &reg, &lines(&["# comment", "", "chr1\t120", "chr1\t120\t180"]));
    assert_eq!(agg.counts.nonzero(), 0);
}

#[test]
fn coordinates_are_trimmed() {
    let (ix, reg) = three_regions();
    let mut agg = Aggregator::new(&ix, &reg);
    agg.process_line(&ix, &reg, b"chr1\t 120 \t 180 \tB1");
    assert_eq!(agg.counts.get(0, 0), 2);
}

#[test]
fn chromosome_switch_resets_the_cursor() {
    let mut b = IndexBuilder::new(None, None);
    b.add_lines(&lines(&["chr1\t100\t200", "chr2\t100\t200"]));
    let (ix, _) = b.freeze();
    let mut reg = BarcodeRegistry::new();
    reg.add_lines(&lines(&["B1"]));
    let mut agg = Aggregator::new(&ix, &reg);
    agg.process_lines(&ix, &reg, &lines(&[
        "chr1\t110\t190\tB1",
        "chr2\t110\t190\tB1",
        "chr3\t110\t190\tB1",  // no features on chr3
    ]));
    assert_eq!(agg.counts.get(0, 0), 2);
    assert_eq!(agg.counts.get(1, 0), 2);
    assert_eq!(agg.counts.nonzero(), 2);
}

#[test]
fn grouped_features_accumulate_on_one_row() {
    let mut b = IndexBuilder::new(Some(3), None);
    b.add_lines(&lines(&["chr1\t100\t200\tgA", "chr1\t300\t400\tgB", "chr1\t500\t600\tgA"]));
    let (ix, _) = b.freeze();
    let mut reg = BarcodeRegistry::new();
    reg.add_lines(&lines(&["B1"]));
    let mut agg = Aggregator::new(&ix, &reg);
    agg.process_lines(&ix, &reg, &lines(&[
        "chr1\t110\t190\tB1",  // contained in first gA region: +2
        "chr1\t510\t590\tB1",  // contained in second gA region: +2 on the same row
        "chr1\t310\t390\tB1",  // out of order within the chromosome run: not counted
    ]));
    assert_eq!(agg.counts.get(0, 0), 4);
    assert_eq!(agg.counts.get(1, 0), 0);
}

#[test]
fn weights_scale_contributions() {
    let mut b = IndexBuilder::new(None, Some(4));
    b.add_lines(&lines(&["chr1\t100\t200\tx\t5"]));
    let (ix, _) = b.freeze();
    let mut reg = BarcodeRegistry::new();
    reg.add_lines(&lines(&["B1"]));
    let mut agg = Aggregator::new(&ix, &reg);
    agg.process_line(&ix, &reg, b"chr1\t120\t180\tB1");
    assert_eq!(agg.counts.get(0, 0), 10);
}

#[test]
fn sum_of_values_counts_matched_endpoints() {
    let (ix, reg) = three_regions();
    let mut agg = Aggregator::new(&ix, &reg);
    agg.process_lines(&ix, &reg, &lines(&[
        "chr1\t50\t150\tB1",   // 1 matched endpoint
        "chr1\t120\t180\tB1",  // 2 matched endpoints
        "chr1\t250\t280\tB2",  // 2 matched endpoints
        "chr1\t350\t450\tB2",  // 0 matched endpoints
    ]));
    let mut total: u64 = 0;
    for r in 0..3 {
        for c in 0..2 {
            total += agg.counts.get(r, c);
        }
    }
    assert_eq!(total, 5);
}

#[test]
fn empty_region_file_counts_nothing() {
    let mut b = IndexBuilder::new(None, None);
    b.add_lines(&lines(&[]));
    let (ix, labels) = b.freeze();
    assert_eq!(ix.nrows, 0);
    assert!(labels.is_empty());
    let mut reg = BarcodeRegistry::new();
    reg.add_lines(&lines(&["B1"]));
    let mut agg = Aggregator::new(&ix, &reg);
    agg.process_line(&ix, &reg, b"chr1\t120\t180\tB1");
    assert_eq!(agg.counts.nonzero(), 0);
}

#[test]
fn coordinates_at_the_type_limit_parse() {
    let mut b = IndexBuilder::new(None, None);
    b.add_lines(&lines(&["chr1\t4294967290\t4294967295"]));
    let (ix, _) = b.freeze();
    let mut reg = BarcodeRegistry::new();
    reg.add_lines(&lines(&["B1"]));
    let mut agg = Aggregator::new(&ix, &reg);
    agg.process_line(&ix, &reg, b"chr1\t4294967291\t4294967294\tB1");
    assert_eq!(agg.counts.get(0, 0), 2);
}
