use fragtk::parse::{bytes_eq, parse_u32, parse_u64, push_dec_u64, split_fields, subrange_vec, trim};

fn fields_of(line: &[u8]) -> Vec<Vec<u8>> {
    split_fields(line)
}

#[test]
fn split_simple_line() {
    let f = fields_of(b"chr1\t100\t200\tB1");
    assert_eq!(f.len(), 4);
    assert_eq!(f[0], b"chr1".to_vec());
    assert_eq!(f[1], b"100".to_vec());
    assert_eq!(f[2], b"200".to_vec());
    assert_eq!(f[3], b"B1".to_vec());
}

#[test]
fn split_empty_line_is_one_field() {
    let f = fields_of(b"");
    assert_eq!(f.len(), 1);
    assert_eq!(f[0], Vec::<u8>::new());
}

#[test]
fn split_keeps_empty_fields() {
    let f = fields_of(b"\ta\t\tb\t");
    assert_eq!(f.len(), 5);
    assert_eq!(f[0], Vec::<u8>::new());
    assert_eq!(f[1], b"a".to_vec());
    assert_eq!(f[2], Vec::<u8>::new());
    assert_eq!(f[3], b"b".to_vec());
    assert_eq!(f[4], Vec::<u8>::new());
}

#[test]
fn parse_u32_plain_and_plus() {
    assert_eq!(parse_u32(b"0"), Some(0));
    assert_eq!(parse_u32(b"12345"), Some(12345));
    assert_eq!(parse_u32(b"+7"), Some(7));
    assert_eq!(parse_u32(b"4294967295"), Some(u32::MAX));
}

#[test]
fn parse_u32_rejects_bad_fields() {
    assert_eq!(parse_u32(b""), None);
    assert_eq!(parse_u32(b"+"), None);
    assert_eq!(parse_u32(b"-1"), None);
    assert_eq!(parse_u32(b"12a"), None);
    assert_eq!(parse_u32(b"1 2"), None);
    assert_eq!(parse_u32(b"4294967296"), None);
    assert_eq!(parse_u32(b"99999999999999999999"), None);
}

#[test]
fn parse_u64_large_values() {
    assert_eq!(parse_u64(b"18446744073709551615"), Some(u64::MAX));
    assert_eq!(parse_u64(b"18446744073709551616"), None);
}

#[test]
fn trim_strips_ascii_whitespace() {
    assert_eq!(trim(b"  120 "), b"120".to_vec());
    assert_eq!(trim(b"\t99\r"), b"99".to_vec());
    assert_eq!(trim(b"x"), b"x".to_vec());
    assert_eq!(trim(b"   "), Vec::<u8>::new());
}

#[test]
fn decimal_rendering_is_exact() {
    let mut out: Vec<u8> = Vec::new();
    push_dec_u64(&mut out, 0);
    out.push(b' ');
    push_dec_u64(&mut out, 10);
    out.push(b' ');
    push_dec_u64(&mut out, 18446744073709551615);
    assert_eq!(out, b"0 10 18446744073709551615".to_vec());
}

#[test]
fn bytes_eq_and_subrange() {
    assert!(bytes_eq(b"abc", b"abc"));
    assert!(!bytes_eq(b"abc", b"abd"));
    assert!(!bytes_eq(b"abc", b"ab"));
    assert_eq!(subrange_vec(b"abcdef", 2, 5), b"cde".to_vec());
}
