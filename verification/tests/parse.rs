use hyperpath::LoadError;
use hyperpath::parse_dump_line;
use hyperpath::parse_ipv4;
use hyperpath::parse_relation_line;

#[test]
fn ipv4_round_values() {
    assert_eq!(parse_ipv4(b"0.0.0.0"), Some(0));
    assert_eq!(parse_ipv4(b"255.255.255.255"), Some(u32::MAX));
    assert_eq!(parse_ipv4(b"1.2.3.4"), Some(0x01020304));
    assert_eq!(parse_ipv4(b"10.0.0.1"), Some(0x0a000001));
}

#[test]
fn ipv4_rejects_malformed() {
    assert_eq!(parse_ipv4(b"1.2.3"), None);
    assert_eq!(parse_ipv4(b"1.2.3.4.5"), None);
    assert_eq!(parse_ipv4(b"256.1.1.1"), None);
    assert_eq!(parse_ipv4(b"01.2.3.4"), None);
    assert_eq!(parse_ipv4(b"1.2.3.x"), None);
    assert_eq!(parse_ipv4(b""), None);
}

#[test]
fn dump_line_fields() {
    let rec = parse_dump_line(b"a|b|c|d|10|1.2.3.4/8|10 20 30").unwrap();
    assert_eq!(rec.notifier, 10);
    assert_eq!(rec.addr, 0x01020304);
    assert_eq!(rec.masklen, 8);
    assert_eq!(rec.path, vec![10, 20, 30]);
}

#[test]
fn dump_line_ignores_trailing_fields() {
    let rec = parse_dump_line(b"||||7|9.9.0.0/16|7 8|extra|more").unwrap();
    assert_eq!(rec.notifier, 7);
    assert_eq!(rec.masklen, 16);
    assert_eq!(rec.path, vec![7, 8]);
}

#[test]
fn as_set_token_takes_second_member() {
    let rec = parse_dump_line(b"||||10|1.0.0.0/8|10 {100,200,300} 30").unwrap();
    assert_eq!(rec.path, vec![10, 200, 30]);
}

#[test]
fn as_set_token_with_one_member_takes_it() {
    let rec = parse_dump_line(b"||||10|1.0.0.0/8|10 {100} 30").unwrap();
    assert_eq!(rec.path, vec![10, 100, 30]);
}

#[test]
fn dump_line_missing_fields() {
    assert_eq!(parse_dump_line(b"1|2|3"), Err(LoadError::MissingField));
}

#[test]
fn dump_line_bad_asn() {
    assert_eq!(parse_dump_line(b"||||xx|1.0.0.0/8|10"), Err(LoadError::BadAsn));
}

#[test]
fn dump_line_bad_prefix() {
    assert_eq!(parse_dump_line(b"||||10|1.0.0.0|10"), Err(LoadError::BadPrefix));
    assert_eq!(parse_dump_line(b"||||10|1.0.0.0/33|10"), Err(LoadError::BadPrefix));
    assert_eq!(parse_dump_line(b"||||10|1.0.0/8|10"), Err(LoadError::BadPrefix));
}

#[test]
fn dump_line_bad_path() {
    assert_eq!(parse_dump_line(b"||||10|1.0.0.0/8|10 abc"), Err(LoadError::BadPath));
    assert_eq!(parse_dump_line(b"||||10|1.0.0.0/8|"), Err(LoadError::BadPath));
}

#[test]
fn relation_line_fields() {
    assert_eq!(parse_relation_line(b"10|20|-1"), Ok((10, 20, -1)));
    assert_eq!(parse_relation_line(b"10|20|0"), Ok((10, 20, 0)));
    assert_eq!(parse_relation_line(b"10|20|1|extra"), Ok((10, 20, 1)));
}

#[test]
fn relation_line_errors() {
    assert_eq!(parse_relation_line(b"1|2"), Err(LoadError::MissingField));
    assert_eq!(parse_relation_line(b"x|2|0"), Err(LoadError::BadAsn));
    assert_eq!(parse_relation_line(b"1|y|0"), Err(LoadError::BadAsn));
    assert_eq!(parse_relation_line(b"1|2|z"), Err(LoadError::BadRelation));
}

#[test]
fn asn_larger_than_32_bits_is_accepted() {
    let rec = parse_dump_line(b"||||4294967296|1.0.0.0/8|4294967296 20").unwrap();
    assert_eq!(rec.notifier, 4294967296);
    assert_eq!(rec.path, vec![4294967296, 20]);
}

#[test]
fn asn_overflowing_64_bits_is_rejected() {
    assert_eq!(
        parse_dump_line(b"||||99999999999999999999|1.0.0.0/8|10"),
        Err(LoadError::BadAsn)
    );
}
