use ru_cidr_sync::cidr::{format_block, parse_ipv4, range_to_blocks, CidrConverter};
use ru_cidr_sync::{CidrBlock, SyncError};

#[test]
fn single_address_is_one_host_block() {
    let conv = CidrConverter::new();
    let r = conv.range_to_cidrs("1.1.1.1", "1.1.1.1").unwrap();
    assert_eq!(r, vec!["1.1.1.1/32".to_string()]);
}

#[test]
fn aligned_range_of_eight_is_one_block() {
    let conv = CidrConverter::new();
    let r = conv.range_to_cidrs("10.0.0.0", "10.0.0.7").unwrap();
    assert_eq!(r, vec!["10.0.0.0/29".to_string()]);
}

#[test]
fn unaligned_range_splits_minimally() {
    let conv = CidrConverter::new();
    let r = conv.range_to_cidrs("10.0.0.1", "10.0.0.8").unwrap();
    assert_eq!(
        r,
        vec![
            "10.0.0.1/32".to_string(),
            "10.0.0.2/31".to_string(),
            "10.0.0.4/30".to_string(),
            "10.0.0.8/32".to_string(),
        ]
    );
}

#[test]
fn blocks_tile_the_range_exactly() {
    // spans of consecutive blocks abut, start at the range start, end at
    // the range end, and every address is aligned to its block size
    let cases: [(u32, u32); 5] = [
        (0x01010101, 0x02020202),
        (3, 17),
        (0, 255),
        (0xFFFF_FF00, 0xFFFF_FFFF),
        (12345, 12345),
    ];
    for (s, e) in cases {
        let blocks = range_to_blocks(s, e);
        assert!(!blocks.is_empty());
        let mut cursor = s as u64;
        for b in &blocks {
            let size = 1u64 << (32 - b.prefix as u32);
            assert_eq!(b.addr as u64, cursor);
            assert_eq!(b.addr as u64 % size, 0, "address aligned to block size");
            cursor += size;
        }
        assert_eq!(cursor, e as u64 + 1);
    }
}

#[test]
fn cidr_entries_pass_through_byte_identical() {
    let conv = CidrConverter::new();
    let input = vec![
        "5.44.16.0/21".to_string(),
        "185.71.76.0/22".to_string(),
        "not-even-checked/99".to_string(),
    ];
    let out = conv.convert_subnets(&input);
    assert_eq!(out, input);
}

#[test]
fn malformed_entries_yield_nothing_and_no_error() {
    let conv = CidrConverter::new();
    let out = conv.convert_subnets(&["abc-def".to_string()]);
    assert!(out.is_empty());
    let out = conv.convert_subnets(&["1.1.1.1-2.2.2.2-3.3.3.3".to_string()]);
    assert!(out.is_empty());
    let out = conv.convert_subnets(&["no separators at all".to_string()]);
    assert!(out.is_empty());
}

#[test]
fn mixed_entries_keep_their_order() {
    let conv = CidrConverter::new();
    let input = vec![
        "1.2.3.0/24".to_string(),
        "10.0.0.0-10.0.0.3".to_string(),
        "junk".to_string(),
        "9.9.9.9-9.9.9.9".to_string(),
    ];
    let out = conv.convert_subnets(&input);
    assert_eq!(
        out,
        vec![
            "1.2.3.0/24".to_string(),
            "10.0.0.0/30".to_string(),
            "9.9.9.9/32".to_string(),
        ]
    );
}

#[test]
fn unparsable_range_bound_is_a_parse_error() {
    let conv = CidrConverter::new();
    assert_eq!(
        conv.range_to_cidrs("abc", "def"),
        Err(SyncError::ParseError)
    );
    assert_eq!(
        conv.range_to_cidrs("1.1.1.1", "1.1.1"),
        Err(SyncError::ParseError)
    );
}

#[test]
fn parser_accepts_only_canonical_quads() {
    assert_eq!(parse_ipv4("192.168.1.1"), Some(0xC0A80101));
    assert_eq!(parse_ipv4("0.0.0.0"), Some(0));
    assert_eq!(parse_ipv4("255.255.255.255"), Some(u32::MAX));
    assert_eq!(parse_ipv4("01.2.3.4"), None);
    assert_eq!(parse_ipv4("256.1.1.1"), None);
    assert_eq!(parse_ipv4("1.2.3"), None);
    assert_eq!(parse_ipv4("1.2.3.4.5"), None);
    assert_eq!(parse_ipv4("1.2.3.4x"), None);
    assert_eq!(parse_ipv4(""), None);
    assert_eq!(parse_ipv4("1..2.3"), None);
}

#[test]
fn reversed_range_yields_nothing() {
    let conv = CidrConverter::new();
    let r = conv.range_to_cidrs("2.2.2.2", "1.1.1.1").unwrap();
    assert!(r.is_empty());
}

#[test]
fn top_of_address_space_ranges() {
    let conv = CidrConverter::new();
    let r = conv
        .range_to_cidrs("255.255.255.254", "255.255.255.255")
        .unwrap();
    assert_eq!(r, vec!["255.255.255.254/31".to_string()]);
    let r = conv
        .range_to_cidrs("255.255.255.255", "255.255.255.255")
        .unwrap();
    assert_eq!(r, vec!["255.255.255.255/32".to_string()]);
    let r = conv.range_to_cidrs("0.0.0.0", "255.255.255.255").unwrap();
    assert_eq!(r, vec!["0.0.0.0/0".to_string()]);
}

#[test]
fn formatting_is_dotted_decimal_with_prefix() {
    let b = CidrBlock {
        addr: 0xC0A80100,
        prefix: 24,
    };
    assert_eq!(format_block(b), "192.168.1.0/24");
    let b = CidrBlock { addr: 0, prefix: 0 };
    assert_eq!(format_block(b), "0.0.0.0/0");
    let b = CidrBlock {
        addr: u32::MAX,
        prefix: 32,
    };
    assert_eq!(format_block(b), "255.255.255.255/32");
}
