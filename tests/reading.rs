use cachecache::{read, CacheDesc, ReadError, Strategy};

#[test]
fn reads_header_and_addresses() {
    let (d, addrs) = read("8\n2\n4\n1\nFirst\n00\n04\n08\n0c\n").unwrap();
    assert_eq!(d, CacheDesc::new(8, 2, 4, 1, Strategy::First));
    assert_eq!(addrs, vec![0x00, 0x04, 0x08, 0x0c]);
}

#[test]
fn skips_lines_that_are_no_address() {
    let (d, addrs) = read("32\n4\n16\n4\nLRU\nff\nzz\n\n# note\n  \nAbC\n+10\n").unwrap();
    assert_eq!(d.strat, Strategy::LRU);
    assert_eq!(addrs, vec![0xff, 0xabc, 0x10]);
}

#[test]
fn address_limits() {
    let (_, addrs) = read("64\n0\n1\n1\nLFU\nffffffffffffffff\n10000000000000000\n0000000000000000001\n").unwrap();
    assert_eq!(addrs, vec![u64::MAX, 1]);
}

#[test]
fn crlf_and_blank_header_lines() {
    let (d, addrs) = read("\r\n8\r\n\n2\r\n4\r\n2\r\nLFU\r\n1c\r\n").unwrap();
    assert_eq!(d, CacheDesc::new(8, 2, 4, 2, Strategy::LFU));
    assert_eq!(addrs, vec![0x1c]);
}

#[test]
fn last_line_without_newline() {
    let (_, addrs) = read("8\n2\n4\n2\nLRU\n3").unwrap();
    assert_eq!(addrs, vec![3]);
}

#[test]
fn too_short() {
    assert_eq!(read(""), Err(ReadError::FileTooShort));
    assert_eq!(read("8\n2\n4\n"), Err(ReadError::FileTooShort));
    assert_eq!(read("8\n2\n4\n1\n"), Err(ReadError::FileTooShort));
}

#[test]
fn bad_integer() {
    assert_eq!(read("8\nx\n4\n1\nLRU\n"), Err(ReadError::InvalidInteger));
    assert_eq!(read("8\n-2\n4\n1\nLRU\n"), Err(ReadError::InvalidInteger));
    assert_eq!(read("8\n2 \n4\n1\nLRU\n"), Err(ReadError::InvalidInteger));
    assert_eq!(read("18446744073709551616\n2\n4\n1\nLRU\n"), Err(ReadError::InvalidInteger));
    assert_eq!(read("+\n2\n4\n1\nLRU\n"), Err(ReadError::InvalidInteger));
    // a bad parameter is reported before a missing one
    assert_eq!(read("8\nx\n"), Err(ReadError::InvalidInteger));
}

#[test]
fn integer_forms() {
    let (d, _) = read("+8\n02\n4\n1\nFirst\n").unwrap();
    assert_eq!(d, CacheDesc::new(8, 2, 4, 1, Strategy::First));
    let (d, _) = read("18446744073709551615\n0\n1\n1\nFirst\n").unwrap();
    assert_eq!(d.addr_size, u64::MAX);
}

#[test]
fn bad_strategy() {
    assert_eq!(read("8\n2\n4\n1\nlru\n00\n"), Err(ReadError::InvalidStrategy));
    assert_eq!(read("8\n2\n4\n1\nFirst \n"), Err(ReadError::InvalidStrategy));
}

#[test]
fn strategy_names() {
    assert_eq!(Strategy::from_str("LRU"), Ok(Strategy::LRU));
    assert_eq!(Strategy::from_str("LFU"), Ok(Strategy::LFU));
    assert_eq!(Strategy::from_str("First"), Ok(Strategy::First));
    assert!(Strategy::from_str("first").is_err());
    assert!(Strategy::from_str("").is_err());
    assert!(Strategy::from_str("LRUX").is_err());
}
