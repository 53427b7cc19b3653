use cachecache::{
    format_line, read, simulate, CacheDesc, InvalidArgumentsError, ParseStrategyError, ReadError,
    Strategy,
};

#[test]
fn lines_of_a_run() {
    let d = CacheDesc::new(8, 2, 4, 2, Strategy::LRU);
    let (lines, _) = simulate(&d, &vec![0x00, 0x10, 0x20]);
    assert_eq!(format_line(&d, 0, &lines[0]), "0 | 0 (0) | 4 (2)");
    assert_eq!(format_line(&d, 1, &lines[1]), "0 | 2 (1)");
    assert_eq!(format_line(&d, 2, &lines[2]), "1 | -");
    assert_eq!(format_line(&d, 3, &lines[3]), "1 | -");
}

#[test]
fn tags_are_hexadecimal() {
    let d = CacheDesc::new(32, 0, 24, 2, Strategy::First);
    let addrs: Vec<u64> = (0..12).map(|i| 0xabc00 * 16 + i * 8).collect();
    let (lines, _) = simulate(&d, &addrs);
    // idx_bits is 3, so every address lands in set 0 with tag 0x157800 + i
    assert_eq!(format_line(&d, 0, &lines[0])[..20].to_string(), "0 | 157800 (0) | 157".to_string());
    assert_eq!(format_line(&d, 23, &lines[23]), "11 | -");
}

#[test]
fn summary_line() {
    let (d, addrs) = read("8\n2\n4\n2\nLRU\n00\n10\n00\n20\n").unwrap();
    let (_, stats) = simulate(&d, &addrs);
    assert_eq!(stats.summary(addrs.len() as u64), "Hits: 1/4. Misses: 3/4. Evictions: 1/4.");
}

#[test]
fn messages() {
    assert_eq!(ReadError::FileTooShort.message(), "Missing parameters.");
    assert_eq!(ReadError::InvalidStrategy.message(), "Invalid strategy");
    assert_eq!(ReadError::InvalidInteger.message(), "Invalid integer parameter.");
    assert_eq!(ParseStrategyError.message(), "Invalid strategy");
    assert_eq!(InvalidArgumentsError.message(), "Usage: cachecache <path-to-test>");
}
