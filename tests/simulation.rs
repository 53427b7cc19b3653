use cachecache::{simulate, CacheDesc, CacheEntry, CacheStats, Strategy};

fn stats_of(s: &CacheStats) -> (u64, u64, u64) {
    (s.hits(), s.misses(), s.evictions())
}

fn tags(line: &[CacheEntry]) -> Vec<u64> {
    line.iter().map(|e| e.tag()).collect()
}

#[test]
fn derived_widths() {
    let d = CacheDesc::new(8, 2, 4, 2, Strategy::LRU);
    assert_eq!(d.n_sets(), 2);
    assert_eq!(d.idx_bits(), 1);
    assert_eq!(d.tag_bits(), 5);
    let d = CacheDesc::new(32, 4, 16, 4, Strategy::LFU);
    assert_eq!(d.n_sets(), 4);
    assert_eq!(d.idx_bits(), 2);
    assert_eq!(d.tag_bits(), 26);
    // n_sets that is no power of two: floor of log2
    let d = CacheDesc::new(16, 0, 6, 1, Strategy::First);
    assert_eq!(d.idx_bits(), 2);
    assert_eq!(d.tag_bits(), 14);
}

#[test]
fn address_split() {
    let d = CacheDesc::new(8, 2, 4, 2, Strategy::LRU);
    assert_eq!(d.set_index(0x14), 1);
    assert_eq!(d.addr_tag(0x14), 2);
    // bits above addr_size are not part of the tag
    assert_eq!(d.addr_tag(0x1f8), 0x1f);
    let wide = CacheDesc::new(64, 0, 1, 1, Strategy::First);
    assert_eq!(wide.addr_tag(u64::MAX), u64::MAX);
    assert_eq!(wide.set_index(u64::MAX), 0);
}

#[test]
fn validity() {
    assert!(CacheDesc::new(8, 2, 4, 1, Strategy::First).is_valid());
    assert!(!CacheDesc::new(8, 2, 4, 0, Strategy::First).is_valid());
    assert!(!CacheDesc::new(8, 2, 5, 2, Strategy::LRU).is_valid());
    assert!(!CacheDesc::new(8, 2, 2, 4, Strategy::LRU).is_valid());
    // offset and index need 2 + 3 bits, more than 4
    assert!(!CacheDesc::new(4, 2, 8, 1, Strategy::LRU).is_valid());
    assert!(CacheDesc::new(5, 2, 8, 1, Strategy::LRU).is_valid());
}

#[test]
fn direct_mapped_four_sets() {
    let d = CacheDesc::new(8, 2, 4, 1, Strategy::First);
    let (lines, stats) = simulate(&d, &vec![0x00, 0x04, 0x08, 0x0c]);
    assert_eq!(stats_of(&stats), (0, 4, 0));
    for line in &lines {
        assert_eq!(line.len(), 1);
    }
}

#[test]
fn direct_mapped_repeat_hits() {
    // the fourth address is the first one again: same set, same tag
    let d = CacheDesc::new(8, 2, 4, 1, Strategy::First);
    let (lines, stats) = simulate(&d, &vec![0x00, 0x04, 0x08, 0x00]);
    assert_eq!(stats_of(&stats), (1, 3, 0));
    assert_eq!(lines[0].len(), 1);
    assert_eq!(lines[0][0].count_used(), 2);
    assert_eq!(lines[0][0].last_used(), 3);
    assert_eq!(lines[3].len(), 0);
}

#[test]
fn lru_one_set_evicts_oldest() {
    let d = CacheDesc::new(8, 2, 4, 2, Strategy::LRU);
    let (lines, stats) = simulate(&d, &vec![0x00, 0x10, 0x20]);
    assert_eq!(stats_of(&stats), (0, 3, 1));
    assert_eq!(tags(&lines[0]), vec![0, 4]);
    assert_eq!(lines[0][1].entered(), 2);
    assert_eq!(tags(&lines[1]), vec![2]);
    assert!(lines[2].is_empty() && lines[3].is_empty());
}

#[test]
fn lru_hit_moves_minimum() {
    let d = CacheDesc::new(8, 2, 4, 2, Strategy::LRU);
    let (lines, stats) = simulate(&d, &vec![0x00, 0x10, 0x00, 0x20]);
    assert_eq!(stats_of(&stats), (1, 3, 1));
    assert_eq!(tags(&lines[0]), vec![0]);
    assert_eq!(lines[0][0].last_used(), 2);
    assert_eq!(tags(&lines[1]), vec![2, 4]);
}

#[test]
fn lru_tie_goes_to_first_line() {
    // addr_size 8 with one set of four lines
    let d = CacheDesc::new(8, 0, 4, 4, Strategy::LRU);
    let (lines, stats) = simulate(&d, &vec![1, 2, 3, 4, 5, 6]);
    assert_eq!(stats_of(&stats), (0, 6, 2));
    assert_eq!(tags(&lines[0]), vec![1, 5]);
    assert_eq!(tags(&lines[1]), vec![2, 6]);
    assert_eq!(tags(&lines[2]), vec![3]);
}

#[test]
fn lfu_evicts_least_used() {
    let d = CacheDesc::new(8, 2, 4, 2, Strategy::LFU);
    let (lines, stats) = simulate(&d, &vec![0x00, 0x00, 0x10, 0x20]);
    assert_eq!(stats_of(&stats), (1, 3, 1));
    assert_eq!(tags(&lines[0]), vec![0]);
    assert_eq!(lines[0][0].count_used(), 2);
    assert_eq!(tags(&lines[1]), vec![2, 4]);
    assert_eq!(lines[1][1].count_used(), 1);
}

#[test]
fn lfu_counts_grow_only_on_hits() {
    let d = CacheDesc::new(8, 0, 2, 2, Strategy::LFU);
    let (lines, _) = simulate(&d, &vec![7, 7, 8, 7, 8, 8, 8]);
    assert_eq!(lines[0][0].count_used(), 3);
    assert_eq!(lines[1][0].count_used(), 4);
    assert_eq!(lines[0][0].entered(), 0);
    assert_eq!(lines[1][0].entered(), 2);
}

#[test]
fn lfu_tie_goes_to_first_line() {
    let d = CacheDesc::new(8, 0, 2, 2, Strategy::LFU);
    let (lines, stats) = simulate(&d, &vec![1, 2, 3]);
    assert_eq!(stats_of(&stats), (0, 3, 1));
    assert_eq!(tags(&lines[0]), vec![1, 3]);
}

#[test]
fn first_refills_way_zero() {
    // under First the second way of a set is never used
    let d = CacheDesc::new(8, 2, 4, 2, Strategy::First);
    let (lines, stats) = simulate(&d, &vec![0x00, 0x10]);
    assert_eq!(stats_of(&stats), (0, 2, 1));
    assert_eq!(tags(&lines[0]), vec![0, 2]);
    assert!(lines[1].is_empty());
}

#[test]
fn direct_mapped_conflicts() {
    let d = CacheDesc::new(8, 2, 4, 1, Strategy::LRU);
    assert_eq!(d.n_sets(), 4);
    let (lines, stats) = simulate(&d, &vec![0x04, 0x14, 0x24, 0x14]);
    assert_eq!(stats_of(&stats), (0, 4, 3));
    assert_eq!(tags(&lines[1]), vec![0, 1, 2, 1]);
    assert!(lines[0].is_empty() && lines[2].is_empty() && lines[3].is_empty());
}

#[test]
fn counts_add_up() {
    let d = CacheDesc::new(16, 1, 8, 2, Strategy::LRU);
    let addrs: Vec<u64> = (0..200u64).map(|i| (i * 37) % 300).collect();
    let (_, stats) = simulate(&d, &addrs);
    assert_eq!(stats.hits() + stats.misses(), 200);
    assert!(stats.evictions() <= stats.misses());
}

#[test]
fn no_evictions_with_room_left() {
    let d = CacheDesc::new(8, 0, 8, 4, Strategy::LFU);
    let (lines, stats) = simulate(&d, &vec![0, 2, 4, 0, 1, 3]);
    assert_eq!(stats.evictions(), 0);
    assert_eq!(stats_of(&stats), (1, 5, 0));
    assert!(lines[3].is_empty() && lines[7].is_empty());
}

#[test]
fn replay_is_deterministic() {
    let d = CacheDesc::new(12, 2, 8, 4, Strategy::LRU);
    let addrs: Vec<u64> = vec![0x100, 0x200, 0x104, 0x300, 0x100, 0x400, 0x500, 0x208];
    let (l1, s1) = simulate(&d, &addrs);
    let (l2, s2) = simulate(&d, &addrs);
    assert_eq!(l1, l2);
    assert_eq!(s1, s2);
}

#[test]
fn empty_trace() {
    let d = CacheDesc::new(8, 2, 4, 2, Strategy::LRU);
    let (lines, stats) = simulate(&d, &vec![]);
    assert_eq!(lines.len(), 4);
    assert!(lines.iter().all(|l| l.is_empty()));
    assert_eq!(stats_of(&stats), (0, 0, 0));
}
