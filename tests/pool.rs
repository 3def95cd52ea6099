use edge_scan::address::Ipv4;
use edge_scan::expand::expand_blocks;
use edge_scan::filter::filter_ips_by_prefix;
use edge_scan::sample::{pick, sample_pool};
use edge_scan::source::{expand_and_filter, join_messages, pool_from_directory, Directory, RangeError};

#[test]
fn test_expand_cidrs_to_ips() {
    let cidrs = vec!["173.245.48.0/20".to_string(), "104.24.0.0/14".to_string()];
    let expanded = expand_blocks(&cidrs).unwrap();

    assert_eq!(expanded.len(), 262144 + 4096);
}

#[test]
fn test_filter_ips_by_prefix() {
    let ips = vec![Ipv4::new(192, 0, 2, 1), Ipv4::new(198, 51, 100, 1), Ipv4::new(203, 0, 113, 1)];
    let skip_prefixes = vec!["198.51".to_string(), "203".to_string()];
    let filtered = filter_ips_by_prefix(ips, &skip_prefixes);

    assert_eq!(filtered.len(), 1);
    assert_eq!(filtered[0], Ipv4::new(192, 0, 2, 1));
}

#[test]
fn block_expands_from_network_to_broadcast() {
    let v = expand_blocks(&vec!["10.0.0.7/30".to_string()]).unwrap();
    assert_eq!(
        v,
        vec![Ipv4::new(10, 0, 0, 4), Ipv4::new(10, 0, 0, 5), Ipv4::new(10, 0, 0, 6), Ipv4::new(10, 0, 0, 7)]
    );
    let one = expand_blocks(&vec!["198.51.100.9/32".to_string()]).unwrap();
    assert_eq!(one, vec![Ipv4::new(198, 51, 100, 9)]);
    let wide = expand_blocks(&vec!["10.1.9.32/16".to_string()]).unwrap();
    assert_eq!(wide.len(), 65536);
    assert_eq!(wide[0], Ipv4::new(10, 1, 0, 0));
    assert_eq!(wide[65535], Ipv4::new(10, 1, 255, 255));
}

#[test]
fn blocks_keep_their_order() {
    let v = expand_blocks(&vec!["10.0.0.8/31".to_string(), "10.0.0.0/31".to_string()]).unwrap();
    assert_eq!(
        v,
        vec![Ipv4::new(10, 0, 0, 8), Ipv4::new(10, 0, 0, 9), Ipv4::new(10, 0, 0, 0), Ipv4::new(10, 0, 0, 1)]
    );
}

#[test]
fn one_invalid_block_fails_the_batch() {
    let cidrs = vec!["10.0.0.0/30".to_string(), "bogus".to_string(), "10.0.1.0/30".to_string()];
    let e = expand_blocks(&cidrs).err().unwrap();
    assert_eq!(e.index, 1);
    assert_eq!(e.block, "bogus");
    let e = expand_blocks(&vec!["1.2.3.0/33".to_string()]).err().unwrap();
    assert_eq!(e.index, 0);
    let e = expand_blocks(&vec!["1.2.3.0/24".to_string(), "300.1.1.1/24".to_string()]).err().unwrap();
    assert_eq!(e.index, 1);
}

#[test]
fn empty_exclusion_list_keeps_everything_in_order() {
    let ips = vec![Ipv4::new(9, 9, 9, 9), Ipv4::new(1, 1, 1, 1), Ipv4::new(9, 9, 9, 9)];
    let out = filter_ips_by_prefix(ips.clone(), &[]);
    assert_eq!(out, ips);
}

#[test]
fn prefix_match_is_textual() {
    let ips = vec![Ipv4::new(1, 2, 3, 4), Ipv4::new(19, 0, 0, 1), Ipv4::new(21, 1, 1, 1), Ipv4::new(100, 0, 0, 1)];
    let out = filter_ips_by_prefix(ips, &["1".to_string()]);
    assert_eq!(out, vec![Ipv4::new(21, 1, 1, 1)]);
}

#[test]
fn dotted_text_is_canonical() {
    assert_eq!(Ipv4::new(192, 0, 2, 1).dotted_bytes(), b"192.0.2.1".to_vec());
    assert_eq!(Ipv4::new(0, 10, 255, 100).dotted_bytes(), b"0.10.255.100".to_vec());
    assert_eq!(Ipv4::new(172, 64, 0, 9).octets(), [172, 64, 0, 9]);
    assert_eq!(Ipv4::new(1, 0, 0, 0).bits, 16777216);
}

#[test]
fn sample_is_clamped_and_distinct() {
    let pool = expand_blocks(&vec!["198.51.100.0/28".to_string()]).unwrap();
    let s = sample_pool(&pool, 5, 7);
    assert_eq!(s.len(), 5);
    for (i, a) in s.iter().enumerate() {
        assert!(pool.contains(a));
        assert!(!s[i + 1..].contains(a));
    }
    let all = sample_pool(&pool, 100, 7);
    assert_eq!(all.len(), 16);
    let mut sorted: Vec<u32> = all.iter().map(|a| a.bits).collect();
    sorted.sort();
    sorted.dedup();
    assert_eq!(sorted.len(), 16);
    assert_eq!(sample_pool(&pool, 0, 1).len(), 0);
}

#[test]
fn seeded_sample_is_reproducible() {
    let pool = expand_blocks(&vec!["10.0.0.0/24".to_string()]).unwrap();
    assert_eq!(sample_pool(&pool, 10, 42), sample_pool(&pool, 10, 42));
}

#[test]
fn empty_pool_gives_empty_sample() {
    assert!(sample_pool(&Vec::new(), 10, 3).is_empty());
}

#[test]
fn pick_follows_the_indices() {
    let pool = vec![Ipv4::new(1, 1, 1, 1), Ipv4::new(2, 2, 2, 2), Ipv4::new(3, 3, 3, 3)];
    assert_eq!(pick(&pool, &vec![2, 0]), vec![Ipv4::new(3, 3, 3, 3), Ipv4::new(1, 1, 1, 1)]);
}

#[test]
fn messages_are_joined_with_comma_space() {
    assert_eq!(join_messages(&vec!["a".to_string(), "bc".to_string()]), "a, bc");
    assert_eq!(join_messages(&vec!["only".to_string()]), "only");
    assert_eq!(join_messages(&vec![]), "");
}

#[test]
fn failed_directory_reports_its_messages() {
    let d = Directory {
        success: false,
        ipv4_cidrs: vec!["10.0.0.0/30".to_string()],
        errors: vec!["rate limited".to_string(), "try later".to_string()],
    };
    match pool_from_directory(d, &[]) {
        Err(RangeError::Directory(m)) => assert_eq!(m, "rate limited, try later"),
        other => panic!("unexpected {:?}", other),
    }
}

#[test]
fn directory_pool_is_expanded_and_filtered() {
    let d = Directory {
        success: true,
        ipv4_cidrs: vec!["104.16.0.0/31".to_string(), "172.64.0.0/31".to_string()],
        errors: vec![],
    };
    let v = pool_from_directory(d, &["172".to_string()]).unwrap();
    assert_eq!(v, vec![Ipv4::new(104, 16, 0, 0), Ipv4::new(104, 16, 0, 1)]);
    let bad = Directory { success: true, ipv4_cidrs: vec!["x/1".to_string()], errors: vec![] };
    match pool_from_directory(bad, &[]) {
        Err(RangeError::Parse(e)) => assert_eq!(e.index, 0),
        other => panic!("unexpected {:?}", other),
    }
    assert_eq!(expand_and_filter(&vec![], &[]).unwrap(), vec![]);
}
