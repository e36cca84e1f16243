use cfst::candidates::{entry_from, parse_ip_content, push_entry, read_entry, ListEntry};
use cfst::net::{IpAddr, IpNetwork, Ipv4Addr, Ipv6Addr};

fn v4(a: u8, b: u8, c: u8, d: u8) -> Ipv4Addr {
    Ipv4Addr { bits: u32::from_be_bytes([a, b, c, d]) }
}

fn v6(high: u64, low: u64) -> Ipv6Addr {
    Ipv6Addr { bits: ((high as u128) << 64) | low as u128 }
}

#[test]
fn test_parse_ip_content_cidr() {
    let content = "173.245.48.0/20\n103.21.244.0/22\n";
    let (ipv4, ipv6) = parse_ip_content(content, 100);
    assert!(!ipv4.is_empty());
    assert!(ipv6.is_empty());
    // /20 has 4094 hosts, but we cap at 100
    assert_eq!(ipv4.len(), 100);
}

#[test]
fn test_parse_ip_content_individual() {
    let content = "1.2.3.4\n5.6.7.8\n";
    let (ipv4, ipv6) = parse_ip_content(content, 100);
    assert_eq!(ipv4.len(), 2);
    assert!(ipv4.contains(&v4(1, 2, 3, 4)));
    assert!(ipv4.contains(&v4(5, 6, 7, 8)));
    assert!(ipv6.is_empty());
}

#[test]
fn test_parse_ip_content_mixed() {
    let content = "1.2.3.4\n173.245.48.0/20\n";
    let (ipv4, ipv6) = parse_ip_content(content, 1024);
    // Individual IP should be first since it appears before CIDR
    assert!(ipv4.contains(&v4(1, 2, 3, 4)));
    assert_eq!(ipv4[0], v4(1, 2, 3, 4));
    assert!(ipv6.is_empty());
}

#[test]
fn test_parse_ip_content_comments_and_empty_lines() {
    let content = "# This is a comment\n\n1.2.3.4\n# another comment\n5.6.7.8\n";
    let (ipv4, _) = parse_ip_content(content, 100);
    assert_eq!(ipv4.len(), 2);
}

#[test]
fn test_parse_ip_content_ipv6() {
    let content = "2400:cb00::/32\n";
    let (ipv4, ipv6) = parse_ip_content(content, 100);
    assert!(ipv4.is_empty());
    assert_eq!(ipv6.len(), 100);
}

#[test]
fn hosts_leave_out_the_ends_of_a_block() {
    let (ipv4, _) = parse_ip_content("10.0.0.5/29\n", 100);
    let want: Vec<Ipv4Addr> = (1..7).map(|i| v4(10, 0, 0, i)).collect();
    assert_eq!(ipv4, want);
}

#[test]
fn hosts_of_the_smallest_blocks() {
    assert_eq!(parse_ip_content("10.0.0.1/31", 100).0, vec![v4(10, 0, 0, 0), v4(10, 0, 0, 1)]);
    assert_eq!(parse_ip_content("10.0.0.9/32", 100).0, vec![v4(10, 0, 0, 9)]);
    assert_eq!(parse_ip_content("10.0.0.9/30", 100).0, vec![v4(10, 0, 0, 9), v4(10, 0, 0, 10)]);
    assert_eq!(parse_ip_content("2001:db8::7/128", 100).1, vec![v6(0x2001_0db8_0000_0000, 7)]);
}

#[test]
fn hosts_of_the_largest_blocks() {
    assert_eq!(parse_ip_content("255.1.2.3/0", 2).0, vec![v4(0, 0, 0, 1), v4(0, 0, 0, 2)]);
    assert_eq!(parse_ip_content("2001:db8::7/0", 2).1, vec![v6(0, 0), v6(0, 1)]);
    let (ipv4, _) = parse_ip_content("255.255.255.255/28", 100);
    assert_eq!(ipv4.len(), 14);
    assert_eq!(ipv4[13], v4(255, 255, 255, 254));
}

#[test]
fn ipv6_blocks_start_at_their_first_address() {
    let (_, ipv6) = parse_ip_content("2400:cb00::/32\n", 3);
    let high = 0x2400_cb00_0000_0000;
    assert_eq!(ipv6, vec![v6(high, 0), v6(high, 1), v6(high, 2)]);
    assert_eq!(parse_ip_content("fd00::2/126", 9).1.len(), 4);
}

#[test]
fn candidates_are_counted_over_both_families() {
    let content = "10.0.0.0/30\n2001:db8::/126\n10.0.1.1\n";
    let (ipv4, ipv6) = parse_ip_content(content, 4);
    assert_eq!(ipv4, vec![v4(10, 0, 0, 1), v4(10, 0, 0, 2)]);
    assert_eq!(ipv6, vec![v6(0x2001_0db8_0000_0000, 0), v6(0x2001_0db8_0000_0000, 1)]);
    let (ipv4, ipv6) = parse_ip_content(content, 7);
    assert_eq!(ipv4.len(), 3);
    assert_eq!(ipv6.len(), 4);
}

#[test]
fn no_candidates_are_taken_where_none_are_asked_for() {
    let (ipv4, ipv6) = parse_ip_content("1.2.3.4\n10.0.0.0/8\n::1\n", 0);
    assert!(ipv4.is_empty());
    assert!(ipv6.is_empty());
}

#[test]
fn unreadable_lines_are_skipped() {
    let content = "not an address\r\n 1.2.3.4 \r\n1.2.3.4/33\n1.2.3\n\t::1\t\n#::2\n  # ::3\n::4";
    let (ipv4, ipv6) = parse_ip_content(content, 100);
    assert_eq!(ipv4, vec![v4(1, 2, 3, 4)]);
    assert_eq!(ipv6, vec![v6(0, 1), v6(0, 4)]);
}

#[test]
fn lists_can_be_joined() {
    let a = "1.1.1.1\n10.0.0.0/30";
    let b = "# more\n2.2.2.2\n::5";
    let (a4, a6) = parse_ip_content(a, 100);
    let (b4, b6) = parse_ip_content(b, 100);
    let (ipv4, ipv6) = parse_ip_content(&format!("{a}\n{b}"), 100);
    assert_eq!(ipv4, [a4, b4].concat());
    assert_eq!(ipv6, [a6, b6].concat());
}

#[test]
fn fewer_candidates_are_the_first_ones() {
    let content = "9.9.9.9\n10.0.0.0/29\n8.8.8.8\n";
    let (all, _) = parse_ip_content(content, 100);
    for n in 0..10 {
        let (some, _) = parse_ip_content(content, n);
        assert_eq!(some[..], all[..n.min(all.len())]);
    }
}

#[test]
fn texts_are_read_as_blocks_or_addresses() {
    assert_eq!(read_entry("10.1.2.3/8"), ListEntry::Network(IpNetwork::V4(v4(10, 1, 2, 3), 8)));
    assert_eq!(read_entry("::1/128"), ListEntry::Network(IpNetwork::V6(v6(0, 1), 128)));
    assert_eq!(read_entry("10.1.2.3"), ListEntry::Address(IpAddr::V4(v4(10, 1, 2, 3))));
    assert_eq!(read_entry("::ffff"), ListEntry::Address(IpAddr::V6(v6(0, 0xffff))));
    assert_eq!(read_entry("10.1.2.3/"), ListEntry::Unreadable);
    assert_eq!(read_entry(""), ListEntry::Unreadable);
}

#[test]
fn entries_go_to_the_list_of_their_family() {
    let mut ipv4 = vec![v4(1, 1, 1, 1)];
    let mut ipv6 = Vec::new();
    push_entry(&mut ipv4, &mut ipv6, ListEntry::Address(IpAddr::V6(v6(0, 9))), 5);
    push_entry(&mut ipv4, &mut ipv6, ListEntry::Network(IpNetwork::V4(v4(10, 0, 0, 0), 24)), 2);
    push_entry(&mut ipv4, &mut ipv6, ListEntry::Network(IpNetwork::V6(v6(0, 0), 127)), 7);
    push_entry(&mut ipv4, &mut ipv6, ListEntry::Address(IpAddr::V4(v4(2, 2, 2, 2))), 0);
    push_entry(&mut ipv4, &mut ipv6, ListEntry::Unreadable, 3);
    assert_eq!(ipv4, vec![v4(1, 1, 1, 1), v4(10, 0, 0, 1), v4(10, 0, 0, 2)]);
    assert_eq!(ipv6, vec![v6(0, 9), v6(0, 0), v6(0, 1)]);
}

#[test]
fn blocks_come_before_addresses() {
    let network = IpNetwork::V4(v4(10, 0, 0, 0), 8);
    let address = IpAddr::V6(v6(0, 1));
    assert_eq!(entry_from(Some(network), Some(address)), ListEntry::Network(network));
    assert_eq!(entry_from(Some(network), None), ListEntry::Network(network));
    assert_eq!(entry_from(None, Some(address)), ListEntry::Address(address));
    assert_eq!(entry_from(None, None), ListEntry::Unreadable);
}

#[test]
fn white_space_around_lines_changes_nothing() {
    let plain = "1.1.1.1\n10.0.0.0/30\nnonsense\n::1\n";
    let padded = "\u{a0}1.1.1.1 \r\n\t10.0.0.0/30\u{2003}\r\n nonsense \n\u{b}::1\u{3000}\n  \n";
    assert_eq!(parse_ip_content(padded, 100), parse_ip_content(plain, 100));
    let readable = "1.1.1.1\n10.0.0.0/30\n::1\n";
    assert_eq!(parse_ip_content(plain, 100), parse_ip_content(readable, 100));
}
