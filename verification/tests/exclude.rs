use atproxy::addr::{parse_ipv4, parse_ipv6, IpAddr};
use atproxy::exclude::{masked_eq, ExcludeList};

fn ip4(s: &str) -> IpAddr {
    IpAddr::V4(parse_ipv4(s).unwrap())
}

fn ip6(s: &str) -> IpAddr {
    IpAddr::V6(parse_ipv6(s).unwrap())
}

#[test]
fn parse_single_ipv4() {
    let l = ExcludeList::from_strs(&["1.2.3.4"]).unwrap();
    assert_eq!(l.len(), 1);
    assert!(l.contains(ip4("1.2.3.4")));
    assert!(!l.contains(ip4("1.2.3.5")));
}

#[test]
fn parse_ipv4_cidr() {
    let l = ExcludeList::from_strs(&["10.0.0.0/8"]).unwrap();
    assert!(l.contains(ip4("10.255.255.255")));
    assert!(l.contains(ip4("10.0.0.1")));
    assert!(!l.contains(ip4("11.0.0.0")));
    assert!(!l.contains(ip4("9.255.255.255")));
}

#[test]
fn parse_multiple_ipv4() {
    let l = ExcludeList::from_strs(&["1.1.1.1", "2.2.2.0/24"]).unwrap();
    assert_eq!(l.len(), 2);
    assert!(l.contains(ip4("1.1.1.1")));
    assert!(l.contains(ip4("2.2.2.100")));
    assert!(!l.contains(ip4("1.1.1.2")));
    assert!(!l.contains(ip4("2.2.3.0")));
}

#[test]
fn parse_invalid_ipv4() {
    assert!(ExcludeList::from_strs(&["not-an-ip"]).is_err());
    assert!(ExcludeList::from_strs(&["1.2.3"]).is_err());
    assert!(ExcludeList::from_strs(&["1.2.3.4.5"]).is_err());
    assert!(ExcludeList::from_strs(&["256.1.1.1"]).is_err());
}

#[test]
fn parse_invalid_cidr() {
    assert!(ExcludeList::from_strs(&["1.2.3.4/33"]).is_err());
    assert!(ExcludeList::from_strs(&["1.2.3.4/abc"]).is_err());
    assert!(ExcludeList::from_strs(&["1.2.3.4/"]).is_err());
    assert!(ExcludeList::from_strs(&["/8"]).is_err());
}

#[test]
fn parse_empty_strings_skipped() {
    let l = ExcludeList::from_strs(&["", "  ", "1.2.3.4"]).unwrap();
    assert_eq!(l.len(), 1);
}

#[test]
fn parse_empty_list() {
    let l = ExcludeList::from_strs(&[]).unwrap();
    assert!(l.is_empty());
    assert!(!l.contains(ip4("1.1.1.1")));
}

#[test]
fn first_invalid_returns_error() {
    let err = ExcludeList::from_strs(&["1.1.1.1", "garbage", "2.2.2.2"]).unwrap_err();
    assert!(err.contains("garbage"));
}

#[test]
fn cidr_boundary_0_matches_all_ipv4() {
    let l = ExcludeList::from_strs(&["0.0.0.0/0"]).unwrap();
    assert!(l.contains(ip4("1.2.3.4")));
    assert!(l.contains(ip4("255.255.255.255")));
    assert!(l.contains(ip4("0.0.0.0")));
}

#[test]
fn cidr_boundary_32_matches_exact() {
    let l = ExcludeList::from_strs(&["1.2.3.4/32"]).unwrap();
    assert!(l.contains(ip4("1.2.3.4")));
    assert!(!l.contains(ip4("1.2.3.5")));
}

#[test]
fn cidr_normalizes_host_bits() {
    let l = ExcludeList::from_strs(&["10.0.0.5/24"]).unwrap();
    assert!(l.contains(ip4("10.0.0.0")));
    assert!(l.contains(ip4("10.0.0.255")));
    assert!(!l.contains(ip4("10.0.1.0")));
}

#[test]
fn parse_single_ipv6() {
    let l = ExcludeList::from_strs(&["::1"]).unwrap();
    assert_eq!(l.len(), 1);
    assert!(l.contains(ip6("::1")));
    assert!(!l.contains(ip6("::2")));
}

#[test]
fn parse_ipv6_cidr_128_default() {
    let l = ExcludeList::from_strs(&["2001:db8::1"]).unwrap();
    assert!(l.contains(ip6("2001:db8::1")));
    assert!(!l.contains(ip6("2001:db8::2")));
}

#[test]
fn parse_ipv6_cidr_64() {
    let l = ExcludeList::from_strs(&["2001:db8::/64"]).unwrap();
    assert!(l.contains(ip6("2001:db8::1")));
    assert!(l.contains(ip6("2001:db8:0:0:ffff:ffff:ffff:ffff")));
    assert!(!l.contains(ip6("2001:db8:0:1::1")));
}

#[test]
fn parse_ipv6_cidr_32() {
    let l = ExcludeList::from_strs(&["2001:db8::/32"]).unwrap();
    assert!(l.contains(ip6("2001:db8::1")));
    assert!(l.contains(ip6("2001:db8:ffff:ffff:ffff:ffff:ffff:ffff")));
    assert!(!l.contains(ip6("2001:db9::")));
}

#[test]
fn parse_ipv6_cidr_boundary_0_matches_all() {
    let l = ExcludeList::from_strs(&["::/0"]).unwrap();
    assert!(l.contains(ip6("::1")));
    assert!(l.contains(ip6("2001:db8::1")));
    assert!(l.contains(ip6("ff00::1")));
}

#[test]
fn parse_ipv6_cidr_boundary_128_matches_exact() {
    let l = ExcludeList::from_strs(&["::1/128"]).unwrap();
    assert!(l.contains(ip6("::1")));
    assert!(!l.contains(ip6("::2")));
}

#[test]
fn parse_ipv6_cidr_normalizes_host_bits() {
    let l = ExcludeList::from_strs(&["2001:db8::1/64"]).unwrap();
    assert!(l.contains(ip6("2001:db8::")));
    assert!(l.contains(ip6("2001:db8:0:0:ffff::")));
    assert!(!l.contains(ip6("2001:db8:0:1::")));
}

#[test]
fn parse_ipv6_cidr_non_byte_boundary() {
    // Four full octets and the upper half of the fifth.
    let l = ExcludeList::from_strs(&["2001:db8::/36"]).unwrap();
    assert!(l.contains(ip6("2001:db8::")));
    assert!(l.contains(ip6("2001:db8:0fff::")));
    assert!(!l.contains(ip6("2001:db8:1000::")));
    assert!(!l.contains(ip6("2001:db9::")));
    assert!(!l.contains(ip6("2001:dbf::")));
}

#[test]
fn parse_invalid_ipv6() {
    assert!(ExcludeList::from_strs(&["::g"]).is_err());
    assert!(ExcludeList::from_strs(&["2001:db8::/129"]).is_err());
    assert!(ExcludeList::from_strs(&["2001:db8::/abc"]).is_err());
    assert!(ExcludeList::from_strs(&["2001:db8::1/32/64"]).is_err());
}

#[test]
fn mixed_v4_v6_list() {
    let l = ExcludeList::from_strs(&["10.0.0.0/8", "::1", "2001:db8::/32"]).unwrap();
    assert_eq!(l.len(), 3);
    assert!(l.contains(ip4("10.1.2.3")));
    assert!(!l.contains(ip4("11.1.2.3")));
    assert!(l.contains(ip6("::1")));
    assert!(l.contains(ip6("2001:db8::abcd")));
    assert!(!l.contains(ip6("::2")));
    assert!(!l.contains(ip6("2001:db9::")));
}

#[test]
fn v4_does_not_match_v6_entries_and_vice_versa() {
    let l = ExcludeList::from_strs(&["10.0.0.0/8"]).unwrap();
    // An IPv4-mapped IPv6 address is an IPv6 address.
    assert!(!l.contains(ip6("::ffff:10.0.0.1")));
    assert!(!l.contains(ip6("::1")));

    let l = ExcludeList::from_strs(&["::1"]).unwrap();
    assert!(!l.contains(ip4("127.0.0.1")));
    assert!(!l.contains(ip4("0.0.0.1")));
}

#[test]
fn invalid_entry_is_quoted_without_the_space_around_it() {
    let err = ExcludeList::from_strs(&["  10.0.0.0/40 ", "garbage"]).unwrap_err();
    assert_eq!(err, "invalid IP address or CIDR: '10.0.0.0/40'");
}

#[test]
fn prefix_may_carry_a_plus_sign() {
    let l = ExcludeList::from_strs(&["10.0.0.0/+8", "2001:db8::/032"]).unwrap();
    assert!(l.contains(ip4("10.9.9.9")));
    assert!(l.contains(ip6("2001:db8:1::")));
    assert!(ExcludeList::from_strs(&["10.0.0.0/-8"]).is_err());
    assert!(ExcludeList::from_strs(&["10.0.0.0/256"]).is_err());
    assert!(ExcludeList::from_strs(&["10.0.0.0/ 8"]).is_err());
}

#[test]
fn every_ipv4_prefix_covers_its_range() {
    for p in 0u32..=32 {
        let entry = format!("172.16.85.170/{}", p);
        let l = ExcludeList::from_strs(&[entry.as_str()]).unwrap();
        let host = 172u32 << 24 | 16 << 16 | 85 << 8 | 170;
        for bit in 0u32..32 {
            let other = host ^ (1 << (31 - bit));
            let text = format!(
                "{}.{}.{}.{}",
                other >> 24,
                other >> 16 & 255,
                other >> 8 & 255,
                other & 255
            );
            // Only a difference within the prefix takes an address out of the range.
            assert_eq!(l.contains(ip4(&text)), bit >= p);
        }
    }
}

#[test]
fn every_ipv6_prefix_compares_its_bits() {
    let network = [0xa5u8; 16];
    for p in 0u8..=128 {
        assert!(masked_eq(&network, &network, p));
        for bit in 0usize..128 {
            let mut other = network;
            other[bit / 8] ^= 0x80 >> (bit % 8);
            assert_eq!(masked_eq(&other, &network, p), bit >= p as usize);
            assert_eq!(masked_eq(&network, &other, p), bit >= p as usize);
        }
    }
}

#[test]
fn shorter_prefix_holds_more() {
    let wide = ExcludeList::from_strs(&["10.20.0.0/12"]).unwrap();
    let narrow = ExcludeList::from_strs(&["10.20.0.0/20"]).unwrap();
    assert!(narrow.contains(ip4("10.20.15.255")));
    assert!(wide.contains(ip4("10.20.15.255")));
    assert!(!narrow.contains(ip4("10.20.16.0")));
    assert!(wide.contains(ip4("10.20.16.0")));
    let wide = ExcludeList::from_strs(&["fe80::/10"]).unwrap();
    let narrow = ExcludeList::from_strs(&["fe80::/64"]).unwrap();
    assert!(narrow.contains(ip6("fe80::1")));
    assert!(wide.contains(ip6("fe80::1")));
    assert!(!narrow.contains(ip6("fe80:0:0:1::1")));
    assert!(wide.contains(ip6("fe80:0:0:1::1")));
}

#[test]
fn joined_lists_cover_what_either_covers() {
    let a = ExcludeList::from_strs(&["10.0.0.0/8"]).unwrap();
    let b = ExcludeList::from_strs(&["::1", "192.168.0.0/16"]).unwrap();
    let both = ExcludeList::from_strs(&["10.0.0.0/8", "", "::1", "192.168.0.0/16"]).unwrap();
    assert_eq!(both.len(), a.len() + b.len());
    for ip in [ip4("10.1.1.1"), ip4("192.168.3.4"), ip4("8.8.8.8"), ip6("::1"), ip6("::2")] {
        assert_eq!(both.contains(ip), a.contains(ip) || b.contains(ip));
    }
}

#[test]
fn repeated_entries_count_each_time() {
    let l = ExcludeList::from_strs(&["10.0.0.0/8", "10.0.0.0/8"]).unwrap();
    assert_eq!(l.len(), 2);
    assert!(!l.is_empty());
}

#[test]
fn clone_holds_the_same_ranges() {
    let l = ExcludeList::from_strs(&["10.0.0.0/8", "::1"]).unwrap();
    let c = l.clone();
    assert_eq!(c.len(), 2);
    assert!(c.contains(ip4("10.1.1.1")));
    assert!(c.contains(ip6("::1")));
    assert!(!c.contains(ip4("11.1.1.1")));
}
