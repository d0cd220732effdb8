use atproxy::addr::{Ipv4Addr, Ipv6Addr, SocketAddr, SocketAddrV4, SocketAddrV6};
use atproxy::resolve::{
    any_ipv6, is_package, lookup_text, parse_uid_from_output, pick_ipv4, resolve_proxy_addr,
    resolve_target, resolve_uid, target_error, uids_of_target, PmOutput, ProxyResolveError,
    TargetError,
};

#[test]
fn test_parse_uid_exact_match() {
    let out = "package:com.example.app uid:10188\npackage:com.other.app uid:10200\n";
    assert_eq!(parse_uid_from_output("com.example.app", out), Some(10188));
    assert_eq!(parse_uid_from_output("com.other.app", out), Some(10200));
}

#[test]
fn test_parse_uid_no_substring_false_positive() {
    let out = "package:com.example.app uid:10188\npackage:com.example.app.debug uid:10200\n";
    assert_eq!(parse_uid_from_output("com.example.app", out), Some(10188));
    assert_eq!(
        parse_uid_from_output("com.example.app.debug", out),
        Some(10200)
    );
}

#[test]
fn test_parse_uid_not_found() {
    let out = "package:com.example.app uid:10188\n";
    assert_eq!(parse_uid_from_output("com.nonexistent", out), None);
}

#[test]
fn test_parse_uid_multi_uid_field() {
    let out = "package:com.grabtaxi.passenger uid:10302,1010302\n";
    assert_eq!(
        parse_uid_from_output("com.grabtaxi.passenger", out),
        Some(10302)
    );
}

#[test]
fn test_parse_uid_partial_name_no_match() {
    let out = "package:com.example.app uid:10188\npackage:com.other.app uid:10200\n";
    assert_eq!(parse_uid_from_output("com.app", out), None);
    assert_eq!(parse_uid_from_output("com.other", out), None);
}

#[test]
fn test_resolve_target_single_uid() {
    assert_eq!(resolve_target("10188", &PmOutput::NotRun), Some(vec![10188]));
}

#[test]
fn test_resolve_target_comma_uids() {
    assert_eq!(
        resolve_target("10188,10200,10300", &PmOutput::NotRun),
        Some(vec![10188, 10200, 10300])
    );
}

#[test]
fn test_resolve_target_comma_uids_with_spaces() {
    assert_eq!(
        resolve_target("10188, 10200 , 10300", &PmOutput::NotRun),
        Some(vec![10188, 10200, 10300])
    );
}

#[test]
fn test_resolve_target_bad_uid() {
    assert_eq!(resolve_target("abc", &PmOutput::NotRun), None);
}

#[test]
fn test_resolve_target_bad_comma_mixed() {
    assert_eq!(resolve_target("10188,abc,10300", &PmOutput::NotRun), None);
}

#[test]
fn test_resolve_target_empty_comma_part() {
    assert_eq!(resolve_target("10188,,10300", &PmOutput::NotRun), None);
}

fn v4(a: u8, b: u8, c: u8, d: u8, p: u16) -> SocketAddr {
    SocketAddr::V4(SocketAddrV4::new(Ipv4Addr::new(a, b, c, d), p))
}

fn v6(p: u16) -> SocketAddr {
    let mut octets = [0u8; 16];
    octets[15] = 1;
    SocketAddr::V6(SocketAddrV6 { ip: Ipv6Addr { octets }, port: p })
}

#[test]
fn test_pick_ipv4_only_ipv4() {
    let addrs = vec![v4(10, 0, 0, 1, 8080)];
    let got = pick_ipv4(addrs).unwrap();
    assert_eq!(got.ip(), &Ipv4Addr::new(10, 0, 0, 1));
    assert_eq!(got.port(), 8080);
}

#[test]
fn test_pick_ipv4_skips_v6_then_picks_v4() {
    let addrs = vec![v6(8080), v6(8080), v4(10, 0, 0, 1, 8080)];
    let got = pick_ipv4(addrs).unwrap();
    assert_eq!(got.ip(), &Ipv4Addr::new(10, 0, 0, 1));
}

#[test]
fn test_pick_ipv4_picks_first_v4_when_multiple() {
    let addrs = vec![v4(10, 0, 0, 1, 8080), v4(192, 168, 0, 1, 8080)];
    let got = pick_ipv4(addrs).unwrap();
    assert_eq!(got.ip(), &Ipv4Addr::new(10, 0, 0, 1));
}

#[test]
fn test_pick_ipv4_only_v6_returns_none() {
    let addrs = vec![v6(8080), v6(8080)];
    assert!(pick_ipv4(addrs).is_none());
}

#[test]
fn test_pick_ipv4_empty() {
    assert!(pick_ipv4(vec![]).is_none());
}

#[test]
fn test_any_ipv6_detects_v6() {
    assert!(any_ipv6(vec![v4(1, 2, 3, 4, 80), v6(80)]));
    assert!(!any_ipv6(vec![v4(1, 2, 3, 4, 80)]));
    assert!(!any_ipv6(vec![]));
}

#[test]
fn proxy_address_is_the_first_ipv4_result() {
    let got = resolve_proxy_addr(Ok(vec![v6(8080), v4(127, 0, 0, 1, 8080)])).unwrap();
    assert_eq!(got.ip(), &Ipv4Addr::new(127, 0, 0, 1));
    assert_eq!(got.port(), 8080);
    assert_eq!(lookup_text("proxy.example.com", 8080), "proxy.example.com:8080");
}

#[test]
fn proxy_without_ipv4_is_refused() {
    let err = resolve_proxy_addr(Ok(vec![v6(8080)])).unwrap_err();
    assert!(matches!(err, ProxyResolveError::NoIpv4));
    assert_eq!(
        err.message(),
        "no IPv4 address resolved (hostnames that resolve to IPv6-only are not supported)"
    );
    assert!(matches!(resolve_proxy_addr(Ok(vec![])), Err(ProxyResolveError::NoIpv4)));
}

#[test]
fn failed_lookup_is_reported() {
    let err = resolve_proxy_addr(Err("no such host".to_string())).unwrap_err();
    assert!(matches!(err, ProxyResolveError::Resolve(_)));
    assert_eq!(err.message(), "DNS resolution failed: no such host");
}

fn ran(success: bool, stdout: &[u8]) -> PmOutput {
    PmOutput::Exited { success, stdout: stdout.to_vec() }
}

#[test]
fn package_is_resolved_through_the_package_manager() {
    let pm = ran(true, b"package:com.example.app uid:10188\n");
    assert_eq!(resolve_uid("com.example.app", &pm), Some(10188));
    assert_eq!(resolve_target("com.example.app", &pm), Some(vec![10188]));
    assert_eq!(resolve_target("com.example", &pm), None);
    let pm = ran(false, b"package:com.example.app uid:10188\n");
    assert_eq!(resolve_uid("com.example.app", &pm), None);
    assert_eq!(resolve_target("com.example.app", &PmOutput::NotRun), None);
}

#[test]
fn package_list_may_hold_bytes_that_are_not_text() {
    let pm = ran(true, b"\xff\xff\npackage:a.b uid:7\n");
    assert_eq!(resolve_uid("a.b", &pm), Some(7));
    let pm = ran(true, b"package:a.\xff uid:7\n");
    assert_eq!(resolve_uid("a.\u{fffd}", &pm), Some(7));
}

#[test]
fn package_lines_without_a_user_id_are_passed_over() {
    let out = "junk\npackage:a.b\npackage:a.b gid:1\npackage:a.b uid:x\n\
               package:a.b  uid:4\npackage:a.b uid: 5 \r\npackage:a.b uid:6\n";
    assert_eq!(parse_uid_from_output("a.b", out), Some(5));
    assert_eq!(parse_uid_from_output("a.b", "package:a.b uid:1 ,2"), None);
    assert_eq!(parse_uid_from_output("a.b", "package:a.b uid:4294967295"), Some(u32::MAX));
    assert_eq!(parse_uid_from_output("a.b", "package:a.b uid:4294967296"), None);
    assert_eq!(parse_uid_from_output("a.b", " package:a.b uid:1"), None);
    assert_eq!(parse_uid_from_output("a.b", ""), None);
}

#[test]
fn only_packages_need_the_package_manager() {
    let pm = ran(true, b"package:a.b uid:7\n");
    for target in ["10188", "1,2", "", ",", "abc", " 5", "4294967296"] {
        assert!(!is_package(target));
        assert_eq!(resolve_target(target, &pm), resolve_target(target, &PmOutput::NotRun));
        assert_eq!(uids_of_target(target, Some(7)), uids_of_target(target, None));
    }
    assert!(is_package("a.b"));
    assert_eq!(uids_of_target("a.b", Some(7)), Some(vec![7]));
    assert_eq!(uids_of_target("a.b", None), None);
    // A dot decides before a comma.
    assert_eq!(resolve_target("1.5,2", &pm), None);
}

#[test]
fn single_user_id_takes_no_space_around_it() {
    assert_eq!(resolve_target(" 5", &PmOutput::NotRun), None);
    assert_eq!(resolve_target("+5", &PmOutput::NotRun), Some(vec![5]));
    assert_eq!(resolve_target("4294967295", &PmOutput::NotRun), Some(vec![u32::MAX]));
    assert_eq!(resolve_target("4294967296", &PmOutput::NotRun), None);
    assert_eq!(resolve_target("", &PmOutput::NotRun), None);
    assert_eq!(resolve_target(",", &PmOutput::NotRun), None);
    assert_eq!(resolve_target("7,7", &PmOutput::NotRun), Some(vec![7, 7]));
}

#[test]
fn every_problem_of_a_target_is_named() {
    let pm = ran(true, b"package:a.b uid:7\n");
    let cases = vec![
        (target_error("a.b", &PmOutput::NotRun), TargetError::PmNotRun),
        (target_error("a.b", &ran(false, b"")), TargetError::PmFailed),
        (target_error("a.c", &pm), TargetError::PackageNotFound),
        (target_error("1, ,x", &pm), TargetError::EmptyPart),
        (target_error("1, x ,", &pm), TargetError::BadPart("x".to_string())),
        (target_error("abc", &pm), TargetError::BadTarget),
    ];
    let messages = [
        "failed to execute `pm list packages -U`",
        "`pm list packages -U` exited with error",
        "package not found in `pm list packages -U` output",
        "empty UID in comma-separated list",
        "invalid UID in comma-separated list",
        "target is not a valid UID or package name",
    ];
    for ((got, expected), message) in cases.into_iter().zip(messages) {
        assert_eq!(expected.message(), message);
        assert_eq!(got, Some(expected));
    }
}

#[test]
fn a_target_has_a_problem_exactly_where_it_is_not_resolved() {
    let pm = ran(true, b"package:a.b uid:7\n");
    for target in ["a.b", "a.c", "1", "1,2", "1,", "", ",", "x", "1,x", " 1", "4294967296"] {
        assert_eq!(target_error(target, &pm).is_none(), resolve_target(target, &pm).is_some());
    }
}
