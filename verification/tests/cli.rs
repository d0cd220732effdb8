use atproxy::addr::{parse_ipv4, parse_ipv6, IpAddr};
use atproxy::cli::{
    after_apply, asks_package_manager, default_filter, listen_addrs, plan, proxy_literal,
    resolve_args, rule_tables, usage_reason, AfterApply, Cli, Startup,
};
use atproxy::iptables::Iptables;
use atproxy::resolve::{PmOutput, TargetError};

const UID_TEST: u32 = 10000;

fn cli(target: Option<&str>, proxy: Option<&str>) -> Cli {
    Cli {
        target: target.map(String::from),
        proxy: proxy.map(String::from),
        port: 5280,
        verbose: false,
        ipv6: false,
        clean: false,
        exclude: vec![],
        dns: vec![],
    }
}

fn listing(uid: u32) -> String {
    format!(
        "-P OUTPUT ACCEPT\n\
         -A OUTPUT -p tcp -m owner --uid-owner {uid} -j REDIRECT --to-port 9999\n\
         -A OUTPUT -p tcp -m owner --uid-owner {uid} -d 127.0.0.0/8 -j RETURN\n"
    )
}

fn tables_to_clean(cli: &Cli) -> Vec<Iptables> {
    match plan(cli, &PmOutput::NotRun) {
        Startup::Clean(tables) => tables,
        _ => panic!("not a plan to clean"),
    }
}

#[test]
fn test_cli_missing_proxy() {
    assert!(matches!(plan(&cli(Some("10188"), None), &PmOutput::NotRun), Startup::Usage));
}

#[test]
fn test_cli_bad_uid() {
    let c = cli(Some("abc"), Some("proxy:8080"));
    assert!(matches!(plan(&c, &PmOutput::NotRun), Startup::Usage));
}

#[test]
fn test_cli_comma_uids_bad_mixed() {
    let c = cli(Some("10188,abc,10300"), Some("proxy:8080"));
    assert!(matches!(plan(&c, &PmOutput::NotRun), Startup::Usage));
}

#[test]
fn test_iptables_apply_generates_rules() {
    let mut c = cli(Some("10000"), Some("127.0.0.1:18080"));
    c.clean = true;
    let tables = tables_to_clean(&c);
    assert!(!tables.is_empty());
    assert_eq!(tables[0].cmd_name(), "iptables");
    let list = Iptables::list_args();
    assert!(list.contains(&"-S".to_string()) && list.contains(&"OUTPUT".to_string()));
    let deletions = tables[0].cleanup(listing(UID_TEST).as_bytes());
    assert!(
        deletions.iter().any(|args| args.contains(&"-D".to_string())),
        "should delete stale rules, got: {deletions:?}"
    );
}

#[test]
fn test_clean_multi_uid() {
    let mut c = cli(Some("10000,10100,10200"), Some("127.0.0.1:18080"));
    c.clean = true;
    let tables = tables_to_clean(&c);
    assert!(tables.len() >= 3, "should list rules for each UID, got {} listings", tables.len());
    let uids: Vec<u32> = tables.iter().map(|t| t.uid).collect();
    assert_eq!(uids, vec![10000, 10100, 10200]);
}

#[test]
fn test_ipv6_uses_ip6tables() {
    let mut c = cli(Some("10000"), Some("127.0.0.1:18080"));
    c.clean = true;
    c.ipv6 = true;
    let tables = tables_to_clean(&c);
    assert!(tables.iter().any(|t| t.cmd_name() == "ip6tables"));
    c.ipv6 = false;
    assert!(tables_to_clean(&c).iter().all(|t| t.cmd_name() == "iptables"));
}

#[test]
fn arguments_name_user_ids_and_a_proxy() {
    let c = cli(Some("10188,10200"), Some("1.2.3.4:8080"));
    assert_eq!(
        resolve_args(&c, &PmOutput::NotRun),
        Some((vec![10188, 10200], "1.2.3.4:8080".to_string()))
    );
    assert_eq!(resolve_args(&cli(None, Some("1.2.3.4:8080")), &PmOutput::NotRun), None);
    assert_eq!(resolve_args(&cli(Some("1"), None), &PmOutput::NotRun), None);
}

#[test]
fn package_manager_is_asked_for_packages_only() {
    assert!(asks_package_manager(&cli(Some("com.example.app"), Some("1.2.3.4:80"))));
    assert!(!asks_package_manager(&cli(Some("com.example.app"), None)));
    assert!(!asks_package_manager(&cli(Some("10188"), Some("1.2.3.4:80"))));
    assert!(!asks_package_manager(&cli(None, Some("1.2.3.4:80"))));
    let pm = PmOutput::Exited {
        success: true,
        stdout: b"package:com.example.app uid:10188\n".to_vec(),
    };
    let c = cli(Some("com.example.app"), Some("1.2.3.4:80"));
    assert_eq!(resolve_args(&c, &pm), Some((vec![10188], "1.2.3.4:80".to_string())));
}

#[test]
fn a_complete_command_line_is_run() {
    let mut c = cli(Some("10188"), Some("1.2.3.4:8080"));
    c.exclude = vec!["10.0.0.0/8".to_string(), "::1".to_string()];
    match plan(&c, &PmOutput::NotRun) {
        Startup::Run(config) => {
            assert_eq!(config.uids, vec![10188]);
            assert_eq!(config.proxy_host, "1.2.3.4");
            assert_eq!(config.proxy_port, 8080);
            assert_eq!(config.proxy_ip, Some(IpAddr::V4(parse_ipv4("1.2.3.4").unwrap())));
            assert_eq!(config.excludes.len(), 2);
        }
        _ => panic!("not a plan to run"),
    }
}

#[test]
fn a_host_name_is_left_to_be_resolved() {
    match plan(&cli(Some("1"), Some("proxy.example.com:3128")), &PmOutput::NotRun) {
        Startup::Run(config) => {
            assert_eq!(config.proxy_host, "proxy.example.com");
            assert_eq!(config.proxy_port, 3128);
            assert_eq!(config.proxy_ip, None);
        }
        _ => panic!("not a plan to run"),
    }
}

#[test]
fn bad_values_are_reported_in_order() {
    let mut c = cli(Some("1"), Some("no-port"));
    c.exclude = vec!["garbage".to_string()];
    assert!(matches!(plan(&c, &PmOutput::NotRun), Startup::BadProxy));
    c.proxy = Some("1.2.3.4:80".to_string());
    match plan(&c, &PmOutput::NotRun) {
        Startup::BadExclude(message) => {
            assert_eq!(message, "invalid IP address or CIDR: 'garbage'");
        }
        _ => panic!("the excluded destination is malformed"),
    }
    // Stale rules are removed all the same.
    c.clean = true;
    c.proxy = Some("no-port".to_string());
    assert_eq!(tables_to_clean(&c), vec![Iptables { uid: 1, ipv6: false }]);
}

#[test]
fn brackets_around_a_literal_do_not_matter() {
    let loopback = Some(IpAddr::V6(parse_ipv6("::1").unwrap()));
    assert_eq!(proxy_literal("::1"), loopback);
    assert_eq!(proxy_literal("[::1]"), loopback);
    assert_eq!(proxy_literal("[[::1]]]"), loopback);
    assert_eq!(proxy_literal("[1.2.3.4]"), Some(IpAddr::V4(parse_ipv4("1.2.3.4").unwrap())));
    assert_eq!(proxy_literal("localhost"), None);
    assert_eq!(proxy_literal("[]"), None);
    assert_eq!(proxy_literal(""), None);
    assert_eq!(proxy_literal("]::1["), None);
}

#[test]
fn each_user_id_has_its_tables() {
    assert_eq!(
        rule_tables(&[5, 6], true),
        vec![
            Iptables { uid: 5, ipv6: false },
            Iptables { uid: 5, ipv6: true },
            Iptables { uid: 6, ipv6: false },
            Iptables { uid: 6, ipv6: true },
        ]
    );
    assert_eq!(rule_tables(&[5], false), vec![Iptables { uid: 5, ipv6: false }]);
    assert!(rule_tables(&[], true).is_empty());
}

#[test]
fn only_ipv4_failures_are_fatal() {
    let v4 = Iptables { uid: 1, ipv6: false };
    let v6 = Iptables { uid: 1, ipv6: true };
    assert_eq!(after_apply(&v4, true), AfterApply::Continue);
    assert_eq!(after_apply(&v6, true), AfterApply::Continue);
    assert_eq!(after_apply(&v4, false), AfterApply::Abort);
    assert_eq!(after_apply(&v6, false), AfterApply::WarnNoIpv6);
}

#[test]
fn listening_falls_back_to_ipv4() {
    let (both, v4) = listen_addrs(5280);
    assert_eq!(both, "[::]:5280");
    assert_eq!(v4, "0.0.0.0:5280");
}

#[test]
fn verbosity_is_read_from_the_raw_arguments() {
    let args = |a: &[&str]| -> Vec<String> { a.iter().map(|s| s.to_string()).collect() };
    assert_eq!(default_filter(&args(&["atproxy", "1", "h:1"])), "atproxy=info");
    assert_eq!(default_filter(&args(&["atproxy", "-v"])), "atproxy=debug");
    assert_eq!(default_filter(&args(&["atproxy", "--verbose", "1"])), "atproxy=debug");
    assert_eq!(default_filter(&args(&["atproxy", "-v6"])), "atproxy=info");
    assert_eq!(default_filter(&[]), "atproxy=info");
}

#[test]
fn the_usage_is_shown_with_a_reason() {
    let pm = PmOutput::NotRun;
    assert_eq!(usage_reason(&cli(Some("abc"), Some("h:1")), &pm), Some(TargetError::BadTarget));
    assert_eq!(usage_reason(&cli(Some("a.b"), Some("h:1")), &pm), Some(TargetError::PmNotRun));
    assert_eq!(usage_reason(&cli(Some("abc"), None), &pm), None);
    assert_eq!(usage_reason(&cli(None, Some("h:1")), &pm), None);
    assert_eq!(usage_reason(&cli(Some("1"), Some("h:1")), &pm), None);
}
