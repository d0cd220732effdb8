use atproxy::iptables::{rule_matches_uid, ApplyStep, Iptables, Rule};

const UID_TEST: u32 = 10000;

fn listing(uid: u32) -> String {
    format!(
        "-P OUTPUT ACCEPT\n\
         -A OUTPUT -p tcp -m owner --uid-owner {uid} -j REDIRECT --to-port 9999\n\
         -A OUTPUT -p tcp -m owner --uid-owner {uid} -d 127.0.0.0/8 -j RETURN\n"
    )
}

#[test]
fn test_rule_matches_uid_exact() {
    assert!(rule_matches_uid(
        "-A OUTPUT -p tcp -m owner --uid-owner 1000 -j REDIRECT --to-port 5280",
        1000
    ));
}

#[test]
fn test_rule_matches_uid_no_substring_false_positive() {
    assert!(!rule_matches_uid(
        "-A OUTPUT -p tcp -m owner --uid-owner 10000 -j REDIRECT --to-port 5280",
        1000
    ));
    assert!(!rule_matches_uid(
        "-A OUTPUT -p tcp -m owner --uid-owner 21000 -j REDIRECT --to-port 5280",
        1000
    ));
    assert!(!rule_matches_uid(
        "-A OUTPUT -p tcp -m owner --uid-owner 10001 -j REDIRECT --to-port 5280",
        1000
    ));
}

#[test]
fn test_rule_matches_uid_no_owner_flag() {
    assert!(!rule_matches_uid(
        "-A OUTPUT -p tcp -j REDIRECT --to-port 5280",
        1000
    ));
}

#[test]
fn test_rule_matches_uid_with_other_numbers_present() {
    assert!(rule_matches_uid(
        "-A OUTPUT -p tcp -m owner --uid-owner 1000 -j REDIRECT --to-port 5280",
        1000
    ));
    assert!(!rule_matches_uid(
        "-A OUTPUT -p tcp -m owner --uid-owner 9999 -j REDIRECT --to-port 1000",
        1000
    ));
}

#[test]
fn test_iptables_redirect_rule() {
    let table = Iptables { uid: UID_TEST, ipv6: false };
    let deletions = table.cleanup(listing(UID_TEST).as_bytes());
    assert_eq!(deletions.len(), 2);
    for args in &deletions {
        assert!(args.contains(&"-D".to_string()));
        assert!(
            args.contains(&UID_TEST.to_string()),
            "delete rule should target UID {UID_TEST}, got: {args:?}"
        );
    }
}

#[test]
fn an_option_value_is_not_an_option() {
    assert!(!rule_matches_uid("--uid-owner --uid-owner 7", 7));
    assert!(rule_matches_uid("--uid-owner --uid-owner --uid-owner 7", 7));
    assert!(rule_matches_uid("--uid-owner 8 --uid-owner 7", 7));
    assert!(!rule_matches_uid("-A OUTPUT --uid-owner", 7));
    assert!(!rule_matches_uid("-A OUTPUT --uid-owner 07", 7));
    assert!(rule_matches_uid("\t--uid-owner\u{3000}7\t", 7));
    assert!(rule_matches_uid("--uid-owner 0", 0));
    assert!(rule_matches_uid("--uid-owner 4294967295", u32::MAX));
    assert!(!rule_matches_uid("", 7));
}

#[test]
fn cleanup_deletes_the_rules_of_the_uid_in_order() {
    let table = Iptables { uid: 1000, ipv6: false };
    let rules = "-P OUTPUT ACCEPT\r\n\
                 -A OUTPUT -p tcp -m owner --uid-owner 1000 -d 127.0.0.0/8 -j RETURN\n\
                 -A OUTPUT -p tcp -m owner --uid-owner 10000 -j RETURN\n\
                 -A OUTPUT  -m owner --uid-owner 1000 -j  REDIRECT --to-ports 5280";
    let expected = vec![
        "-t nat -D OUTPUT -p tcp -m owner --uid-owner 1000 -d 127.0.0.0/8 -j RETURN",
        "-t nat -D OUTPUT -m owner --uid-owner 1000 -j REDIRECT --to-ports 5280",
    ];
    let got: Vec<String> = table.deletions(rules).iter().map(|a| a.join(" ")).collect();
    assert_eq!(got, expected);
    let got: Vec<String> = table.cleanup(rules.as_bytes()).iter().map(|a| a.join(" ")).collect();
    assert_eq!(got, expected);
}

#[test]
fn cleanup_survives_bytes_that_are_not_text() {
    let table = Iptables { uid: 7, ipv6: true };
    let got = table.cleanup(b"\xff\xfe\n-A OUTPUT --uid-owner 7 -m comment --comment \xff\n");
    assert_eq!(got.len(), 1);
    assert_eq!(got[0].join(" "), "-t nat -D OUTPUT --uid-owner 7 -m comment --comment \u{fffd}");
}

#[test]
fn only_the_leading_append_becomes_a_deletion() {
    let table = Iptables { uid: 1000, ipv6: false };
    let listed = "-A OUTPUT -m owner --uid-owner 1000 -m comment --comment X-A -j RETURN\n";
    let got = table.cleanup(listed.as_bytes());
    assert_eq!(got.len(), 1);
    assert_eq!(
        got[0].join(" "),
        "-t nat -D OUTPUT -m owner --uid-owner 1000 -m comment --comment X-A -j RETURN"
    );
    let table = Iptables { uid: 7, ipv6: false };
    let got = table.deletions("-A\tOUTPUT --uid-owner 7 -A -A\n-P OUTPUT --uid-owner 7 -A x");
    assert_eq!(got[0].join(" "), "-t nat -D OUTPUT --uid-owner 7 -A -A");
    assert_eq!(got[1].join(" "), "-t nat -P OUTPUT --uid-owner 7 -A x");
}

fn drive(table: &Iptables, proxy_ip: &str, fails: &[Rule]) -> (Vec<String>, bool) {
    let mut ran = Vec::new();
    let mut last = None;
    loop {
        match table.apply(5280, proxy_ip, 8080, last) {
            ApplyStep::Run(rule, args) => {
                ran.push(args.join(" "));
                last = Some((rule, !fails.contains(&rule)));
            }
            ApplyStep::Done(redirected) => return (ran, redirected),
        }
    }
}

#[test]
fn applying_inserts_the_redirection_and_then_the_exemptions() {
    let table = Iptables { uid: 10188, ipv6: false };
    assert_eq!(table.cmd_name(), "iptables");
    let expected = vec![
        "-t nat -I OUTPUT 1 -p tcp -m owner --uid-owner 10188 -j REDIRECT --to-port 5280",
        "-t nat -I OUTPUT 1 -p tcp -m owner --uid-owner 10188 -d 1.2.3.4 --dport 8080 -j RETURN",
        "-t nat -I OUTPUT 1 -p tcp -m owner --uid-owner 10188 -d 127.0.0.0/8 -j RETURN",
    ];
    let (ran, redirected) = drive(&table, "1.2.3.4", &[]);
    assert_eq!(ran, expected);
    assert!(redirected);
    let (ran, redirected) = drive(&table, "1.2.3.4", &[Rule::ExemptProxy, Rule::ExemptLoopback]);
    assert_eq!(ran, expected);
    assert!(redirected);
}

#[test]
fn applying_ipv6_rules_exempts_the_ipv6_loopback() {
    let table = Iptables { uid: 10188, ipv6: true };
    assert_eq!(table.cmd_name(), "ip6tables");
    let (ran, _) = drive(&table, "fd00::1", &[]);
    assert_eq!(
        ran[1],
        "-t nat -I OUTPUT 1 -p tcp -m owner --uid-owner 10188 -d fd00::1 --dport 8080 -j RETURN"
    );
    assert_eq!(
        ran[2],
        "-t nat -I OUTPUT 1 -p tcp -m owner --uid-owner 10188 -d ::1/128 -j RETURN"
    );
}

#[test]
fn a_failed_redirection_ends_the_application() {
    let table = Iptables { uid: 10188, ipv6: true };
    let (ran, redirected) = drive(&table, "1.2.3.4", &[Rule::Redirect]);
    assert_eq!(ran.len(), 1);
    assert!(!redirected);
}

#[test]
fn an_unspecified_proxy_needs_no_exemption() {
    let table = Iptables { uid: 10188, ipv6: false };
    for ip in ["", "0.0.0.0", "::"] {
        let (ran, redirected) = drive(&table, ip, &[]);
        assert_eq!(ran.len(), 2);
        assert!(ran[1].contains("127.0.0.0/8"));
        assert!(redirected);
    }
}

#[test]
fn applied_rules_are_found_by_the_cleanup() {
    let table = Iptables { uid: 10188, ipv6: false };
    let (ran, _) = drive(&table, "1.2.3.4", &[]);
    let listed: Vec<String> = ran
        .iter()
        .map(|r| r.replace("-t nat -I OUTPUT 1", "-A OUTPUT"))
        .collect();
    let deleted: Vec<String> =
        table.deletions(&listed.join("\n")).iter().map(|a| a.join(" ")).collect();
    let expected: Vec<String> =
        ran.iter().map(|r| r.replace("-I OUTPUT 1", "-D OUTPUT")).collect();
    assert_eq!(deleted, expected);
    let other = Iptables { uid: 1018, ipv6: false };
    assert!(other.deletions(&listed.join("\n")).is_empty());
}

#[test]
fn rules_are_listed_by_chain() {
    assert_eq!(Iptables::list_args(), vec!["-t", "nat", "-S", "OUTPUT"]);
}

#[test]
fn applying_and_cleaning_up_gives_the_chain_back() {
    // A chain holds its rules as they are listed. An insertion goes to the top, and
    // a deletion takes away the first rule of the same words.
    let others = vec![
        "-A OUTPUT -m owner --uid-owner 101880 -j RETURN".to_string(),
        "-A OUTPUT -p tcp -j ACCEPT".to_string(),
        "-A OUTPUT -m owner --uid-owner 1018 -m comment --comment 10188 -j RETURN".to_string(),
    ];
    let table = Iptables { uid: 10188, ipv6: false };
    for fails in [vec![], vec![Rule::ExemptProxy], vec![Rule::ExemptLoopback], vec![Rule::Redirect]]
    {
        let mut chain = others.clone();
        let mut last = None;
        while let ApplyStep::Run(rule, args) = table.apply(5280, "1.2.3.4", 8080, last) {
            let ok = !fails.contains(&rule);
            if ok {
                assert_eq!(args[..5].join(" "), "-t nat -I OUTPUT 1");
                chain.insert(0, format!("-A OUTPUT {}", args[5..].join(" ")));
            }
            last = Some((rule, ok));
        }
        let listing = format!("-P OUTPUT ACCEPT\n{}\n", chain.join("\n"));
        for args in table.cleanup(listing.as_bytes()) {
            assert_eq!(args[..3].join(" "), "-t nat -D");
            let rule = format!("-A {}", args[3..].join(" "));
            let at = chain.iter().position(|r| *r == rule).unwrap();
            chain.remove(at);
        }
        assert_eq!(chain, others);
    }
}
