//! What the command line asks for: the arguments, and the plan that follows from
//! them before anything is changed on the system.
use crate::addr::{
    group_octets, hex_groups, ipv4_text, ipv4_value, ipv6_value, law_families_are_told_apart,
    law_ipv4_characters, law_ipv4_text_reads_back, law_ipv6_characters, law_ipv6_text_reads_back,
    read_ipv4, read_ipv6, IpAddr, Ipv4Addr,
};
use crate::exclude::{
    entry_block, law_first_invalid_reported, law_list_of_entries, law_on_the_list, list_blocks,
    texts, ExcludeList,
};
use crate::iptables::Iptables;
use crate::number::{decimal, push_decimal, uint_up_to};
use crate::relay::{
    host_port, law_host_port_reads_back, law_malformed_host_port_is_refused, parse_host_port,
};
use crate::resolve::{
    is_package, law_listed_package_is_resolved, law_uid_list_reads_back,
    law_unresolved_target_has_a_reason, pm_uid, resolve_target, speaks_of, target_error,
    target_problem, target_uids, uid_list, PmOutput, TargetError, TargetProblem,
};
use crate::text::{
    chars_of, is_line, is_text, joined, lines_text, push_text, string_views, trimmed,
};
use vstd::prelude::*;
use vstd::slice::slice_subrange;
use vstd::utf8::{decode_utf8, valid_utf8};

verus! {

/// The command line arguments.
#[derive(Debug)]
pub struct Cli {
    /// Whose connections to redirect: a package name or comma-separated user IDs.
    pub target: Option<String>,
    /// The upstream HTTP proxy, as `host:port`.
    pub proxy: Option<String>,
    /// The port that redirected connections arrive at.
    pub port: u16,
    /// Whether to log every connection.
    pub verbose: bool,
    /// Whether to apply IPv6 rules as well.
    pub ipv6: bool,
    /// Whether to remove stale rules and exit.
    pub clean: bool,
    /// Destinations that bypass the proxy.
    pub exclude: Vec<String>,
    /// DNS servers for the name of the proxy. They are accepted and not asked: names go
    /// through the system resolver.
    pub dns: Vec<String>,
}

/// What a run of the proxy needs.
pub struct Config {
    /// The user IDs whose connections are redirected.
    pub uids: Vec<u32>,
    /// The host of the proxy as it was given.
    pub proxy_host: String,
    /// The port of the proxy.
    pub proxy_port: u16,
    /// The address of the proxy, where the host is a literal address. A host name
    /// is still to be resolved.
    pub proxy_ip: Option<IpAddr>,
    /// The destinations that bypass the proxy.
    pub excludes: ExcludeList,
}

/// What to do at startup.
pub enum Startup {
    /// Arguments are missing, or the target cannot be resolved: show the usage and
    /// fail.
    Usage,
    /// Remove the rules of these tables and exit.
    Clean(Vec<Iptables>),
    /// The proxy address is malformed: fail.
    BadProxy,
    /// An excluded destination is malformed, with a message: fail.
    BadExclude(String),
    /// Run the proxy.
    Run(Config),
}

/// What to do when the rules of a table have been applied, or have not.
#[derive(Clone, Copy, Debug, PartialEq, Eq, Structural)]
pub enum AfterApply {
    /// Go on with the next table.
    Continue,
    /// Go on without IPv6.
    WarnNoIpv6,
    /// Fail.
    Abort,
}

/// The user IDs that the target stands for, and the proxy as it was given, where
/// both were given and the target can be resolved.
pub open spec fn args_of(cli: Cli, pm: PmOutput) -> Option<(Seq<u32>, Seq<char>)> {
    match (cli.target, cli.proxy) {
        (Some(target), Some(proxy)) => match target_uids(target@, pm_uid(target@, pm)) {
            Some(uids) => Some((uids, proxy@)),
            None => None,
        },
        _ => None,
    }
}

/// What is left of `s` without its leading opening brackets.
pub open spec fn after_brackets(s: Seq<char>) -> Seq<char>
    decreases s.len(),
{
    if s.len() > 0 && s[0] == '[' {
        after_brackets(s.drop_first())
    } else {
        s
    }
}

/// What is left of `s` without its trailing closing brackets.
pub open spec fn before_brackets(s: Seq<char>) -> Seq<char>
    decreases s.len(),
{
    if s.len() > 0 && s.last() == ']' {
        before_brackets(s.drop_last())
    } else {
        s
    }
}

/// A host without the brackets around it.
pub open spec fn unbracketed(host: Seq<char>) -> Seq<char> {
    before_brackets(after_brackets(host))
}

/// Whether `ip` is the address that `s` writes, or none where it writes none.
pub open spec fn writes_ip(s: Seq<char>, ip: Option<IpAddr>) -> bool {
    match ip {
        Some(IpAddr::V4(a)) => ipv4_value(s) == Some(a.bits),
        Some(IpAddr::V6(a)) => ipv6_value(s) matches Some(g) && a.octets@ == group_octets(g),
        None => ipv4_value(s) is None && ipv6_value(s) is None,
    }
}

/// The tables of the user IDs: for each an IPv4 table and, with `ipv6`, an IPv6
/// table behind it.
pub open spec fn tables(uids: Seq<u32>, ipv6: bool) -> Seq<Iptables>
    decreases uids.len(),
{
    if uids.len() == 0 {
        seq![]
    } else {
        let uid = uids[0];
        let own = if ipv6 {
            seq![Iptables { uid, ipv6: false }, Iptables { uid, ipv6: true }]
        } else {
            seq![Iptables { uid, ipv6: false }]
        };
        own + tables(uids.drop_first(), ipv6)
    }
}

impl Startup {
    /// Whether this is the plan for the arguments. Stale rules are removed whatever
    /// the proxy and the excluded destinations look like.
    pub open spec fn is_plan_for(self, cli: Cli, pm: PmOutput) -> bool {
        match args_of(cli, pm) {
            None => self is Usage,
            Some((uids, proxy)) => if cli.clean {
                self matches Startup::Clean(v) && v@ == tables(uids, cli.ipv6)
            } else {
                match (host_port(proxy), list_blocks(string_views(cli.exclude@))) {
                    (None, _) => self is BadProxy,
                    (Some(_), Err(message)) => self matches Startup::BadExclude(m) && m@ == message,
                    (Some((host, port)), Ok(blocks)) => self matches Startup::Run(c) && {
                        &&& c.uids@ == uids
                        &&& c.proxy_host@ == host
                        &&& c.proxy_port == port
                        &&& writes_ip(unbracketed(host), c.proxy_ip)
                        &&& c.excludes.is_list_of(blocks)
                    },
                }
            },
        }
    }
}

/// The user IDs and the proxy that the arguments name. `pm` is what the package
/// manager said; it matters only where [`asks_package_manager`] holds.
pub fn resolve_args(cli: &Cli, pm: &PmOutput) -> (r: Option<(Vec<u32>, String)>)
    ensures
        r is Some == args_of(*cli, *pm) is Some,
        r matches Some(a) ==> args_of(*cli, *pm) == Some((a.0@, a.1@)),
{
    let target = match &cli.target {
        Some(t) => t,
        None => return None,
    };
    let proxy = match &cli.proxy {
        Some(p) => p,
        None => return None,
    };
    match resolve_target(target.as_str(), pm) {
        Some(uids) => Some((uids, proxy.as_str().to_owned())),
        None => None,
    }
}

/// Whether the package manager has to be asked before the arguments can be
/// resolved: both are given and the target is a package name.
pub fn asks_package_manager(cli: &Cli) -> (r: bool)
    ensures
        r == (cli.target matches Some(t) && t@.contains('.') && cli.proxy is Some),
{
    match (&cli.target, &cli.proxy) {
        (Some(t), Some(_)) => is_package(t.as_str()),
        _ => false,
    }
}

/// What keeps the target from being resolved, where both arguments were given.
pub open spec fn args_problem(cli: Cli, pm: PmOutput) -> Option<TargetProblem> {
    match (cli.target, cli.proxy) {
        (Some(target), Some(_)) => target_problem(target@, pm),
        _ => None,
    }
}

/// Why the target cannot be resolved, where both arguments were given. None where
/// an argument is missing and where there are user IDs.
pub fn usage_reason(cli: &Cli, pm: &PmOutput) -> (r: Option<TargetError>)
    ensures
        r is Some == args_problem(*cli, *pm) is Some,
        r matches Some(e) ==> args_problem(*cli, *pm) == Some(e.problem()),
{
    match (&cli.target, &cli.proxy) {
        (Some(target), Some(_)) => target_error(target.as_str(), pm),
        _ => None,
    }
}

/// The address that a host writes, with or without brackets. None for a host name.
pub fn proxy_literal(host: &str) -> (r: Option<IpAddr>)
    ensures
        writes_ip(unbracketed(host@), r),
{
    let cs = chars_of(host);
    let s = cs.as_slice();
    let mut start: usize = 0;
    assert(s@.skip(0) =~= s@);
    while start < s.len() && s[start] == '['
        invariant
            start <= s@.len(),
            s@ == host@,
            after_brackets(host@) == after_brackets(s@.skip(start as int)),
        decreases s@.len() - start,
    {
        assert(s@.skip(start as int)[0] == s@[start as int]);
        assert(s@.skip(start as int).drop_first() =~= s@.skip(start + 1));
        start += 1;
    }
    let ghost tail = s@.skip(start as int);
    assert(start < s@.len() ==> tail[0] == s@[start as int]);
    assert(after_brackets(host@) == tail);
    let mut end: usize = s.len();
    assert(s@.subrange(start as int, end as int) =~= tail);
    while end > start && s[end - 1] == ']'
        invariant
            start <= end <= s@.len(),
            unbracketed(host@) == before_brackets(s@.subrange(start as int, end as int)),
        decreases end,
    {
        let ghost part = s@.subrange(start as int, end as int);
        assert(part.last() == s@[end - 1]);
        assert(part.drop_last() =~= s@.subrange(start as int, end - 1));
        end -= 1;
    }
    let ghost part = s@.subrange(start as int, end as int);
    assert(end > start ==> part.last() == s@[end - 1]);
    let bare = slice_subrange(s, start, end);
    assert(bare@ == unbracketed(host@));
    match read_ipv4(bare) {
        Some(a) => Some(IpAddr::V4(a)),
        None => match read_ipv6(bare) {
            Some(a) => Some(IpAddr::V6(a)),
            None => None,
        },
    }
}

/// The tables of the user IDs: for each an IPv4 table and, with `ipv6`, an IPv6
/// table behind it.
pub fn rule_tables(uids: &[u32], ipv6: bool) -> (r: Vec<Iptables>)
    ensures
        r@ == tables(uids@, ipv6),
{
    let mut out: Vec<Iptables> = Vec::new();
    let mut i: usize = 0;
    assert(uids@.skip(0) =~= uids@);
    assert(out@ + tables(uids@, ipv6) =~= tables(uids@, ipv6));
    while i < uids.len()
        invariant
            i <= uids@.len(),
            out@ + tables(uids@.skip(i as int), ipv6) == tables(uids@, ipv6),
        decreases uids@.len() - i,
    {
        let ghost rest = uids@.skip(i as int);
        let ghost before = out@;
        let uid: u32 = uids[i];
        assert(rest[0] == uid);
        assert(rest.drop_first() =~= uids@.skip(i + 1));
        let ghost tail = tables(uids@.skip(i + 1), ipv6);
        out.push(Iptables { uid, ipv6: false });
        if ipv6 {
            out.push(Iptables { uid, ipv6: true });
        }
        assert(out@ + tail =~= before + tables(rest, ipv6));
        i += 1;
    }
    assert(uids@.skip(i as int).len() == 0);
    assert(out@ + tables(uids@.skip(i as int), ipv6) =~= out@);
    out
}

/// Makes the plan for the arguments.
pub fn plan(cli: &Cli, pm: &PmOutput) -> (r: Startup)
    ensures
        r.is_plan_for(*cli, *pm),
{
    let (uids, proxy) = match resolve_args(cli, pm) {
        Some(a) => a,
        None => return Startup::Usage,
    };
    if cli.clean {
        return Startup::Clean(rule_tables(uids.as_slice(), cli.ipv6));
    }
    let (proxy_host, proxy_port) = match parse_host_port(proxy.as_str()) {
        Some(hp) => hp,
        None => return Startup::BadProxy,
    };
    let mut entries: Vec<&str> = Vec::new();
    let mut i: usize = 0;
    while i < cli.exclude.len()
        invariant
            i <= cli.exclude@.len(),
            texts(entries@) == string_views(cli.exclude@).take(i as int),
        decreases cli.exclude@.len() - i,
    {
        let ghost before = texts(entries@);
        entries.push(cli.exclude[i].as_str());
        i += 1;
        assert(texts(entries@) =~= before.push(cli.exclude@[i - 1]@));
        assert(string_views(cli.exclude@).take(i as int) =~= string_views(cli.exclude@).take(
            i - 1,
        ).push(cli.exclude@[i - 1]@));
    }
    assert(texts(entries@) =~= string_views(cli.exclude@));
    let excludes = match ExcludeList::from_strs(entries.as_slice()) {
        Ok(list) => list,
        Err(message) => return Startup::BadExclude(message),
    };
    let proxy_ip = proxy_literal(proxy_host.as_str());
    Startup::Run(Config { uids, proxy_host, proxy_port, proxy_ip, excludes })
}

/// What to do when the rules of a table have been applied, or have not: a failure
/// is fatal for IPv4 only.
pub fn after_apply(table: &Iptables, applied: bool) -> (r: AfterApply)
    ensures
        r == (if applied {
            AfterApply::Continue
        } else if table.ipv6 {
            AfterApply::WarnNoIpv6
        } else {
            AfterApply::Abort
        }),
{
    if applied {
        AfterApply::Continue
    } else if table.ipv6 {
        AfterApply::WarnNoIpv6
    } else {
        AfterApply::Abort
    }
}

/// The addresses to listen at: for both families and, should that fail, for IPv4
/// alone.
pub fn listen_addrs(port: u16) -> (r: (String, String))
    ensures
        r.0@ == "[::]:"@ + decimal(port as nat),
        r.1@ == "0.0.0.0:"@ + decimal(port as nat),
{
    let mut both = String::new();
    push_text(&mut both, "[::]:");
    push_decimal(&mut both, port as u64);
    assert(both@ =~= "[::]:"@ + decimal(port as nat));
    let mut v4 = String::new();
    push_text(&mut v4, "0.0.0.0:");
    push_decimal(&mut v4, port as u64);
    assert(v4@ =~= "0.0.0.0:"@ + decimal(port as nat));
    (both, v4)
}

/// Whether an argument asks for verbose logging.
pub open spec fn asks_verbose(arg: Seq<char>) -> bool {
    arg == "-v"@ || arg == "--verbose"@
}

/// Whether some argument asks for verbose logging.
pub open spec fn any_asks_verbose(args: Seq<String>) -> bool {
    exists|i: int| 0 <= i < args.len() && asks_verbose((#[trigger] args[i])@)
}

/// The log filter that holds where the environment sets none.
pub fn default_filter(args: &[String]) -> (r: &'static str)
    ensures
        r@ == (if any_asks_verbose(args@) {
            "atproxy=debug"@
        } else {
            "atproxy=info"@
        }),
{
    let mut i: usize = 0;
    while i < args.len()
        invariant
            i <= args@.len(),
            forall|k: int| 0 <= k < i ==> !asks_verbose(#[trigger] args@[k]@),
        decreases args@.len() - i,
    {
        let arg = chars_of(args[i].as_str());
        if is_text(arg.as_slice(), "-v") || is_text(arg.as_slice(), "--verbose") {
            assert(asks_verbose(args@[i as int]@));
            return "atproxy=debug";
        }
        i += 1;
    }
    "atproxy=info"
}

/// Law: every user ID has an IPv4 table, and an IPv6 table exactly where IPv6 was asked
/// for; no other table is touched.
pub proof fn law_tables_are_of_the_uids(uids: Seq<u32>, ipv6: bool, table: Iptables)
    ensures
        tables(uids, ipv6).contains(table) <==> uids.contains(table.uid) && (table.ipv6 ==> ipv6),
    decreases uids.len(),
{
    if uids.len() > 0 {
        let rest = uids.drop_first();
        let uid = uids[0];
        let all = tables(uids, ipv6);
        let tail = tables(rest, ipv6);
        let n: int = if ipv6 {
            2
        } else {
            1
        };
        law_tables_are_of_the_uids(rest, ipv6, table);
        assert(all[0] == Iptables { uid, ipv6: false });
        assert(ipv6 ==> all[1] == Iptables { uid, ipv6: true });
        assert forall|k: int| n <= k < all.len() implies all[k] == tail[k - n] by {}
        if tail.contains(table) {
            let k = choose|k: int| 0 <= k < tail.len() && tail[k] == table;
            assert(all[k + n] == table);
        }
        if rest.contains(table.uid) {
            let k = choose|k: int| 0 <= k < rest.len() && rest[k] == table.uid;
            assert(uids[k + 1] == table.uid);
        }
        if uids.contains(table.uid) {
            let k = choose|k: int| 0 <= k < uids.len() && uids[k] == table.uid;
            if k > 0 {
                assert(rest[k - 1] == table.uid);
            }
        }
        if all.contains(table) {
            let k = choose|k: int| 0 <= k < all.len() && all[k] == table;
            if k >= n {
                assert(tail[k - n] == table);
            } else {
                assert(uids[0] == table.uid);
            }
        }
    }
}

/// Law: the usage is shown exactly where an argument is missing or the target has a
/// problem, which is then named.
pub proof fn law_usage_has_a_reason(cli: Cli, pm: PmOutput, x: Startup)
    requires
        x.is_plan_for(cli, pm),
    ensures
        x is Usage <==> cli.target is None || cli.proxy is None || args_problem(cli, pm) is Some,
{
    if let Some(target) = cli.target {
        law_unresolved_target_has_a_reason(target@, pm);
    }
}

/// Law: the plan to remove stale rules depends on the target and on whether IPv6 was
/// asked for. What the proxy and the excluded destinations look like, and the
/// port, do not matter.
pub proof fn law_clean_needs_only_the_target(a: Cli, b: Cli, pm: PmOutput, x: Startup, y: Startup)
    requires
        a.clean,
        b.clean,
        a.target == b.target,
        a.proxy is Some,
        b.proxy is Some,
        a.ipv6 == b.ipv6,
        x.is_plan_for(a, pm),
        y.is_plan_for(b, pm),
    ensures
        x is Usage == y is Usage,
        x matches Startup::Clean(v) ==> y matches Startup::Clean(w) && v@ == w@,
        x is Usage || x is Clean,
{
}

/// Law: what the package manager says matters only where it has to be asked.
pub proof fn law_package_manager_matters_for_packages(cli: Cli, a: PmOutput, b: PmOutput)
    requires
        !(cli.target matches Some(t) && t@.contains('.') && cli.proxy is Some),
    ensures
        args_of(cli, a) == args_of(cli, b),
        forall|x: Startup| x.is_plan_for(cli, a) == x.is_plan_for(cli, b),
{
}

proof fn lemma_after_brackets(s: Seq<char>, t: Seq<char>)
    ensures
        after_brackets(s).len() > 0 ==> after_brackets(s + t) == after_brackets(s) + t,
        after_brackets(s).len() == 0 ==> after_brackets(s + t) == after_brackets(t),
    decreases s.len(),
{
    if s.len() == 0 {
        assert(s + t =~= t);
    } else {
        assert((s + t)[0] == s[0]);
        assert((s + t).drop_first() =~= s.drop_first() + t);
        lemma_after_brackets(s.drop_first(), t);
    }
}

/// Law: brackets around a host make no difference to the address that it writes.
pub proof fn law_brackets_do_not_matter(host: Seq<char>)
    ensures
        unbracketed(seq!['['] + host + seq![']']) == unbracketed(host),
{
    let full = seq!['['] + host + seq![']'];
    assert(full.drop_first() =~= host + seq![']']);
    assert(after_brackets(full) == after_brackets(host + seq![']']));
    lemma_after_brackets(host, seq![']']);
    let inner = after_brackets(host);
    assert(after_brackets(seq![']']) == seq![']']);
    if inner.len() > 0 {
        assert((inner + seq![']']).drop_last() =~= inner);
    } else {
        assert(seq![']'].drop_last() =~= inner);
    }
}

/// Law: a host writes at most one address.
pub proof fn law_address_of_host_is_unique(host: Seq<char>, a: IpAddr, b: IpAddr)
    requires
        writes_ip(unbracketed(host), Some(a)),
        writes_ip(unbracketed(host), Some(b)),
    ensures
        a is V4 == b is V4,
        a matches IpAddr::V4(x) ==> b == IpAddr::V4(x),
        a matches IpAddr::V6(x) ==> b matches IpAddr::V6(y) && x.octets@ == y.octets@,
{
    law_families_are_told_apart(unbracketed(host));
}

/// Law: the tables come in the order of the user IDs, the IPv6 table of each right behind
/// its IPv4 table.
pub proof fn law_tables_in_order(uids: Seq<u32>, i: int)
    requires
        0 <= i < uids.len(),
    ensures
        tables(uids, false).len() == uids.len(),
        tables(uids, false)[i] == (Iptables { uid: uids[i], ipv6: false }),
        tables(uids, true).len() == 2 * uids.len(),
        tables(uids, true)[2 * i] == (Iptables { uid: uids[i], ipv6: false }),
        tables(uids, true)[2 * i + 1] == (Iptables { uid: uids[i], ipv6: true }),
    decreases uids.len(),
{
    let rest = uids.drop_first();
    if rest.len() == 0 {
        assert(tables(rest, false).len() == 0);
        assert(tables(rest, true).len() == 0);
    } else {
        let j = if i > 0 {
            i - 1
        } else {
            0
        };
        law_tables_in_order(rest, j);
        if i > 0 {
            assert(tables(uids, false)[i] == tables(rest, false)[i - 1]);
            assert(tables(uids, true)[2 * i] == tables(rest, true)[2 * j]);
            assert(tables(uids, true)[2 * i + 1] == tables(rest, true)[2 * j + 1]);
        }
    }
}

/// Whether the arguments name these user IDs and this proxy, host and port.
pub open spec fn names(cli: Cli, uids: Seq<u32>, host: Seq<char>, port: nat) -> bool {
    &&& uids.len() > 0
    &&& cli.target matches Some(t) && t@ == uid_list(uids)
    &&& host.len() > 0
    &&& 0 < port <= 65535
    &&& cli.proxy matches Some(p) && p@ == host + seq![':'] + decimal(port)
}

/// Law: user IDs and a proxy, with excluded destinations that are addresses or blocks, are
/// run as they are given: these user IDs, this host and port, and a list that holds an
/// address exactly where one of the entries does.
pub proof fn law_given_arguments_are_run(
    cli: Cli,
    pm: PmOutput,
    x: Startup,
    uids: Seq<u32>,
    host: Seq<char>,
    port: nat,
    ip: IpAddr,
)
    requires
        call_ensures(plan, (&cli, &pm), x),
        names(cli, uids, host, port),
        !cli.clean,
        forall|i: int|
            0 <= i < cli.exclude@.len() && trimmed((#[trigger] cli.exclude@[i])@).len() > 0
                ==> entry_block(trimmed(cli.exclude@[i]@)) is Some,
    ensures
        x matches Startup::Run(c) && {
            &&& c.uids@ == uids
            &&& c.proxy_host@ == host
            &&& c.proxy_port == port
            &&& c.excludes.covers(ip) <==> exists|i: int|
                0 <= i < cli.exclude@.len() && trimmed((#[trigger] cli.exclude@[i])@).len() > 0
                    && entry_block(trimmed(cli.exclude@[i]@))->0.covers(ip)
        },
{
    law_uid_list_reads_back(uids, pm_uid(cli.target->0@, pm));
    law_host_port_reads_back(host, port);
    let entries = string_views(cli.exclude@);
    law_list_of_entries(entries, ip);
    if exists|i: int|
        0 <= i < entries.len() && trimmed(#[trigger] entries[i]).len() > 0 && entry_block(
            trimmed(entries[i]),
        ) is None {
        let i = choose|i: int|
            0 <= i < entries.len() && trimmed(#[trigger] entries[i]).len() > 0 && entry_block(
                trimmed(entries[i]),
            ) is None;
        assert(entries[i] == cli.exclude@[i]@);
    }
    let c = x->Run_0;
    let blocks = list_blocks(entries)->Ok_0;
    law_on_the_list(c.excludes, blocks, ip);
    if exists|i: int|
        0 <= i < cli.exclude@.len() && trimmed((#[trigger] cli.exclude@[i])@).len() > 0
            && entry_block(trimmed(cli.exclude@[i]@))->0.covers(ip) {
        let i = choose|i: int|
            0 <= i < cli.exclude@.len() && trimmed((#[trigger] cli.exclude@[i])@).len() > 0
                && entry_block(trimmed(cli.exclude@[i]@))->0.covers(ip);
        assert(entries[i] == cli.exclude@[i]@);
    }
    if exists|i: int|
        0 <= i < entries.len() && trimmed(#[trigger] entries[i]).len() > 0 && entry_block(
            trimmed(entries[i]),
        )->0.covers(ip) {
        let i = choose|i: int|
            0 <= i < entries.len() && trimmed(#[trigger] entries[i]).len() > 0 && entry_block(
                trimmed(entries[i]),
            )->0.covers(ip);
        assert(entries[i] == cli.exclude@[i]@);
    }
}

/// Law: an excluded destination that is no address and no block keeps the program from
/// running, and the first such entry is the one that is quoted.
pub proof fn law_bad_exclude_is_quoted(
    cli: Cli,
    pm: PmOutput,
    x: Startup,
    uids: Seq<u32>,
    host: Seq<char>,
    port: nat,
    i: int,
)
    requires
        call_ensures(plan, (&cli, &pm), x),
        names(cli, uids, host, port),
        !cli.clean,
        0 <= i < cli.exclude@.len(),
        trimmed(cli.exclude@[i]@).len() > 0,
        entry_block(trimmed(cli.exclude@[i]@)) is None,
        forall|j: int|
            0 <= j < i && trimmed((#[trigger] cli.exclude@[j])@).len() > 0 ==> entry_block(
                trimmed(cli.exclude@[j]@),
            ) is Some,
    ensures
        x matches Startup::BadExclude(m) && m@ == "invalid IP address or CIDR: '"@ + trimmed(
            cli.exclude@[i]@,
        ) + "'"@,
{
    law_uid_list_reads_back(uids, pm_uid(cli.target->0@, pm));
    law_host_port_reads_back(host, port);
    let entries = string_views(cli.exclude@);
    let before = entries.take(i);
    law_list_of_entries(before, IpAddr::V4(Ipv4Addr { bits: 0 }));
    assert forall|j: int| 0 <= j < before.len() implies #[trigger] before[j] == cli.exclude@[j]@ by {}
    assert(list_blocks(before) is Ok);
    law_first_invalid_reported(before, entries[i], entries.skip(i + 1));
    assert(before + seq![entries[i]] + entries.skip(i + 1) =~= entries);
}

/// Law: with `--clean` the tables of the given user IDs are cleaned up, whatever proxy is
/// given.
pub proof fn law_clean_takes_the_given_uids(
    cli: Cli,
    pm: PmOutput,
    x: Startup,
    uids: Seq<u32>,
    table: Iptables,
)
    requires
        call_ensures(plan, (&cli, &pm), x),
        uids.len() > 0,
        cli.target matches Some(t) && t@ == uid_list(uids),
        cli.proxy is Some,
        cli.clean,
    ensures
        x matches Startup::Clean(v) && (v@.contains(table) <==> uids.contains(table.uid) && (
        table.ipv6 ==> cli.ipv6)),
{
    law_uid_list_reads_back(uids, pm_uid(cli.target->0@, pm));
    law_tables_are_of_the_uids(uids, cli.ipv6, table);
}

/// Law: a package that the package manager lists is run, or cleaned up, under its user ID.
pub proof fn law_package_is_run(
    cli: Cli,
    stdout: Vec<u8>,
    x: Startup,
    package: Seq<char>,
    ls: Seq<Seq<char>>,
    i: int,
    uid: u32,
    host: Seq<char>,
    port: nat,
)
    requires
        call_ensures(plan, (&cli, &PmOutput::Exited { success: true, stdout }), x),
        cli.target matches Some(t) && t@ == package,
        package.contains('.'),
        !package.contains(' '),
        cli.proxy matches Some(p) && p@ == host + seq![':'] + decimal(port),
        host.len() > 0,
        0 < port <= 65535,
        cli.exclude@.len() == 0,
        valid_utf8(stdout@),
        decode_utf8(stdout@) == lines_text(ls),
        forall|j: int| 0 <= j < ls.len() ==> is_line(#[trigger] ls[j]),
        0 <= i < ls.len(),
        ls[i] == "package:"@ + package + " uid:"@ + decimal(uid as nat),
        forall|j: int| 0 <= j < i ==> !speaks_of(#[trigger] ls[j], package),
    ensures
        !cli.clean ==> (x matches Startup::Run(c) && c.uids@ == seq![uid]),
        cli.clean ==> (x matches Startup::Clean(v) && v@ == (if cli.ipv6 {
            seq![Iptables { uid, ipv6: false }, Iptables { uid, ipv6: true }]
        } else {
            seq![Iptables { uid, ipv6: false }]
        })),
{
    let none = Seq::<char>::empty();
    assert(ls[i] =~= "package:"@ + package + " uid:"@ + decimal(uid as nat) + none);
    law_listed_package_is_resolved(package, stdout, ls, i, uid, none);
    law_host_port_reads_back(host, port);
    let entries = string_views(cli.exclude@);
    assert(entries =~= seq![]);
    assert(list_blocks(entries) is Ok);
    let one = seq![uid];
    assert(one.drop_first() =~= seq![]);
    assert(tables(one.drop_first(), cli.ipv6) =~= seq![]);
    if cli.ipv6 {
        assert(tables(one, cli.ipv6) =~= seq![
            Iptables { uid, ipv6: false },
            Iptables { uid, ipv6: true },
        ]);
    } else {
        assert(tables(one, cli.ipv6) =~= seq![Iptables { uid, ipv6: false }]);
    }
}

/// Law: a proxy without a colon, without a host or without a port from 1 to 65535 is
/// refused.
pub proof fn law_bad_proxy_is_refused(
    cli: Cli,
    pm: PmOutput,
    x: Startup,
    uids: Seq<u32>,
    host: Seq<char>,
    port: Seq<char>,
)
    requires
        call_ensures(plan, (&cli, &pm), x),
        uids.len() > 0,
        cli.target matches Some(t) && t@ == uid_list(uids),
        !cli.clean,
        !port.contains(':'),
        ({
            ||| cli.proxy matches Some(p) && p@ == port
            ||| cli.proxy matches Some(p) && p@ == host + seq![':'] + port && (host.len() == 0
                || uint_up_to(port, 65535) is None || uint_up_to(port, 65535) == Some(0nat))
        }),
    ensures
        x is BadProxy,
{
    law_uid_list_reads_back(uids, pm_uid(cli.target->0@, pm));
    law_malformed_host_port_is_refused(host, port);
}

proof fn lemma_no_brackets(host: Seq<char>)
    requires
        host.len() > 0 ==> host[0] != '[' && host.last() != ']',
    ensures
        unbracketed(host) == host,
        unbracketed(seq!['['] + host + seq![']']) == host,
{
    law_brackets_do_not_matter(host);
}

proof fn lemma_host_literals(
    host: Seq<char>,
    r: Option<IpAddr>,
    bits: u32,
    g: Seq<u16>,
    i: int,
    j: int,
    k: int,
)
    requires
        writes_ip(unbracketed(host), r),
    ensures
        host == ipv4_text(bits) || host == seq!['['] + ipv4_text(bits) + seq![']'] ==> r == Some(
            IpAddr::V4(Ipv4Addr { bits }),
        ),
        is_ipv6_host(host, g, i, j) ==> (r matches Some(IpAddr::V6(a)) && a.octets@ == group_octets(
            g,
        )),
        is_host_name(host, k) ==> r is None,
{
    if host == ipv4_text(bits) || host == seq!['['] + ipv4_text(bits) + seq![']'] {
        let text = ipv4_text(bits);
        law_ipv4_text_reads_back(bits);
        if text.len() > 0 {
            law_ipv4_characters(text, 0);
            law_ipv4_characters(text, text.len() - 1);
        }
        lemma_no_brackets(text);
        law_families_are_told_apart(text);
    }
    if is_ipv6_host(host, g, i, j) {
        let text = joined(hex_groups(g.take(i)), ':') + seq![':', ':'] + joined(
            hex_groups(g.skip(j)),
            ':',
        );
        law_ipv6_text_reads_back(g, i, j);
        law_ipv6_characters(text, 0);
        law_ipv6_characters(text, text.len() - 1);
        lemma_no_brackets(text);
        law_families_are_told_apart(text);
    }
    if is_host_name(host, k) {
        lemma_no_brackets(host);
        if ipv4_value(host) is Some {
            law_ipv4_characters(host, k);
        }
        if ipv6_value(host) is Some {
            law_ipv6_characters(host, k);
        }
    }
}

/// Whether the host is the text of the IPv6 address with these groups, in brackets or not,
/// with `::` in the place of the zero groups from `i` to `j`.
pub open spec fn is_ipv6_host(host: Seq<char>, g: Seq<u16>, i: int, j: int) -> bool {
    let text = joined(hex_groups(g.take(i)), ':') + seq![':', ':'] + joined(
        hex_groups(g.skip(j)),
        ':',
    );
    &&& g.len() == 8
    &&& 0 <= i < j <= 8
    &&& forall|k: int| i <= k < j ==> #[trigger] g[k] == 0
    &&& host == text || host == seq!['['] + text + seq![']']
}

/// Whether the host has no brackets around it, and a character at `k` that no address has.
pub open spec fn is_host_name(host: Seq<char>, k: int) -> bool {
    &&& 0 <= k < host.len()
    &&& host[0] != '[' && host.last() != ']'
    &&& !(host[k] == ':' || host[k] == '.' || '0' <= host[k] <= '9' || 'a' <= host[k] <= 'f' || 'A'
        <= host[k] <= 'F')
}

/// Law: the text of an address, in brackets or not, is taken as that address, and a host
/// with a character that no address has as a name that is still to be resolved.
pub proof fn law_proxy_literal(
    host: &str,
    r: Option<IpAddr>,
    bits: u32,
    g: Seq<u16>,
    i: int,
    j: int,
    k: int,
)
    requires
        call_ensures(proxy_literal, (host,), r),
    ensures
        host@ == ipv4_text(bits) || host@ == seq!['['] + ipv4_text(bits) + seq![']'] ==> r == Some(
            IpAddr::V4(Ipv4Addr { bits }),
        ),
        is_ipv6_host(host@, g, i, j) ==> (r matches Some(IpAddr::V6(a)) && a.octets@
            == group_octets(g)),
        is_host_name(host@, k) ==> r is None,
{
    lemma_host_literals(host@, r, bits, g, i, j, k);
}

/// Law: the proxy that is run is at the address that the given host writes, where it writes
/// one, and is otherwise still to be resolved.
pub proof fn law_address_of_the_proxy(
    cli: Cli,
    pm: PmOutput,
    c: Config,
    uids: Seq<u32>,
    host: Seq<char>,
    port: nat,
    bits: u32,
    g: Seq<u16>,
    i: int,
    j: int,
    k: int,
)
    requires
        call_ensures(plan, (&cli, &pm), Startup::Run(c)),
        names(cli, uids, host, port),
    ensures
        host == ipv4_text(bits) || host == seq!['['] + ipv4_text(bits) + seq![']'] ==> c.proxy_ip
            == Some(IpAddr::V4(Ipv4Addr { bits })),
        is_ipv6_host(host, g, i, j) ==> (c.proxy_ip matches Some(IpAddr::V6(a)) && a.octets@
            == group_octets(g)),
        is_host_name(host, k) ==> c.proxy_ip is None,
{
    law_uid_list_reads_back(uids, pm_uid(cli.target->0@, pm));
    law_host_port_reads_back(host, port);
    lemma_host_literals(host, c.proxy_ip, bits, g, i, j, k);
}

/// Law: [`rule_tables`] gives each user ID its IPv4 table and, with IPv6, its IPv6 table
/// right behind it, in the order of the user IDs and with nothing else.
pub proof fn law_rule_tables(uids: &[u32], v4: Vec<Iptables>, both: Vec<Iptables>, i: int)
    requires
        call_ensures(rule_tables, (uids, false), v4),
        call_ensures(rule_tables, (uids, true), both),
    ensures
        v4@.len() == uids@.len(),
        both@.len() == 2 * uids@.len(),
        0 <= i < uids@.len() ==> {
            &&& v4@[i] == (Iptables { uid: uids@[i], ipv6: false })
            &&& both@[2 * i] == (Iptables { uid: uids@[i], ipv6: false })
            &&& both@[2 * i + 1] == (Iptables { uid: uids@[i], ipv6: true })
        },
{
    if uids@.len() > 0 {
        law_tables_in_order(uids@, 0);
    }
    if 0 <= i < uids@.len() {
        law_tables_in_order(uids@, i);
    }
}

/// Law: rules that were applied never stop the program, and rules that were not stop it
/// exactly for IPv4.
pub proof fn law_after_apply(table: &Iptables, applied: AfterApply, failed: AfterApply)
    requires
        call_ensures(after_apply, (table, true), applied),
        call_ensures(after_apply, (table, false), failed),
    ensures
        applied == AfterApply::Continue,
        failed == AfterApply::Abort <==> !table.ipv6,
        failed == AfterApply::WarnNoIpv6 <==> table.ipv6,
{
}

/// Law: the addresses to listen at read back as every address of the families and the
/// given port.
pub proof fn law_listen_addrs(port: u16, r: (String, String))
    requires
        call_ensures(listen_addrs, (port,), r),
        port > 0,
    ensures
        host_port(r.0@) == Some(("[::]"@, port as nat)),
        host_port(r.1@) == Some(("0.0.0.0"@, port as nat)),
{
    reveal_strlit("[::]:");
    reveal_strlit("[::]");
    reveal_strlit("0.0.0.0:");
    reveal_strlit("0.0.0.0");
    assert(r.0@ =~= "[::]"@ + seq![':'] + decimal(port as nat));
    assert(r.1@ =~= "0.0.0.0"@ + seq![':'] + decimal(port as nat));
    law_host_port_reads_back("[::]"@, port as nat);
    law_host_port_reads_back("0.0.0.0"@, port as nat);
}

/// Law: the log filter is that of debugging exactly where some argument is `-v` or
/// `--verbose`, wherever it stands.
pub proof fn law_default_filter(args: &[String], r: &'static str, i: int)
    requires
        call_ensures(default_filter, (args,), r),
    ensures
        0 <= i < args@.len() && (args@[i]@ == "-v"@ || args@[i]@ == "--verbose"@) ==> r@
            == "atproxy=debug"@,
        (forall|k: int|
            0 <= k < args@.len() ==> (#[trigger] args@[k])@ != "-v"@ && args@[k]@ != "--verbose"@)
            ==> r@ == "atproxy=info"@,
{
    if 0 <= i < args@.len() && (args@[i]@ == "-v"@ || args@[i]@ == "--verbose"@) {
        assert(asks_verbose(args@[i]@));
        assert(any_asks_verbose(args@));
    }
}

/// Law: the package manager is asked exactly where both arguments are given and the target
/// holds a dot. Where it is not asked, the plan is the same whatever it would have said.
pub proof fn law_asks_package_manager(cli: &Cli, r: bool, a: PmOutput, b: PmOutput, x: Startup)
    requires
        call_ensures(asks_package_manager, (cli,), r),
        call_ensures(plan, (cli, &a), x),
    ensures
        r <==> (cli.target matches Some(t) && t@.contains('.')) && cli.proxy is Some,
        !r ==> x.is_plan_for(*cli, b),
{
    if !r {
        law_package_manager_matters_for_packages(*cli, a, b);
    }
}

} // verus!
