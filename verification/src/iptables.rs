//! Firewall rules that redirect the TCP connections of one user ID.
//!
//! The rules stand in the `OUTPUT` chain of the `nat` table. One redirects the
//! connections of the user ID to the local listener; the others exempt loopback
//! connections and connections to the proxy itself.
use crate::bytes::{read_text, text_of};
use crate::number::{decimal, decimal_string, law_decimal_injective, lemma_decimal};
use crate::text::{
    chars_of, is_line, is_text, is_word, joined, law_joined_words_read_back, law_lines_read_back,
    lines, lines_text, same, split_lines, split_words, string_of, string_views, views, words,
};
use vstd::prelude::*;
use vstd::utf8::{decode_utf8, valid_utf8};

verus! {

/// The rules of one user ID, for one address family.
#[derive(Clone, Copy, Debug, PartialEq, Eq, Structural)]
pub struct Iptables {
    pub uid: u32,
    pub ipv6: bool,
}

/// A rule that is applied for a user ID.
#[derive(Clone, Copy, Debug, PartialEq, Eq, Structural)]
pub enum Rule {
    /// Redirects the connections of the user ID to the listener.
    Redirect,
    /// Exempts connections to the proxy, which would loop otherwise.
    ExemptProxy,
    /// Exempts loopback connections.
    ExemptLoopback,
}

/// What to do next to apply the rules.
#[derive(Debug, PartialEq, Eq)]
pub enum ApplyStep {
    /// Run the command with these arguments, to insert the rule.
    Run(Rule, Vec<String>),
    /// All is done. Connections are redirected exactly where this is true.
    Done(bool),
}

/// The character sequences of a list of argument lists.
pub open spec fn commands(v: Seq<Vec<String>>) -> Seq<Seq<Seq<char>>> {
    Seq::new(v.len(), |i: int| string_views(v[i]@))
}

/// The arguments that every inserted rule starts with: it goes to the top of the
/// chain and matches the TCP connections of the user ID.
pub open spec fn rule_head(uid: nat) -> Seq<Seq<char>> {
    seq![
        "-t"@,
        "nat"@,
        "-I"@,
        "OUTPUT"@,
        "1"@,
        "-p"@,
        "tcp"@,
        "-m"@,
        "owner"@,
        "--uid-owner"@,
        decimal(uid),
    ]
}

/// Whether connections to the proxy address can be told apart: it is neither empty
/// nor an unspecified address.
pub open spec fn names_proxy(proxy_ip: Seq<char>) -> bool {
    proxy_ip.len() > 0 && proxy_ip != "0.0.0.0"@ && proxy_ip != "::"@
}

/// The rule that is inserted next, or `Err` with the result where none is. `last`
/// is the rule that was inserted last and whether that succeeded.
pub open spec fn next_rule(last: Option<(Rule, bool)>, names_proxy: bool) -> Result<Rule, bool> {
    match last {
        None => Ok(Rule::Redirect),
        Some((Rule::Redirect, ok)) => if !ok {
            Err(false)
        } else if names_proxy {
            Ok(Rule::ExemptProxy)
        } else {
            Ok(Rule::ExemptLoopback)
        },
        Some((Rule::ExemptProxy, _)) => Ok(Rule::ExemptLoopback),
        Some((Rule::ExemptLoopback, _)) => Err(true),
    }
}

/// Whether the words of a rule name the user ID as their owner: scanning from the
/// left, the word behind some `--uid-owner` is the user ID. A word that is taken
/// as the value of an option is not an option itself.
pub open spec fn owner_is(tokens: Seq<Seq<char>>, uid: Seq<char>) -> bool
    decreases tokens.len(),
{
    if tokens.len() < 2 {
        false
    } else if tokens[0] == "--uid-owner"@ {
        tokens[1] == uid || owner_is(tokens.skip(2), uid)
    } else {
        owner_is(tokens.skip(1), uid)
    }
}

/// Whether a listed rule is one of the user ID.
pub open spec fn rule_is_for(line: Seq<char>, uid: nat) -> bool {
    owner_is(words(line), decimal(uid))
}

/// The arguments that delete a listed rule: its words, with `-D` in place of the
/// `-A` in front.
pub open spec fn deletion_args(line: Seq<char>) -> Seq<Seq<char>> {
    let w = words(line);
    seq!["-t"@, "nat"@] + (if w.len() > 0 && w[0] == "-A"@ {
        seq!["-D"@] + w.skip(1)
    } else {
        w
    })
}

/// The arguments that delete the rules of the user ID among the listed ones, in
/// the order of the list.
pub open spec fn cleanup_args(ls: Seq<Seq<char>>, uid: nat) -> Seq<Seq<Seq<char>>>
    decreases ls.len(),
{
    if ls.len() == 0 {
        seq![]
    } else if rule_is_for(ls[0], uid) {
        seq![deletion_args(ls[0])] + cleanup_args(ls.drop_first(), uid)
    } else {
        cleanup_args(ls.drop_first(), uid)
    }
}

/// Appends an argument.
fn push_arg(args: &mut Vec<String>, s: &str)
    ensures
        string_views(final(args)@) == string_views(old(args)@).push(s@),
{
    args.push(s.to_owned());
    assert(string_views(args@) =~= string_views(old(args)@).push(s@));
}

impl Iptables {
    /// The name of the command.
    pub open spec fn command(self) -> Seq<char> {
        if self.ipv6 {
            "ip6tables"@
        } else {
            "iptables"@
        }
    }

    /// The loopback addresses of the family.
    pub open spec fn loopback(self) -> Seq<char> {
        if self.ipv6 {
            "::1/128"@
        } else {
            "127.0.0.0/8"@
        }
    }

    /// The arguments that insert a rule.
    pub open spec fn rule_args(
        self,
        rule: Rule,
        listen_port: u16,
        proxy_ip: Seq<char>,
        proxy_port: u16,
    ) -> Seq<Seq<char>> {
        rule_head(self.uid as nat) + (match rule {
            Rule::Redirect => seq![
                "-j"@,
                "REDIRECT"@,
                "--to-port"@,
                decimal(listen_port as nat),
            ],
            Rule::ExemptProxy => seq![
                "-d"@,
                proxy_ip,
                "--dport"@,
                decimal(proxy_port as nat),
                "-j"@,
                "RETURN"@,
            ],
            Rule::ExemptLoopback => seq!["-d"@, self.loopback(), "-j"@, "RETURN"@],
        })
    }

    /// The name of the command.
    pub fn cmd_name(&self) -> (r: &'static str)
        ensures
            r@ == self.command(),
    {
        if self.ipv6 {
            "ip6tables"
        } else {
            "iptables"
        }
    }

    fn head(&self) -> (r: Vec<String>)
        ensures
            string_views(r@) == rule_head(self.uid as nat),
    {
        let mut args: Vec<String> = Vec::new();
        push_arg(&mut args, "-t");
        push_arg(&mut args, "nat");
        push_arg(&mut args, "-I");
        push_arg(&mut args, "OUTPUT");
        push_arg(&mut args, "1");
        push_arg(&mut args, "-p");
        push_arg(&mut args, "tcp");
        push_arg(&mut args, "-m");
        push_arg(&mut args, "owner");
        push_arg(&mut args, "--uid-owner");
        let uid = decimal_string(self.uid as u64);
        push_arg(&mut args, uid.as_str());
        assert(string_views(args@) =~= rule_head(self.uid as nat));
        args
    }

    fn insertion(&self, rule: Rule, listen_port: u16, proxy_ip: &str, proxy_port: u16) -> (r: Vec<
        String,
    >)
        ensures
            string_views(r@) == self.rule_args(rule, listen_port, proxy_ip@, proxy_port),
    {
        let mut args = self.head();
        match rule {
            Rule::Redirect => {
                let port = decimal_string(listen_port as u64);
                push_arg(&mut args, "-j");
                push_arg(&mut args, "REDIRECT");
                push_arg(&mut args, "--to-port");
                push_arg(&mut args, port.as_str());
            },
            Rule::ExemptProxy => {
                let port = decimal_string(proxy_port as u64);
                push_arg(&mut args, "-d");
                push_arg(&mut args, proxy_ip);
                push_arg(&mut args, "--dport");
                push_arg(&mut args, port.as_str());
                push_arg(&mut args, "-j");
                push_arg(&mut args, "RETURN");
            },
            Rule::ExemptLoopback => {
                let lo = if self.ipv6 {
                    "::1/128"
                } else {
                    "127.0.0.0/8"
                };
                push_arg(&mut args, "-d");
                push_arg(&mut args, lo);
                push_arg(&mut args, "-j");
                push_arg(&mut args, "RETURN");
            },
        }
        assert(string_views(args@) =~= self.rule_args(rule, listen_port, proxy_ip@, proxy_port));
        args
    }

    /// Says what to do next to redirect the TCP connections of the user ID to
    /// `listen_port`, except those to loopback and to the proxy. `last` is the rule
    /// that was run last and whether the command succeeded; `None` at the start.
    ///
    /// The redirection decides: where it fails nothing more is run and the result
    /// is false, and where it succeeds the result is true, whatever becomes of the
    /// exemptions.
    pub fn apply(
        &self,
        listen_port: u16,
        proxy_ip: &str,
        proxy_port: u16,
        last: Option<(Rule, bool)>,
    ) -> (r: ApplyStep)
        ensures
            match next_rule(last, names_proxy(proxy_ip@)) {
                Ok(rule) => r matches ApplyStep::Run(run, args) && run == rule && string_views(args@)
                    == self.rule_args(rule, listen_port, proxy_ip@, proxy_port),
                Err(redirected) => r == ApplyStep::Done(redirected),
            },
    {
        let rule = match last {
            None => Rule::Redirect,
            Some((Rule::Redirect, ok)) => {
                if !ok {
                    return ApplyStep::Done(false);
                }
                let cs = chars_of(proxy_ip);
                let ip = cs.as_slice();
                if ip.len() > 0 && !is_text(ip, "0.0.0.0") && !is_text(ip, "::") {
                    Rule::ExemptProxy
                } else {
                    Rule::ExemptLoopback
                }
            },
            Some((Rule::ExemptProxy, _)) => Rule::ExemptLoopback,
            Some((Rule::ExemptLoopback, _)) => {
                return ApplyStep::Done(true);
            },
        };
        ApplyStep::Run(rule, self.insertion(rule, listen_port, proxy_ip, proxy_port))
    }

    /// The arguments that list the rules of the chain.
    pub fn list_args() -> (r: Vec<String>)
        ensures
            string_views(r@) == seq!["-t"@, "nat"@, "-S"@, "OUTPUT"@],
    {
        let mut args: Vec<String> = Vec::new();
        push_arg(&mut args, "-t");
        push_arg(&mut args, "nat");
        push_arg(&mut args, "-S");
        push_arg(&mut args, "OUTPUT");
        assert(string_views(args@) =~= seq!["-t"@, "nat"@, "-S"@, "OUTPUT"@]);
        args
    }

    /// The argument lists that delete the rules of the user ID, given the listed
    /// rules.
    pub fn deletions(&self, rules: &str) -> (r: Vec<Vec<String>>)
        ensures
            commands(r@) == cleanup_args(lines(rules@), self.uid as nat),
    {
        let cs = chars_of(rules);
        let ls = split_lines(cs.as_slice());
        let ghost all = views(ls@);
        let ghost uid = self.uid as nat;
        let mut out: Vec<Vec<String>> = Vec::new();
        let mut i: usize = 0;
        assert(all.skip(0) =~= all);
        assert(commands(out@) + cleanup_args(all, uid) =~= cleanup_args(all, uid));
        while i < ls.len()
            invariant
                i <= ls@.len(),
                all == views(ls@),
                uid == self.uid as nat,
                commands(out@) + cleanup_args(all.skip(i as int), uid) == cleanup_args(all, uid),
            decreases ls@.len() - i,
        {
            let ghost rest = all.skip(i as int);
            assert(rest[0] == ls@[i as int]@);
            assert(rest.drop_first() =~= all.skip(i + 1));
            if is_rule_for(ls[i], self.uid) {
                let args = delete_rule(ls[i]);
                let ghost before = commands(out@);
                let ghost first = string_views(args@);
                out.push(args);
                proof {
                    let tail = cleanup_args(all.skip(i + 1), uid);
                    assert(commands(out@) =~= before.push(first));
                    assert(commands(out@) + tail =~= before + (seq![first] + tail));
                }
            }
            i += 1;
        }
        proof {
            assert(all.skip(i as int).len() == 0);
            assert(commands(out@) + cleanup_args(all.skip(i as int), uid) =~= commands(out@));
        }
        out
    }

    /// The argument lists that delete the rules of the user ID, given what the
    /// command wrote when it listed the rules.
    ///
    /// What becomes of bytes that are not valid UTF-8 is left to
    /// `String::from_utf8_lossy`.
    pub fn cleanup(&self, listing: &[u8]) -> (r: Vec<Vec<String>>)
        ensures
            commands(r@) == cleanup_args(lines(text_of(listing@)), self.uid as nat),
    {
        let rules = read_text(listing);
        self.deletions(rules.as_str())
    }
}

fn is_rule_for(line: &[char], uid: u32) -> (r: bool)
    ensures
        r == rule_is_for(line@, uid as nat),
{
    let text = decimal_string(uid as u64);
    let uid_text = chars_of(text.as_str());
    let tokens = split_words(line);
    let ghost all = views(tokens@);
    let mut i: usize = 0;
    assert(all.skip(0) =~= all);
    while i < tokens.len() && tokens.len() - i >= 2
        invariant
            i <= tokens@.len(),
            all == views(tokens@),
            all == words(line@),
            uid_text@ == decimal(uid as nat),
            owner_is(all, uid_text@) == owner_is(all.skip(i as int), uid_text@),
        decreases tokens@.len() - i,
    {
        let ghost rest = all.skip(i as int);
        assert(rest[0] == tokens@[i as int]@);
        assert(rest[1] == tokens@[i + 1]@);
        if is_text(tokens[i], "--uid-owner") {
            if same(tokens[i + 1], uid_text.as_slice()) {
                return true;
            }
            assert(rest.skip(2) =~= all.skip(i + 2));
            i += 2;
        } else {
            assert(rest.skip(1) =~= all.skip(i + 1));
            i += 1;
        }
    }
    false
}

fn delete_rule(line: &[char]) -> (r: Vec<String>)
    ensures
        string_views(r@) == deletion_args(line@),
{
    let tokens = split_words(line);
    let ghost all = views(tokens@);
    let mut args: Vec<String> = Vec::new();
    push_arg(&mut args, "-t");
    push_arg(&mut args, "nat");
    let mut k: usize = 0;
    assert(tokens@.len() > 0 ==> all[0] == tokens@[0]@);
    if tokens.len() > 0 && is_text(tokens[0], "-A") {
        push_arg(&mut args, "-D");
        k = 1;
    }
    let ghost first: int = k as int;
    let ghost front = string_views(args@);
    assert(front + all.subrange(first, first) =~= front);
    while k < tokens.len()
        invariant
            0 <= first <= k <= tokens@.len(),
            all == views(tokens@),
            string_views(args@) == front + all.subrange(first, k as int),
        decreases tokens@.len() - k,
    {
        let ghost before = string_views(args@);
        args.push(string_of(tokens[k]));
        k += 1;
        assert(all.subrange(first, k as int) =~= all.subrange(first, k - 1).push(all[k - 1]));
        assert(string_views(args@) =~= before.push(all[k - 1]));
    }
    assert(string_views(args@) =~= deletion_args(line@));
    args
}

/// Whether a listed rule is one of the user ID. Words are compared, so that user ID
/// 1000 does not match a rule of user ID 10000.
pub fn rule_matches_uid(line: &str, uid: u32) -> (r: bool)
    ensures
        r == rule_is_for(line@, uid as nat),
{
    let cs = chars_of(line);
    is_rule_for(cs.as_slice(), uid)
}

proof fn lemma_owner_behind(front: Seq<Seq<char>>, tail: Seq<Seq<char>>, uid: Seq<char>)
    requires
        forall|i: int| 0 <= i < front.len() ==> front[i] != "--uid-owner"@,
        tail.len() >= 2,
    ensures
        owner_is(front + tail, uid) == owner_is(tail, uid),
    decreases front.len(),
{
    if front.len() == 0 {
        assert(front + tail =~= tail);
    } else {
        assert((front + tail)[0] == front[0]);
        assert((front + tail).skip(1) =~= front.skip(1) + tail);
        lemma_owner_behind(front.skip(1), tail, uid);
    }
}

proof fn lemma_no_owner(tokens: Seq<Seq<char>>, uid: Seq<char>)
    requires
        forall|i: int| 0 <= i < tokens.len() ==> tokens[i] != "--uid-owner"@,
    ensures
        !owner_is(tokens, uid),
    decreases tokens.len(),
{
    if tokens.len() >= 2 {
        assert forall|i: int| 0 <= i < tokens.skip(1).len() implies tokens.skip(1)[i]
            != "--uid-owner"@ by {
            assert(tokens.skip(1)[i] == tokens[i + 1]);
        }
        lemma_no_owner(tokens.skip(1), uid);
    }
}

/// Law: every rule that is applied carries the user ID where the cleanup looks for it,
/// so that none is left behind.
pub proof fn law_applied_rules_are_found(
    table: Iptables,
    rule: Rule,
    listen_port: u16,
    proxy_ip: Seq<char>,
    proxy_port: u16,
)
    ensures
        owner_is(
            table.rule_args(rule, listen_port, proxy_ip, proxy_port),
            decimal(table.uid as nat),
        ),
{
    let uid = decimal(table.uid as nat);
    let args = table.rule_args(rule, listen_port, proxy_ip, proxy_port);
    let front = args.take(9);
    let tail = args.skip(9);
    assert(front =~= rule_head(table.uid as nat).take(9));
    assert(args =~= front + tail);
    assert(tail[0] == "--uid-owner"@);
    assert(tail[1] == uid);
    assert forall|i: int| 0 <= i < front.len() implies front[i] != "--uid-owner"@ by {
        reveal_strlit("--uid-owner");
        reveal_strlit("-t");
        reveal_strlit("nat");
        reveal_strlit("-I");
        reveal_strlit("OUTPUT");
        reveal_strlit("1");
        reveal_strlit("-p");
        reveal_strlit("tcp");
        reveal_strlit("-m");
        reveal_strlit("owner");
        assert("--uid-owner"@.len() == 11);
        assert(front[i].len() < 11);
    }
    lemma_owner_behind(front, tail, uid);
}

/// Law: a rule with one owner belongs to the user ID that is written there and to no
/// other: the digits of a user ID elsewhere in the rule, or as a part of a longer
/// number, do not count.
pub proof fn law_owner_is_exact(tokens: Seq<Seq<char>>, k: int, owner: nat, uid: nat)
    requires
        0 <= k < tokens.len() - 1,
        tokens[k] == "--uid-owner"@,
        tokens[k + 1] == decimal(owner),
        forall|i: int|
            0 <= i < tokens.len() && tokens[i] == "--uid-owner"@ ==> i == k,
    ensures
        owner_is(tokens, decimal(uid)) == (uid == owner),
{
    let front = tokens.take(k);
    let tail = tokens.skip(k);
    assert(tokens =~= front + tail);
    lemma_owner_behind(front, tail, decimal(uid));
    assert(tail[0] == tokens[k]);
    assert(tail[1] == tokens[k + 1]);
    let rest = tail.skip(2);
    assert forall|i: int| 0 <= i < rest.len() implies rest[i] != "--uid-owner"@ by {
        assert(rest[i] == tokens[k + 2 + i]);
    }
    lemma_no_owner(rest, decimal(uid));
    if decimal(uid) == decimal(owner) {
        law_decimal_injective(uid, owner);
    }
}

/// Law: a rule without an owner belongs to no user ID.
pub proof fn law_rule_without_owner(line: Seq<char>, uid: nat)
    requires
        forall|i: int| 0 <= i < words(line).len() ==> words(line)[i] != "--uid-owner"@,
    ensures
        !rule_is_for(line, uid),
{
    lemma_no_owner(words(line), decimal(uid));
}

/// Law: turning a listed rule into its deletion does not change whose rule it is: what
/// the cleanup deletes are rules of the user ID and of no other.
pub proof fn law_deletion_keeps_owner(line: Seq<char>, uid: nat)
    ensures
        owner_is(deletion_args(line).skip(2), decimal(uid)) == rule_is_for(line, uid),
{
    let w = words(line);
    let d = deletion_args(line).skip(2);
    if w.len() > 0 && w[0] == "-A"@ {
        reveal_strlit("--uid-owner");
        reveal_strlit("-A");
        reveal_strlit("-D");
        assert("--uid-owner"@.len() == 11 && "-A"@.len() == 2 && "-D"@.len() == 2);
        assert(d =~= seq!["-D"@] + w.skip(1));
        assert(d.skip(1) =~= w.skip(1));
    } else {
        assert(d =~= w);
    }
}

/// Law: a rule that is listed as appended is deleted by the very same words, with `-D`
/// in place of the leading `-A`.
pub proof fn law_deletion_undoes_append(line: Seq<char>)
    requires
        words(line).len() > 0,
        words(line)[0] == "-A"@,
    ensures
        deletion_args(line) == seq!["-t"@, "nat"@, "-D"@] + words(line).skip(1),
{
    assert(deletion_args(line) =~= seq!["-t"@, "nat"@, "-D"@] + words(line).skip(1));
}

/// Law: the cleanup deletes every rule of the user ID that is listed, and nothing else.
pub proof fn law_cleanup_deletes_own_rules(ls: Seq<Seq<char>>, uid: nat, args: Seq<Seq<char>>)
    ensures
        cleanup_args(ls, uid).contains(args) <==> exists|i: int|
            0 <= i < ls.len() && rule_is_for(#[trigger] ls[i], uid) && args == deletion_args(ls[i]),
    decreases ls.len(),
{
    if ls.len() > 0 {
        let rest = ls.drop_first();
        law_cleanup_deletes_own_rules(rest, uid, args);
        let tail = cleanup_args(rest, uid);
        let all = cleanup_args(ls, uid);
        if all.contains(args) {
            let k = choose|k: int| 0 <= k < all.len() && all[k] == args;
            if rule_is_for(ls[0], uid) {
                if k > 0 {
                    assert(tail[k - 1] == args);
                    assert(tail.contains(args));
                }
            }
            if tail.contains(args) {
                let i = choose|i: int|
                    0 <= i < rest.len() && rule_is_for(#[trigger] rest[i], uid) && args
                        == deletion_args(rest[i]);
                assert(rest[i] == ls[i + 1]);
            }
        }
        if exists|i: int|
            0 <= i < ls.len() && rule_is_for(#[trigger] ls[i], uid) && args == deletion_args(
                ls[i],
            ) {
            let i = choose|i: int|
                0 <= i < ls.len() && rule_is_for(#[trigger] ls[i], uid) && args == deletion_args(
                    ls[i],
                );
            if i == 0 {
                assert(all[0] == args);
            } else {
                assert(rest[i - 1] == ls[i]);
                let k = choose|k: int| 0 <= k < tail.len() && tail[k] == args;
                if rule_is_for(ls[0], uid) {
                    assert(all[k + 1] == args);
                }
            }
        }
    }
}

/// The words by which the chain lists a rule that was inserted with the arguments:
/// those that say what the rule matches and does.
pub open spec fn listed_words(args: Seq<Seq<char>>) -> Seq<Seq<char>> {
    seq!["-A"@, "OUTPUT"@] + args.skip(5)
}

proof fn lemma_listed_owner(
    table: Iptables,
    rule: Rule,
    listen_port: u16,
    proxy_ip: Seq<char>,
    proxy_port: u16,
)
    ensures
        owner_is(
            listed_words(table.rule_args(rule, listen_port, proxy_ip, proxy_port)),
            decimal(table.uid as nat),
        ),
{
    let uid = table.uid as nat;
    let args = table.rule_args(rule, listen_port, proxy_ip, proxy_port);
    let front = seq!["-A"@, "OUTPUT"@] + args.subrange(5, 9);
    let tail = args.skip(9);
    assert(args.subrange(5, 9) =~= rule_head(uid).subrange(5, 9));
    assert(listed_words(args) =~= front + tail);
    assert(tail[0] == "--uid-owner"@);
    assert(tail[1] == decimal(uid));
    assert forall|k: int| 0 <= k < front.len() implies front[k] != "--uid-owner"@ by {
        reveal_strlit("--uid-owner");
        reveal_strlit("-A");
        reveal_strlit("OUTPUT");
        reveal_strlit("-p");
        reveal_strlit("tcp");
        reveal_strlit("-m");
        reveal_strlit("owner");
        assert("--uid-owner"@.len() == 11);
        assert(front[k].len() < 11);
    }
    lemma_owner_behind(front, tail, decimal(uid));
}

/// Law: the cleanup deletes every rule that was applied, wherever it is listed.
pub proof fn law_applied_rules_are_deleted(
    table: Iptables,
    rule: Rule,
    listen_port: u16,
    proxy_ip: Seq<char>,
    proxy_port: u16,
    ls: Seq<Seq<char>>,
    i: int,
)
    requires
        0 <= i < ls.len(),
        words(ls[i]) == listed_words(table.rule_args(rule, listen_port, proxy_ip, proxy_port)),
    ensures
        rule_is_for(ls[i], table.uid as nat),
        cleanup_args(ls, table.uid as nat).contains(deletion_args(ls[i])),
{
    lemma_listed_owner(table, rule, listen_port, proxy_ip, proxy_port);
    law_cleanup_deletes_own_rules(ls, table.uid as nat, deletion_args(ls[i]));
}

/// Law: listings one behind the other are cleaned up one behind the other.
pub proof fn law_cleanup_of_joined_listings(a: Seq<Seq<char>>, b: Seq<Seq<char>>, uid: nat)
    ensures
        cleanup_args(a + b, uid) == cleanup_args(a, uid) + cleanup_args(b, uid),
    decreases a.len(),
{
    if a.len() == 0 {
        assert(a + b =~= b);
        assert(cleanup_args(a, uid) + cleanup_args(b, uid) =~= cleanup_args(b, uid));
    } else {
        assert((a + b).drop_first() =~= a.drop_first() + b);
        law_cleanup_of_joined_listings(a.drop_first(), b, uid);
        assert(cleanup_args(a + b, uid) =~= cleanup_args(a, uid) + cleanup_args(b, uid));
    }
}

/// How far the application of the rules has come.
pub open spec fn steps_left(last: Option<(Rule, bool)>) -> nat {
    match last {
        None => 3,
        Some((Rule::Redirect, _)) => 2,
        Some((Rule::ExemptProxy, _)) => 1,
        Some((Rule::ExemptLoopback, _)) => 0,
    }
}

/// The rules that are run from some point on, where `outcome` says which commands
/// succeed, and the result.
pub open spec fn applied(
    last: Option<(Rule, bool)>,
    names_proxy: bool,
    outcome: spec_fn(Rule) -> bool,
) -> (Seq<Rule>, bool)
    decreases steps_left(last),
{
    match next_rule(last, names_proxy) {
        Err(result) => (seq![], result),
        Ok(rule) => {
            let (rest, result) = applied(Some((rule, outcome(rule))), names_proxy, outcome);
            (seq![rule] + rest, result)
        },
    }
}

/// Law: applying the rules runs the redirection first and, where that succeeds, the
/// exemptions; the result is the outcome of the redirection, whatever becomes of
/// the exemptions.
pub proof fn law_redirection_decides(names_proxy: bool, outcome: spec_fn(Rule) -> bool)
    ensures
        applied(None, names_proxy, outcome).1 == outcome(Rule::Redirect),
        applied(None, names_proxy, outcome).0 == (if !outcome(Rule::Redirect) {
            seq![Rule::Redirect]
        } else if names_proxy {
            seq![Rule::Redirect, Rule::ExemptProxy, Rule::ExemptLoopback]
        } else {
            seq![Rule::Redirect, Rule::ExemptLoopback]
        }),
{
    reveal_with_fuel(applied, 5);
}

/// A chain without the first occurrence of a rule.
pub open spec fn without_first(chain: Seq<Seq<Seq<char>>>, rule: Seq<Seq<char>>) -> Seq<
    Seq<Seq<char>>,
>
    decreases chain.len(),
{
    if chain.len() == 0 {
        chain
    } else if chain[0] == rule {
        chain.drop_first()
    } else {
        seq![chain[0]] + without_first(chain.drop_first(), rule)
    }
}

/// The chain after a command that succeeded. A chain holds its rules as the words
/// that list them. An insertion puts its rule on top; a deletion takes away the
/// first rule that has its words.
pub open spec fn after_command(chain: Seq<Seq<Seq<char>>>, args: Seq<Seq<char>>) -> Seq<
    Seq<Seq<char>>,
> {
    if args.len() >= 5 && args.take(5) == seq!["-t"@, "nat"@, "-I"@, "OUTPUT"@, "1"@] {
        seq![listed_words(args)] + chain
    } else if args.len() >= 3 && args.take(3) == seq!["-t"@, "nat"@, "-D"@] {
        without_first(chain, seq!["-A"@] + args.skip(3))
    } else {
        chain
    }
}

/// The chain after commands that succeeded, one after the other.
pub open spec fn after_commands(
    chain: Seq<Seq<Seq<char>>>,
    commands: Seq<Seq<Seq<char>>>,
) -> Seq<Seq<Seq<char>>>
    decreases commands.len(),
{
    if commands.len() == 0 {
        chain
    } else {
        after_commands(after_command(chain, commands[0]), commands.drop_first())
    }
}

/// Whether the lines list the rules of the chain, in order.
pub open spec fn lists(ls: Seq<Seq<char>>, chain: Seq<Seq<Seq<char>>>) -> bool {
    ls.len() == chain.len() && forall|i: int|
        0 <= i < ls.len() ==> words(#[trigger] ls[i]) == chain[i]
}

/// Says of a rule, given as words, that it is not one of the user ID.
pub open spec fn not_of(uid: nat) -> spec_fn(Seq<Seq<char>>) -> bool {
    |rule: Seq<Seq<char>>| !owner_is(rule, decimal(uid))
}

impl Iptables {
    /// The words that list a rule of the table.
    pub open spec fn listed(
        self,
        rule: Rule,
        listen_port: u16,
        proxy_ip: Seq<char>,
        proxy_port: u16,
    ) -> Seq<Seq<char>> {
        listed_words(self.rule_args(rule, listen_port, proxy_ip, proxy_port))
    }

    /// The chain after the rules were run one after the other, where `outcome` says
    /// which commands succeed. One that fails changes nothing.
    pub open spec fn chain_after_rules(
        self,
        listen_port: u16,
        proxy_ip: Seq<char>,
        proxy_port: u16,
        chain: Seq<Seq<Seq<char>>>,
        rules: Seq<Rule>,
        outcome: spec_fn(Rule) -> bool,
    ) -> Seq<Seq<Seq<char>>>
        decreases rules.len(),
    {
        if rules.len() == 0 {
            chain
        } else {
            let next = if outcome(rules[0]) {
                after_command(chain, self.rule_args(rules[0], listen_port, proxy_ip, proxy_port))
            } else {
                chain
            };
            self.chain_after_rules(
                listen_port,
                proxy_ip,
                proxy_port,
                next,
                rules.drop_first(),
                outcome,
            )
        }
    }

    /// The chain after the rules of the table were applied to it.
    pub open spec fn chain_after_apply(
        self,
        listen_port: u16,
        proxy_ip: Seq<char>,
        proxy_port: u16,
        chain: Seq<Seq<Seq<char>>>,
        outcome: spec_fn(Rule) -> bool,
    ) -> Seq<Seq<Seq<char>>> {
        self.chain_after_rules(
            listen_port,
            proxy_ip,
            proxy_port,
            chain,
            applied(None, names_proxy(proxy_ip), outcome).0,
            outcome,
        )
    }

    /// The rules that applying adds, from the top of the chain.
    pub open spec fn added(
        self,
        listen_port: u16,
        proxy_ip: Seq<char>,
        proxy_port: u16,
        outcome: spec_fn(Rule) -> bool,
    ) -> Seq<Seq<Seq<char>>> {
        if !outcome(Rule::Redirect) {
            seq![]
        } else {
            (if outcome(Rule::ExemptLoopback) {
                seq![self.listed(Rule::ExemptLoopback, listen_port, proxy_ip, proxy_port)]
            } else {
                seq![]
            }) + (if names_proxy(proxy_ip) && outcome(Rule::ExemptProxy) {
                seq![self.listed(Rule::ExemptProxy, listen_port, proxy_ip, proxy_port)]
            } else {
                seq![]
            }) + seq![self.listed(Rule::Redirect, listen_port, proxy_ip, proxy_port)]
        }
    }
}

proof fn lemma_insertion(
    table: Iptables,
    rule: Rule,
    listen_port: u16,
    proxy_ip: Seq<char>,
    proxy_port: u16,
    chain: Seq<Seq<Seq<char>>>,
)
    ensures
        after_command(chain, table.rule_args(rule, listen_port, proxy_ip, proxy_port)) == seq![
            table.listed(rule, listen_port, proxy_ip, proxy_port),
        ] + chain,
{
    let args = table.rule_args(rule, listen_port, proxy_ip, proxy_port);
    assert(args.take(5) =~= seq!["-t"@, "nat"@, "-I"@, "OUTPUT"@, "1"@]);
}

/// Law: once the rules are applied, the exemptions whose commands succeeded stand
/// ahead of the redirection in the chain, so that they take effect, and the rules
/// that were there before follow. Where the redirection fails the chain is left as
/// it was.
pub proof fn law_exemptions_come_first(
    table: Iptables,
    listen_port: u16,
    proxy_ip: Seq<char>,
    proxy_port: u16,
    chain: Seq<Seq<Seq<char>>>,
    outcome: spec_fn(Rule) -> bool,
)
    ensures
        table.chain_after_apply(listen_port, proxy_ip, proxy_port, chain, outcome) == table.added(
            listen_port,
            proxy_ip,
            proxy_port,
            outcome,
        ) + chain,
{
    let named = names_proxy(proxy_ip);
    law_redirection_decides(named, outcome);
    let rules = applied(None, named, outcome).0;
    reveal_with_fuel(Iptables::chain_after_rules, 4);
    lemma_insertion(table, Rule::Redirect, listen_port, proxy_ip, proxy_port, chain);
    let added = table.added(listen_port, proxy_ip, proxy_port, outcome);
    if outcome(Rule::Redirect) {
        let a = seq![table.listed(Rule::Redirect, listen_port, proxy_ip, proxy_port)] + chain;
        lemma_insertion(table, Rule::ExemptProxy, listen_port, proxy_ip, proxy_port, a);
        let b = if named && outcome(Rule::ExemptProxy) {
            seq![table.listed(Rule::ExemptProxy, listen_port, proxy_ip, proxy_port)] + a
        } else {
            a
        };
        lemma_insertion(table, Rule::ExemptLoopback, listen_port, proxy_ip, proxy_port, b);
        let c = if outcome(Rule::ExemptLoopback) {
            seq![table.listed(Rule::ExemptLoopback, listen_port, proxy_ip, proxy_port)] + b
        } else {
            b
        };
        assert(rules.drop_first()[0] == rules[1]);
        if named {
            assert(rules.drop_first().drop_first()[0] == rules[2]);
        }
        assert(table.chain_after_apply(listen_port, proxy_ip, proxy_port, chain, outcome) == c);
        assert(c =~= added + chain);
    } else {
        assert(added + chain =~= chain);
    }
}

proof fn lemma_without_first(
    front: Seq<Seq<Seq<char>>>,
    rule: Seq<Seq<char>>,
    tail: Seq<Seq<Seq<char>>>,
)
    requires
        !front.contains(rule),
    ensures
        without_first(front + (seq![rule] + tail), rule) == front + tail,
    decreases front.len(),
{
    let chain = front + (seq![rule] + tail);
    if front.len() == 0 {
        assert(chain.drop_first() =~= tail);
        assert(front + tail =~= tail);
    } else {
        let rest = front.drop_first();
        assert(front[0] != rule);
        assert forall|i: int| 0 <= i < rest.len() implies rest[i] != rule by {
            assert(rest[i] == front[i + 1]);
        }
        lemma_without_first(rest, rule, tail);
        assert(chain.drop_first() =~= rest + (seq![rule] + tail));
        assert(seq![front[0]] + (rest + tail) =~= front + tail);
    }
}

proof fn lemma_no_own_rules(ls: Seq<Seq<char>>, uid: nat)
    requires
        forall|i: int| 0 <= i < ls.len() ==> !rule_is_for(#[trigger] ls[i], uid),
    ensures
        cleanup_args(ls, uid) == Seq::<Seq<Seq<char>>>::empty(),
    decreases ls.len(),
{
    if ls.len() > 0 {
        assert forall|i: int| 0 <= i < ls.drop_first().len() implies !rule_is_for(
            #[trigger] ls.drop_first()[i],
            uid,
        ) by {
            assert(ls.drop_first()[i] == ls[i + 1]);
        }
        lemma_no_own_rules(ls.drop_first(), uid);
    }
}

proof fn lemma_deletion_removes(
    front: Seq<Seq<Seq<char>>>,
    line: Seq<char>,
    rest: Seq<Seq<Seq<char>>>,
)
    requires
        words(line).len() > 0,
        words(line)[0] == "-A"@,
        !front.contains(words(line)),
    ensures
        after_command(front + (seq![words(line)] + rest), deletion_args(line)) == front + rest,
{
    let rule = words(line);
    let args = deletion_args(line);
    law_deletion_undoes_append(line);
    assert(args.take(3) =~= seq!["-t"@, "nat"@, "-D"@]);
    assert(seq!["-A"@] + args.skip(3) =~= rule);
    if args.len() >= 5 {
        reveal_strlit("-D");
        reveal_strlit("-I");
        assert("-D"@[1] == 'D' && "-I"@[1] == 'I');
        assert(args.take(5)[2] == "-D"@);
        assert(args.take(5) != seq!["-t"@, "nat"@, "-I"@, "OUTPUT"@, "1"@]);
    }
    lemma_without_first(front, rule, rest);
}

#[verifier::rlimit(40)]
proof fn lemma_cleanup_chain(
    front: Seq<Seq<Seq<char>>>,
    ls: Seq<Seq<char>>,
    chain: Seq<Seq<Seq<char>>>,
    uid: nat,
)
    requires
        lists(ls, chain),
        forall|i: int| 0 <= i < front.len() ==> !owner_is(#[trigger] front[i], decimal(uid)),
        forall|i: int|
            0 <= i < chain.len() && owner_is(#[trigger] chain[i], decimal(uid)) ==> chain[i][0]
                == "-A"@,
    ensures
        after_commands(front + chain, cleanup_args(ls, uid)) == front + chain.filter(not_of(uid)),
    decreases ls.len(),
{
    if ls.len() == 0 {
        reveal(Seq::filter);
    } else {
        let rest = chain.drop_first();
        let rest_lines = ls.drop_first();
        let rule = chain[0];
        let pred = not_of(uid);
        assert(words(ls[0]) == rule);
        assert(chain =~= seq![rule] + rest);
        rest.lemma_filter_prepend(rule, pred);
        assert forall|i: int| 0 <= i < rest_lines.len() implies words(#[trigger] rest_lines[i])
            == rest[i] by {
            assert(rest_lines[i] == ls[i + 1]);
        }
        assert forall|i: int|
            0 <= i < rest.len() && owner_is(#[trigger] rest[i], decimal(uid)) implies rest[i][0]
            == "-A"@ by {
            assert(rest[i] == chain[i + 1]);
        }
        if rule_is_for(ls[0], uid) {
            let args = deletion_args(ls[0]);
            assert(!front.contains(rule));
            lemma_deletion_removes(front, ls[0], rest);
            assert(after_command(front + chain, args) == front + rest);
            let all = cleanup_args(ls, uid);
            assert(all[0] == args);
            assert(all.drop_first() =~= cleanup_args(rest_lines, uid));
            lemma_cleanup_chain(front, rest_lines, rest, uid);
        } else {
            let more = front.push(rule);
            lemma_cleanup_chain(more, rest_lines, rest, uid);
            assert(more + rest =~= front + chain);
            assert(more + rest.filter(pred) =~= front + (seq![rule] + rest.filter(pred)));
        }
    }
}

/// Law: running the deletions of the cleanup leaves exactly the rules that are not
/// of the user ID, in order. The listing shows each rule of the chain in a line of
/// its own, and may start with lines that are no rules of the user ID, such as the
/// policy of the chain.
pub proof fn law_cleanup_leaves_other_rules(
    header: Seq<Seq<char>>,
    ls: Seq<Seq<char>>,
    chain: Seq<Seq<Seq<char>>>,
    uid: nat,
)
    requires
        lists(ls, chain),
        forall|i: int| 0 <= i < header.len() ==> !rule_is_for(#[trigger] header[i], uid),
        forall|i: int|
            0 <= i < chain.len() && owner_is(#[trigger] chain[i], decimal(uid)) ==> chain[i][0]
                == "-A"@,
    ensures
        after_commands(chain, cleanup_args(header + ls, uid)) == chain.filter(not_of(uid)),
{
    law_cleanup_of_joined_listings(header, ls, uid);
    lemma_no_own_rules(header, uid);
    assert(cleanup_args(header + ls, uid) =~= cleanup_args(ls, uid));
    let none = Seq::<Seq<Seq<char>>>::empty();
    lemma_cleanup_chain(none, ls, chain, uid);
    assert(none + chain =~= chain);
    assert(none + chain.filter(not_of(uid)) =~= chain.filter(not_of(uid)));
}

proof fn lemma_filter_all(chain: Seq<Seq<Seq<char>>>, uid: nat)
    requires
        forall|i: int| 0 <= i < chain.len() ==> !owner_is(#[trigger] chain[i], decimal(uid)),
    ensures
        chain.filter(not_of(uid)) == chain,
    decreases chain.len(),
{
    reveal(Seq::filter);
    if chain.len() > 0 {
        lemma_filter_all(chain.drop_last(), uid);
        assert(chain.drop_last().push(chain.last()) =~= chain);
    }
}

/// Law: applying the rules of a table and then cleaning up gives the chain back:
/// no rule of the user ID is left, and the rules of all others are kept in order.
/// That holds whichever commands of the application failed.
pub proof fn law_cleanup_undoes_apply(
    table: Iptables,
    listen_port: u16,
    proxy_ip: Seq<char>,
    proxy_port: u16,
    outcome: spec_fn(Rule) -> bool,
    chain: Seq<Seq<Seq<char>>>,
    header: Seq<Seq<char>>,
    ls: Seq<Seq<char>>,
)
    requires
        forall|i: int|
            0 <= i < chain.len() ==> !owner_is(#[trigger] chain[i], decimal(table.uid as nat)),
        forall|i: int|
            0 <= i < header.len() ==> !rule_is_for(#[trigger] header[i], table.uid as nat),
        lists(ls, table.chain_after_apply(listen_port, proxy_ip, proxy_port, chain, outcome)),
    ensures
        after_commands(
            table.chain_after_apply(listen_port, proxy_ip, proxy_port, chain, outcome),
            cleanup_args(header + ls, table.uid as nat),
        ) == chain,
{
    let uid = table.uid as nat;
    let pred = not_of(uid);
    let added = table.added(listen_port, proxy_ip, proxy_port, outcome);
    let full = table.chain_after_apply(listen_port, proxy_ip, proxy_port, chain, outcome);
    law_exemptions_come_first(table, listen_port, proxy_ip, proxy_port, chain, outcome);
    lemma_listed_owner(table, Rule::Redirect, listen_port, proxy_ip, proxy_port);
    lemma_listed_owner(table, Rule::ExemptProxy, listen_port, proxy_ip, proxy_port);
    lemma_listed_owner(table, Rule::ExemptLoopback, listen_port, proxy_ip, proxy_port);
    assert forall|i: int| 0 <= i < added.len() implies owner_is(#[trigger] added[i], decimal(uid))
        && added[i][0] == "-A"@ by {}
    assert forall|i: int| 0 <= i < full.len() && owner_is(#[trigger] full[i], decimal(uid)) implies
        full[i][0] == "-A"@ by {
        if i < added.len() {
            assert(full[i] == added[i]);
        } else {
            assert(full[i] == chain[i - added.len()]);
        }
    }
    law_cleanup_leaves_other_rules(header, ls, full, uid);
    Seq::filter_distributes_over_add(added, chain, pred);
    added.lemma_all_neg_filter_empty(pred);
    lemma_filter_all(chain, uid);
    assert(added.filter(pred) + chain =~= chain);
}

/// Law: the redirection sends the TCP connections of the user ID to the listen port. It
/// depends neither on the proxy nor on the address family: two tables of the same user
/// ID insert the same redirection.
pub proof fn law_redirection_goes_to_the_listener(
    a: Iptables,
    b: Iptables,
    listen_port: u16,
    ip_a: Seq<char>,
    ip_b: Seq<char>,
    port_a: u16,
    port_b: u16,
)
    requires
        a.uid == b.uid,
    ensures
        a.rule_args(Rule::Redirect, listen_port, ip_a, port_a) == b.rule_args(
            Rule::Redirect,
            listen_port,
            ip_b,
            port_b,
        ),
        a.rule_args(Rule::Redirect, listen_port, ip_a, port_a) == seq![
            "-t"@,
            "nat"@,
            "-I"@,
            "OUTPUT"@,
            "1"@,
            "-p"@,
            "tcp"@,
            "-m"@,
            "owner"@,
            "--uid-owner"@,
            decimal(a.uid as nat),
            "-j"@,
            "REDIRECT"@,
            "--to-port"@,
            decimal(listen_port as nat),
        ],
{
    let x = a.rule_args(Rule::Redirect, listen_port, ip_a, port_a);
    assert(x =~= seq![
        "-t"@,
        "nat"@,
        "-I"@,
        "OUTPUT"@,
        "1"@,
        "-p"@,
        "tcp"@,
        "-m"@,
        "owner"@,
        "--uid-owner"@,
        decimal(a.uid as nat),
        "-j"@,
        "REDIRECT"@,
        "--to-port"@,
        decimal(listen_port as nat),
    ]);
    assert(x =~= b.rule_args(Rule::Redirect, listen_port, ip_b, port_b));
}

/// Law: an exemption lets the TCP connections of the user ID pass that go to the proxy,
/// at its address and port, or to the loopback addresses of the family, at any port.
/// Neither depends on the listen port, and the one of the proxy not on the family.
pub proof fn law_exemptions_let_pass(
    table: Iptables,
    listen_port: u16,
    proxy_ip: Seq<char>,
    proxy_port: u16,
)
    ensures
        table.rule_args(Rule::ExemptProxy, listen_port, proxy_ip, proxy_port) == seq![
            "-t"@,
            "nat"@,
            "-I"@,
            "OUTPUT"@,
            "1"@,
            "-p"@,
            "tcp"@,
            "-m"@,
            "owner"@,
            "--uid-owner"@,
            decimal(table.uid as nat),
            "-d"@,
            proxy_ip,
            "--dport"@,
            decimal(proxy_port as nat),
            "-j"@,
            "RETURN"@,
        ],
        table.rule_args(Rule::ExemptLoopback, listen_port, proxy_ip, proxy_port) == seq![
            "-t"@,
            "nat"@,
            "-I"@,
            "OUTPUT"@,
            "1"@,
            "-p"@,
            "tcp"@,
            "-m"@,
            "owner"@,
            "--uid-owner"@,
            decimal(table.uid as nat),
            "-d"@,
            if table.ipv6 {
                "::1/128"@
            } else {
                "127.0.0.0/8"@
            },
            "-j"@,
            "RETURN"@,
        ],
{
    let x = table.rule_args(Rule::ExemptProxy, listen_port, proxy_ip, proxy_port);
    assert(x =~= seq![
        "-t"@,
        "nat"@,
        "-I"@,
        "OUTPUT"@,
        "1"@,
        "-p"@,
        "tcp"@,
        "-m"@,
        "owner"@,
        "--uid-owner"@,
        decimal(table.uid as nat),
        "-d"@,
        proxy_ip,
        "--dport"@,
        decimal(proxy_port as nat),
        "-j"@,
        "RETURN"@,
    ]);
    let y = table.rule_args(Rule::ExemptLoopback, listen_port, proxy_ip, proxy_port);
    assert(y =~= seq![
        "-t"@,
        "nat"@,
        "-I"@,
        "OUTPUT"@,
        "1"@,
        "-p"@,
        "tcp"@,
        "-m"@,
        "owner"@,
        "--uid-owner"@,
        decimal(table.uid as nat),
        "-d"@,
        if table.ipv6 {
            "::1/128"@
        } else {
            "127.0.0.0/8"@
        },
        "-j"@,
        "RETURN"@,
    ]);
}

/// Law: once the redirection stands, the loopback exemption is always run, and that of
/// the proxy for every address but the empty and the unspecified ones. Nothing but the
/// redirection is run where it fails.
pub proof fn law_which_exemptions_are_run(proxy_ip: Seq<char>, outcome: spec_fn(Rule) -> bool)
    ensures
        ({
            let run = applied(None, names_proxy(proxy_ip), outcome).0;
            &&& run[0] == Rule::Redirect
            &&& run.contains(Rule::ExemptLoopback) <==> outcome(Rule::Redirect)
            &&& run.contains(Rule::ExemptProxy) <==> outcome(Rule::Redirect) && proxy_ip.len() > 0
                && proxy_ip != "0.0.0.0"@ && proxy_ip != "::"@
            &&& forall|i: int, j: int| 0 <= i < j < run.len() ==> run[i] != run[j]
        }),
{
    law_redirection_decides(names_proxy(proxy_ip), outcome);
    let run = applied(None, names_proxy(proxy_ip), outcome).0;
    if outcome(Rule::Redirect) {
        assert(run[run.len() - 1] == Rule::ExemptLoopback);
        if names_proxy(proxy_ip) {
            assert(run[1] == Rule::ExemptProxy);
        }
    }
}

proof fn lemma_literal_words()
    ensures
        is_word("-A"@),
        is_word("OUTPUT"@),
        is_word("-p"@),
        is_word("tcp"@),
        is_word("-m"@),
        is_word("owner"@),
        is_word("--uid-owner"@),
        is_word("-j"@),
        is_word("REDIRECT"@),
        is_word("--to-port"@),
        is_word("-d"@),
        is_word("--dport"@),
        is_word("RETURN"@),
        is_word("::1/128"@),
        is_word("127.0.0.0/8"@),
{
    reveal_strlit("-A");
    reveal_strlit("OUTPUT");
    reveal_strlit("-p");
    reveal_strlit("tcp");
    reveal_strlit("-m");
    reveal_strlit("owner");
    reveal_strlit("--uid-owner");
    reveal_strlit("-j");
    reveal_strlit("REDIRECT");
    reveal_strlit("--to-port");
    reveal_strlit("-d");
    reveal_strlit("--dport");
    reveal_strlit("RETURN");
    reveal_strlit("::1/128");
    reveal_strlit("127.0.0.0/8");
}

proof fn lemma_decimal_word(n: nat)
    ensures
        is_word(decimal(n)),
{
    lemma_decimal(n);
}

proof fn lemma_listed_is_words(
    table: Iptables,
    rule: Rule,
    listen_port: u16,
    proxy_ip: Seq<char>,
    proxy_port: u16,
)
    requires
        is_word(proxy_ip),
    ensures
        forall|i: int|
            0 <= i < table.listed(rule, listen_port, proxy_ip, proxy_port).len() ==> is_word(
                #[trigger] table.listed(rule, listen_port, proxy_ip, proxy_port)[i],
            ),
{
    lemma_literal_words();
    lemma_decimal_word(table.uid as nat);
    lemma_decimal_word(listen_port as nat);
    lemma_decimal_word(proxy_port as nat);
}

/// Law: the line that lists a rule that was applied, its words joined by single spaces,
/// is found by the cleanup and deleted by those same words, with `-D` in place of `-A`.
pub proof fn law_listed_line_is_deleted(
    table: Iptables,
    rule: Rule,
    listen_port: u16,
    proxy_ip: Seq<char>,
    proxy_port: u16,
)
    requires
        is_word(proxy_ip),
    ensures
        ({
            let spec = table.rule_args(rule, listen_port, proxy_ip, proxy_port).skip(5);
            let line = joined(seq!["-A"@, "OUTPUT"@] + spec, ' ');
            &&& rule_is_for(line, table.uid as nat)
            &&& deletion_args(line) == seq!["-t"@, "nat"@, "-D"@, "OUTPUT"@] + spec
        }),
{
    let spec = table.rule_args(rule, listen_port, proxy_ip, proxy_port).skip(5);
    let w = table.listed(rule, listen_port, proxy_ip, proxy_port);
    let line = joined(w, ' ');
    lemma_listed_is_words(table, rule, listen_port, proxy_ip, proxy_port);
    law_joined_words_read_back(w);
    lemma_listed_owner(table, rule, listen_port, proxy_ip, proxy_port);
    law_deletion_undoes_append(line);
    assert(deletion_args(line) =~= seq!["-t"@, "nat"@, "-D"@, "OUTPUT"@] + spec);
}

/// Law: a listed rule with one owner, however it goes on, belongs to the user ID that is
/// written there and to no other, and it is deleted by its own words, whatever they hold.
pub proof fn law_line_with_owner(
    front: Seq<Seq<char>>,
    owner: nat,
    back: Seq<Seq<char>>,
    uid: nat,
)
    requires
        forall|i: int|
            0 <= i < front.len() ==> is_word(#[trigger] front[i]) && front[i] != "--uid-owner"@,
        forall|i: int|
            0 <= i < back.len() ==> is_word(#[trigger] back[i]) && back[i] != "--uid-owner"@,
    ensures
        ({
            let spec = front + seq!["--uid-owner"@, decimal(owner)] + back;
            let line = joined(seq!["-A"@] + spec, ' ');
            &&& rule_is_for(line, uid) == (uid == owner)
            &&& deletion_args(line) == seq!["-t"@, "nat"@, "-D"@] + spec
            &&& cleanup_args(seq![line], uid) == (if uid == owner {
                seq![seq!["-t"@, "nat"@, "-D"@] + spec]
            } else {
                seq![]
            })
        }),
{
    let spec = front + seq!["--uid-owner"@, decimal(owner)] + back;
    let w = seq!["-A"@] + spec;
    let line = joined(w, ' ');
    let k = front.len() as int + 1;
    lemma_literal_words();
    lemma_decimal_word(owner);
    lemma_decimal(owner);
    reveal_strlit("--uid-owner");
    reveal_strlit("-A");
    assert("--uid-owner"@.len() == 11 && "-A"@.len() == 2);
    assert("--uid-owner"@[0] == '-');
    assert(decimal(owner)[0] != '-');
    assert forall|i: int| 0 <= i < w.len() implies is_word(#[trigger] w[i]) && (w[i]
        == "--uid-owner"@ ==> i == k) by {
        if 1 <= i < k {
            assert(w[i] == front[i - 1]);
        } else if i >= k + 2 {
            assert(w[i] == back[i - k - 2]);
        }
    }
    law_joined_words_read_back(w);
    law_owner_is_exact(w, k, owner, uid);
    law_deletion_undoes_append(line);
    assert(w.skip(1) =~= spec);
    let one = seq![line];
    assert(one.drop_first() =~= seq![]);
    assert(cleanup_args(one.drop_first(), uid) == Seq::<Seq<Seq<char>>>::empty());
}

/// Law: running the cleanup on what the command writes leaves exactly the rules that are
/// not of the user ID, in order, however long the chain is. The command writes lines that
/// are no rules of the user ID, such as the policy, and then one line for each rule, made
/// of its words.
pub proof fn law_cleanup_of_a_listing(
    listing: Seq<u8>,
    header: Seq<Seq<char>>,
    ls: Seq<Seq<char>>,
    chain: Seq<Seq<Seq<char>>>,
    uid: nat,
)
    requires
        valid_utf8(listing),
        decode_utf8(listing) == lines_text(header + ls),
        forall|i: int|
            0 <= i < header.len() ==> is_line(#[trigger] header[i]) && !rule_is_for(header[i], uid),
        ls.len() == chain.len(),
        forall|i: int|
            0 <= i < ls.len() ==> is_line(#[trigger] ls[i]) && ls[i] == joined(chain[i], ' '),
        forall|i: int, j: int|
            0 <= i < chain.len() && 0 <= j < chain[i].len() ==> is_word(#[trigger] chain[i][j]),
        forall|i: int|
            0 <= i < chain.len() && owner_is(#[trigger] chain[i], decimal(uid)) ==> chain[i][0]
                == "-A"@,
    ensures
        after_commands(chain, cleanup_args(lines(text_of(listing)), uid)) == chain.filter(
            not_of(uid),
        ),
{
    let all = header + ls;
    assert forall|i: int| 0 <= i < all.len() implies is_line(#[trigger] all[i]) by {
        if i < header.len() {
            assert(all[i] == header[i]);
        } else {
            assert(all[i] == ls[i - header.len()]);
        }
    }
    law_lines_read_back(all);
    assert forall|i: int| 0 <= i < ls.len() implies words(#[trigger] ls[i]) == chain[i] by {
        assert(is_line(ls[i]));
        assert forall|j: int| 0 <= j < chain[i].len() implies is_word(#[trigger] chain[i][j]) by {}
        law_joined_words_read_back(chain[i]);
    }
    law_cleanup_leaves_other_rules(header, ls, chain, uid);
}

/// Law: what [`Iptables::apply`] asks for, step by step. The redirection comes first and
/// decides: nothing follows where it failed. Then comes the exemption of the proxy, unless
/// its address is empty or unspecified, and that of the loopback addresses, whatever
/// becomes of either.
pub proof fn law_steps_of_apply(
    table: &Iptables,
    listen_port: u16,
    proxy_ip: &str,
    proxy_port: u16,
    ok: bool,
    start: ApplyStep,
    failed: ApplyStep,
    redirected: ApplyStep,
    exempted: ApplyStep,
    end: ApplyStep,
)
    requires
        call_ensures(Iptables::apply, (table, listen_port, proxy_ip, proxy_port, None), start),
        call_ensures(
            Iptables::apply,
            (table, listen_port, proxy_ip, proxy_port, Some((Rule::Redirect, false))),
            failed,
        ),
        call_ensures(
            Iptables::apply,
            (table, listen_port, proxy_ip, proxy_port, Some((Rule::Redirect, true))),
            redirected,
        ),
        call_ensures(
            Iptables::apply,
            (table, listen_port, proxy_ip, proxy_port, Some((Rule::ExemptProxy, ok))),
            exempted,
        ),
        call_ensures(
            Iptables::apply,
            (table, listen_port, proxy_ip, proxy_port, Some((Rule::ExemptLoopback, ok))),
            end,
        ),
    ensures
        ({
            let head = seq![
                "-t"@,
                "nat"@,
                "-I"@,
                "OUTPUT"@,
                "1"@,
                "-p"@,
                "tcp"@,
                "-m"@,
                "owner"@,
                "--uid-owner"@,
                decimal(table.uid as nat),
            ];
            let loopback = head + seq![
                "-d"@,
                if table.ipv6 {
                    "::1/128"@
                } else {
                    "127.0.0.0/8"@
                },
                "-j"@,
                "RETURN"@,
            ];
            let named = proxy_ip@.len() > 0 && proxy_ip@ != "0.0.0.0"@ && proxy_ip@ != "::"@;
            &&& start matches ApplyStep::Run(rule, args) && rule == Rule::Redirect && string_views(
                args@,
            ) == head + seq!["-j"@, "REDIRECT"@, "--to-port"@, decimal(listen_port as nat)]
            &&& failed == ApplyStep::Done(false)
            &&& named ==> (redirected matches ApplyStep::Run(rule, args) && rule
                == Rule::ExemptProxy && string_views(args@) == head + seq![
                "-d"@,
                proxy_ip@,
                "--dport"@,
                decimal(proxy_port as nat),
                "-j"@,
                "RETURN"@,
            ])
            &&& !named ==> (redirected matches ApplyStep::Run(rule, args) && rule
                == Rule::ExemptLoopback && string_views(args@) == loopback)
            &&& exempted matches ApplyStep::Run(rule, args) && rule == Rule::ExemptLoopback
                && string_views(args@) == loopback
            &&& end == ApplyStep::Done(true)
        }),
{
}

/// Law: [`rule_matches_uid`] holds of a listed rule with one owner exactly where that is
/// the user ID, whatever else the rule says, and of no rule without an owner.
pub proof fn law_rule_matches_uid(
    line: &str,
    uid: u32,
    r: bool,
    front: Seq<Seq<char>>,
    owner: nat,
    back: Seq<Seq<char>>,
)
    requires
        call_ensures(rule_matches_uid, (line, uid), r),
        forall|i: int|
            0 <= i < front.len() ==> is_word(#[trigger] front[i]) && front[i] != "--uid-owner"@,
        forall|i: int|
            0 <= i < back.len() ==> is_word(#[trigger] back[i]) && back[i] != "--uid-owner"@,
    ensures
        line@ == joined(seq!["-A"@] + (front + seq!["--uid-owner"@, decimal(owner)] + back), ' ')
            ==> r == (uid == owner),
        line@ == joined(front, ' ') ==> !r,
{
    law_line_with_owner(front, owner, back, uid as nat);
    law_joined_words_read_back(front);
    lemma_no_owner(front, decimal(uid as nat));
}

/// Law: running what [`Iptables::cleanup`] returns leaves exactly the rules that are not of
/// the user ID, in order, for a chain of any length.
pub proof fn law_cleanup_removes_the_rules(
    table: &Iptables,
    listing: &[u8],
    r: Vec<Vec<String>>,
    header: Seq<Seq<char>>,
    ls: Seq<Seq<char>>,
    chain: Seq<Seq<Seq<char>>>,
)
    requires
        call_ensures(Iptables::cleanup, (table, listing), r),
        valid_utf8(listing@),
        decode_utf8(listing@) == lines_text(header + ls),
        forall|i: int|
            0 <= i < header.len() ==> is_line(#[trigger] header[i]) && !rule_is_for(
                header[i],
                table.uid as nat,
            ),
        ls.len() == chain.len(),
        forall|i: int|
            0 <= i < ls.len() ==> is_line(#[trigger] ls[i]) && ls[i] == joined(chain[i], ' '),
        forall|i: int, j: int|
            0 <= i < chain.len() && 0 <= j < chain[i].len() ==> is_word(#[trigger] chain[i][j]),
        forall|i: int|
            0 <= i < chain.len() && owner_is(#[trigger] chain[i], decimal(table.uid as nat))
                ==> chain[i][0] == "-A"@,
    ensures
        after_commands(chain, commands(r@)) == chain.filter(not_of(table.uid as nat)),
{
    law_cleanup_of_a_listing(listing@, header, ls, chain, table.uid as nat);
}

/// Law: [`Iptables::deletions`] of lines has one deletion for each rule of the user ID among
/// them, in order: the words of the line, with `-D` in place of the `-A` in front.
pub proof fn law_deletions_line_by_line(
    table: &Iptables,
    rules: &str,
    r: Vec<Vec<String>>,
    before: Seq<Seq<char>>,
    front: Seq<Seq<char>>,
    owner: nat,
    back: Seq<Seq<char>>,
    more: &str,
    s: Vec<Vec<String>>,
)
    requires
        call_ensures(Iptables::deletions, (table, rules), r),
        call_ensures(Iptables::deletions, (table, more), s),
        forall|i: int| 0 <= i < before.len() ==> is_line(#[trigger] before[i]),
        forall|i: int|
            0 <= i < front.len() ==> is_word(#[trigger] front[i]) && front[i] != "--uid-owner"@,
        forall|i: int|
            0 <= i < back.len() ==> is_word(#[trigger] back[i]) && back[i] != "--uid-owner"@,
        ({
            let spec = front + seq!["--uid-owner"@, decimal(owner)] + back;
            let line = joined(seq!["-A"@] + spec, ' ');
            is_line(line) && rules@ == lines_text(before) && more@ == lines_text(before.push(line))
        }),
    ensures
        commands(s@) == commands(r@) + (if owner == table.uid {
            seq![
                seq!["-t"@, "nat"@, "-D"@] + (front + seq!["--uid-owner"@, decimal(owner)] + back),
            ]
        } else {
            seq![]
        }),
{
    let spec = front + seq!["--uid-owner"@, decimal(owner)] + back;
    let line = joined(seq!["-A"@] + spec, ' ');
    let all = before.push(line);
    assert forall|i: int| 0 <= i < all.len() implies is_line(#[trigger] all[i]) by {
        if i < before.len() {
            assert(all[i] == before[i]);
        }
    }
    law_lines_read_back(before);
    law_lines_read_back(all);
    law_line_with_owner(front, owner, back, table.uid as nat);
    law_cleanup_of_joined_listings(before, seq![line], table.uid as nat);
    assert(all =~= before + seq![line]);
}

/// Law: the command is that of the family, and lists the chain that the rules are put in.
pub proof fn law_commands_of_a_table(table: &Iptables, name: &'static str, args: Vec<String>)
    requires
        call_ensures(Iptables::cmd_name, (table,), name),
        call_ensures(Iptables::list_args, (), args),
    ensures
        table.ipv6 ==> name@ == "ip6tables"@,
        !table.ipv6 ==> name@ == "iptables"@,
        string_views(args@) == seq!["-t"@, "nat"@, "-S"@, "OUTPUT"@],
{
}

} // verus!
