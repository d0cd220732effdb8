//! Names to addresses and user IDs.
use crate::addr::{SocketAddr, SocketAddrV4};
use crate::bytes::{read_text, text_of};
use crate::number::{
    decimal, law_decimal_reads_back, law_only_digits_are_numbers, lemma_decimal, opt_nat, parse_uint,
    push_decimal, uint_up_to,
};
use crate::text::{
    chars_of, fields, find, is_line, is_space, is_text, joined, law_joined_fields_read_back,
    law_lines_read_back, law_trimming, lemma_fields_cons, lemma_fields_one, lemma_until,
    lemma_until_is, lines, lines_text, push_text, split, split_lines, string_of, strip_prefix, trim,
    trimmed, until, views,
};
use vstd::prelude::*;
use vstd::slice::slice_subrange;
use vstd::utf8::{decode_utf8, valid_utf8};

verus! {

/// Why the address of the proxy was not resolved.
#[derive(Debug)]
pub enum ProxyResolveError {
    /// The lookup failed, with this message.
    Resolve(String),
    /// The lookup gave no IPv4 address.
    NoIpv4,
}

impl ProxyResolveError {
    /// The text of the error.
    pub open spec fn text(self) -> Seq<char> {
        match self {
            ProxyResolveError::Resolve(e) => "DNS resolution failed: "@ + e@,
            ProxyResolveError::NoIpv4 =>
            "no IPv4 address resolved (hostnames that resolve to IPv6-only are not supported)"@,
        }
    }

    /// The text of the error.
    pub fn message(&self) -> (r: String)
        ensures
            r@ == self.text(),
    {
        let mut out = String::new();
        match self {
            ProxyResolveError::Resolve(e) => {
                push_text(&mut out, "DNS resolution failed: ");
                push_text(&mut out, e.as_str());
            },
            ProxyResolveError::NoIpv4 => {
                push_text(
                    &mut out,
                    "no IPv4 address resolved (hostnames that resolve to IPv6-only are not supported)",
                );
            },
        }
        assert(out@ =~= self.text());
        out
    }
}

/// The first IPv4 address of a list.
pub open spec fn first_v4(addrs: Seq<SocketAddr>) -> Option<SocketAddrV4>
    decreases addrs.len(),
{
    if addrs.len() == 0 {
        None
    } else {
        match addrs[0] {
            SocketAddr::V4(a) => Some(a),
            SocketAddr::V6(_) => first_v4(addrs.drop_first()),
        }
    }
}

/// Picks the first IPv4 address; IPv6 addresses are skipped.
pub fn pick_ipv4(addrs: Vec<SocketAddr>) -> (r: Option<SocketAddrV4>)
    ensures
        r == first_v4(addrs@),
{
    let mut i: usize = 0;
    assert(addrs@.skip(0) =~= addrs@);
    while i < addrs.len()
        invariant
            i <= addrs@.len(),
            first_v4(addrs@) == first_v4(addrs@.skip(i as int)),
        decreases addrs@.len() - i,
    {
        assert(addrs@.skip(i as int).drop_first() =~= addrs@.skip(i + 1));
        match addrs[i] {
            SocketAddr::V4(a) => {
                return Some(a);
            },
            SocketAddr::V6(_) => {},
        }
        i += 1;
    }
    None
}

/// Whether the list holds an IPv6 address.
pub fn any_ipv6(addrs: Vec<SocketAddr>) -> (r: bool)
    ensures
        r == exists|i: int| 0 <= i < addrs@.len() && #[trigger] addrs@[i] is V6,
{
    let mut i: usize = 0;
    while i < addrs.len()
        invariant
            i <= addrs@.len(),
            forall|k: int| 0 <= k < i ==> !(#[trigger] addrs@[k] is V6),
        decreases addrs@.len() - i,
    {
        match addrs[i] {
            SocketAddr::V6(_) => {
                assert(addrs@[i as int] is V6);
                return true;
            },
            SocketAddr::V4(_) => {},
        }
        i += 1;
    }
    false
}

/// What to look up for a host and a port: `host:port`.
pub fn lookup_text(host: &str, port: u16) -> (r: String)
    ensures
        r@ == host@ + ":"@ + decimal(port as nat),
{
    let mut out = String::new();
    push_text(&mut out, host);
    push_text(&mut out, ":");
    push_decimal(&mut out, port as u64);
    assert(out@ =~= host@ + ":"@ + decimal(port as nat));
    out
}

/// The proxy address that a lookup of [`lookup_text`] gives: the first IPv4
/// address, or the reason why there is none. A failed lookup comes with its
/// message.
pub fn resolve_proxy_addr(lookup: Result<Vec<SocketAddr>, String>) -> (r: Result<
    SocketAddrV4,
    ProxyResolveError,
>)
    ensures
        match lookup {
            Err(e) => r matches Err(ProxyResolveError::Resolve(m)) && m@ == e@,
            Ok(addrs) => match first_v4(addrs@) {
                Some(a) => r == Ok::<SocketAddrV4, ProxyResolveError>(a),
                None => r == Err::<SocketAddrV4, ProxyResolveError>(ProxyResolveError::NoIpv4),
            },
        },
{
    match lookup {
        Err(e) => Err(ProxyResolveError::Resolve(e)),
        Ok(addrs) => match pick_ipv4(addrs) {
            Some(a) => Ok(a),
            None => Err(ProxyResolveError::NoIpv4),
        },
    }
}

/// The user ID in the field behind `uid:`: the first of a comma-separated list.
pub open spec fn uid_field(s: Seq<char>) -> Option<nat> {
    let list = trimmed(s);
    uint_up_to(list.take(until(list, ',') as int), 0xffff_ffff)
}

/// The user ID that a line `package:NAME uid:ID` gives for the package of exactly
/// that name.
pub open spec fn line_uid(package: Seq<char>, line: Seq<char>) -> Option<nat> {
    let rest = line.skip("package:"@.len() as int);
    let n = until(rest, ' ') as int;
    let field = rest.skip(n + 1);
    if "package:"@.is_prefix_of(line) && n < rest.len() && rest.take(n) == package
        && "uid:"@.is_prefix_of(field) {
        uid_field(field.skip("uid:"@.len() as int))
    } else {
        None
    }
}

/// The user ID that the first line with one gives for the package.
pub open spec fn lines_uid(package: Seq<char>, ls: Seq<Seq<char>>) -> Option<nat>
    decreases ls.len(),
{
    if ls.len() == 0 {
        None
    } else if line_uid(package, ls[0]) is Some {
        line_uid(package, ls[0])
    } else {
        lines_uid(package, ls.drop_first())
    }
}

fn read_line_uid(package: &str, line: &[char]) -> (r: Option<u32>)
    ensures
        opt_nat(r) == line_uid(package@, line@),
{
    let rest = match strip_prefix(line, "package:") {
        Some(rest) => rest,
        None => return None,
    };
    let space: usize = match find(rest, ' ') {
        Some(i) => i,
        None => return None,
    };
    let name = slice_subrange(rest, 0, space);
    assert(name@ =~= rest@.take(space as int));
    if !is_text(name, package) {
        return None;
    }
    assert(space < rest.len());
    let field = slice_subrange(rest, space + 1, rest.len());
    assert(field@ =~= rest@.skip(space + 1));
    let part = match strip_prefix(field, "uid:") {
        Some(part) => part,
        None => return None,
    };
    let list = trim(part);
    let end: usize = match find(list, ',') {
        Some(i) => i,
        None => list.len(),
    };
    let first = slice_subrange(list, 0, end);
    assert(first@ =~= list@.take(until(list@, ',') as int));
    parse_uint(first, 0xffff_ffff)
}

/// The user ID of a package, from the lines of `pm list packages -U`. The name
/// has to match exactly: `com.example.app` is not `com.example.app.debug`.
pub fn parse_uid_from_output(package: &str, stdout: &str) -> (r: Option<u32>)
    ensures
        opt_nat(r) == lines_uid(package@, lines(stdout@)),
{
    let cs = chars_of(stdout);
    let ls = split_lines(cs.as_slice());
    let ghost all = views(ls@);
    let mut i: usize = 0;
    assert(all.skip(0) =~= all);
    while i < ls.len()
        invariant
            i <= ls@.len(),
            all == views(ls@),
            all == lines(stdout@),
            lines_uid(package@, all) == lines_uid(package@, all.skip(i as int)),
        decreases ls@.len() - i,
    {
        let ghost rest = all.skip(i as int);
        assert(rest[0] == ls@[i as int]@);
        assert(rest.drop_first() =~= all.skip(i + 1));
        if let Some(uid) = read_line_uid(package, ls[i]) {
            return Some(uid);
        }
        i += 1;
    }
    None
}

/// What became of the command `pm list packages -U`.
#[derive(Debug, PartialEq, Eq)]
pub enum PmOutput {
    /// It did not run.
    NotRun,
    /// It ended, with success or not, and wrote this.
    Exited { success: bool, stdout: Vec<u8> },
}

/// The user ID of a package by the output of the command.
pub open spec fn pm_uid(package: Seq<char>, pm: PmOutput) -> Option<nat> {
    match pm {
        PmOutput::Exited { success, stdout } => if success {
            lines_uid(package, lines(text_of(stdout@)))
        } else {
            None
        },
        PmOutput::NotRun => None,
    }
}

/// The user ID of a package. There is none where the command did not succeed or
/// does not list the package.
pub fn resolve_uid(package: &str, pm: &PmOutput) -> (r: Option<u32>)
    ensures
        opt_nat(r) == pm_uid(package@, *pm),
{
    match pm {
        PmOutput::NotRun => None,
        PmOutput::Exited { success, stdout } => {
            if !*success {
                return None;
            }
            let text = read_text(stdout.as_slice());
            parse_uid_from_output(package, text.as_str())
        },
    }
}

/// The user IDs that comma-separated parts write, each with whitespace around it
/// or not; none where a part writes no user ID.
pub open spec fn part_uids(parts: Seq<Seq<char>>) -> Option<Seq<u32>>
    decreases parts.len(),
{
    if parts.len() == 0 {
        Some(seq![])
    } else {
        match (uint_up_to(trimmed(parts[0]), 0xffff_ffff), part_uids(parts.drop_first())) {
            (Some(n), Some(rest)) => Some(seq![n as u32] + rest),
            _ => None,
        }
    }
}

/// The user IDs that a target stands for: a package name, which holds a dot and
/// has the given user ID; a comma-separated list of user IDs; or one user ID.
pub open spec fn target_uids(target: Seq<char>, package_uid: Option<nat>) -> Option<Seq<u32>> {
    if target.contains('.') {
        match package_uid {
            Some(n) => Some(seq![n as u32]),
            None => None,
        }
    } else if target.contains(',') {
        part_uids(fields(target, ','))
    } else {
        match uint_up_to(target, 0xffff_ffff) {
            Some(n) => Some(seq![n as u32]),
            None => None,
        }
    }
}

proof fn lemma_until_contains(s: Seq<char>, c: char)
    ensures
        until(s, c) < s.len() <==> s.contains(c),
{
    lemma_until(s, c);
    if until(s, c) < s.len() {
        assert(s[until(s, c) as int] == c);
    }
}

fn holds(s: &[char], c: char) -> (r: bool)
    ensures
        r == s@.contains(c),
{
    proof {
        lemma_until_contains(s@, c);
    }
    find(s, c).is_some()
}

/// Whether the target is a package name, so that the output of the package
/// manager is needed to resolve it.
pub fn is_package(target: &str) -> (r: bool)
    ensures
        r == target@.contains('.'),
{
    let cs = chars_of(target);
    holds(cs.as_slice(), '.')
}

/// The user IDs that a target stands for, given the user ID of the package that it
/// names if it names one.
pub fn uids_of_target(target: &str, package_uid: Option<u32>) -> (r: Option<Vec<u32>>)
    ensures
        r is Some == target_uids(target@, opt_nat(package_uid)) is Some,
        r matches Some(uids) ==> target_uids(target@, opt_nat(package_uid)) == Some(uids@),
{
    let cs = chars_of(target);
    let s = cs.as_slice();
    let mut uids: Vec<u32> = Vec::new();
    if holds(s, '.') {
        match package_uid {
            Some(uid) => {
                uids.push(uid);
                assert(uids@ =~= seq![uid]);
                Some(uids)
            },
            None => None,
        }
    } else if holds(s, ',') {
        let parts = split(s, ',');
        let ghost all = views(parts@);
        let mut i: usize = 0;
        assert(all.skip(0) =~= all);
        assert(forall|rest: Seq<u32>| #[trigger] (uids@ + rest) =~= rest);
        while i < parts.len()
            invariant
                i <= parts@.len(),
                all == views(parts@),
                target_uids(target@, opt_nat(package_uid)) == part_uids(all),
                part_uids(all.skip(i as int)) is None ==> part_uids(all) is None,
                part_uids(all.skip(i as int)) matches Some(rest) ==> part_uids(all) == Some(
                    uids@ + rest,
                ),
            decreases parts@.len() - i,
        {
            let ghost rest = all.skip(i as int);
            assert(rest[0] == parts@[i as int]@);
            assert(rest.drop_first() =~= all.skip(i + 1));
            match parse_uint(trim(parts[i]), 0xffff_ffff) {
                Some(uid) => {
                    let ghost before = uids@;
                    uids.push(uid);
                    proof {
                        if let Some(tail) = part_uids(all.skip(i + 1)) {
                            assert(before + (seq![uid] + tail) =~= uids@ + tail);
                        }
                    }
                },
                None => {
                    return None;
                },
            }
            i += 1;
        }
        assert(all.skip(i as int).len() == 0);
        assert(uids@ + seq![] =~= uids@);
        Some(uids)
    } else {
        match parse_uint(s, 0xffff_ffff) {
            Some(uid) => {
                uids.push(uid);
                assert(uids@ =~= seq![uid]);
                Some(uids)
            },
            None => None,
        }
    }
}

/// Resolves a target into the list of user IDs that it stands for:
/// a package name (it holds a `.`), which the package manager's output resolves;
/// a single user ID; or several, separated by commas. There is none where a part
/// does not resolve.
pub fn resolve_target(target: &str, pm: &PmOutput) -> (r: Option<Vec<u32>>)
    ensures
        r is Some == target_uids(target@, pm_uid(target@, *pm)) is Some,
        r matches Some(uids) ==> target_uids(target@, pm_uid(target@, *pm)) == Some(uids@),
{
    let package_uid = if is_package(target) {
        resolve_uid(target, pm)
    } else {
        None
    };
    uids_of_target(target, package_uid)
}

/// Why a target stands for no user ID.
#[derive(Debug, PartialEq, Eq)]
pub enum TargetError {
    /// The package manager did not run.
    PmNotRun,
    /// The package manager failed.
    PmFailed,
    /// The package manager does not list the package.
    PackageNotFound,
    /// A part of a comma-separated list is blank.
    EmptyPart,
    /// A part of a comma-separated list, without the whitespace around it, is no
    /// user ID.
    BadPart(String),
    /// The target is neither a package name nor a user ID.
    BadTarget,
}

/// Why a target stands for no user ID, with the part in question as characters.
pub enum TargetProblem {
    PmNotRun,
    PmFailed,
    PackageNotFound,
    EmptyPart,
    BadPart(Seq<char>),
    BadTarget,
}

/// What is wrong with the first part that writes no user ID.
pub open spec fn parts_problem(parts: Seq<Seq<char>>) -> Option<TargetProblem>
    decreases parts.len(),
{
    if parts.len() == 0 {
        None
    } else {
        let t = trimmed(parts[0]);
        if t.len() == 0 {
            Some(TargetProblem::EmptyPart)
        } else if uint_up_to(t, 0xffff_ffff) is None {
            Some(TargetProblem::BadPart(t))
        } else {
            parts_problem(parts.drop_first())
        }
    }
}

/// What keeps a target from being resolved; none where it stands for user IDs.
pub open spec fn target_problem(target: Seq<char>, pm: PmOutput) -> Option<TargetProblem> {
    if target.contains('.') {
        match pm {
            PmOutput::NotRun => Some(TargetProblem::PmNotRun),
            PmOutput::Exited { success, stdout } => if !success {
                Some(TargetProblem::PmFailed)
            } else if pm_uid(target, pm) is None {
                Some(TargetProblem::PackageNotFound)
            } else {
                None
            },
        }
    } else if target.contains(',') {
        parts_problem(fields(target, ','))
    } else if uint_up_to(target, 0xffff_ffff) is None {
        Some(TargetProblem::BadTarget)
    } else {
        None
    }
}

impl TargetError {
    /// The problem that the error names.
    pub open spec fn problem(self) -> TargetProblem {
        match self {
            TargetError::PmNotRun => TargetProblem::PmNotRun,
            TargetError::PmFailed => TargetProblem::PmFailed,
            TargetError::PackageNotFound => TargetProblem::PackageNotFound,
            TargetError::EmptyPart => TargetProblem::EmptyPart,
            TargetError::BadPart(part) => TargetProblem::BadPart(part@),
            TargetError::BadTarget => TargetProblem::BadTarget,
        }
    }

    /// The text of the error.
    pub open spec fn text(self) -> Seq<char> {
        match self {
            TargetError::PmNotRun => "failed to execute `pm list packages -U`"@,
            TargetError::PmFailed => "`pm list packages -U` exited with error"@,
            TargetError::PackageNotFound =>
            "package not found in `pm list packages -U` output"@,
            TargetError::EmptyPart => "empty UID in comma-separated list"@,
            TargetError::BadPart(_) => "invalid UID in comma-separated list"@,
            TargetError::BadTarget => "target is not a valid UID or package name"@,
        }
    }

    /// The text of the error.
    pub fn message(&self) -> (r: &'static str)
        ensures
            r@ == self.text(),
    {
        match self {
            TargetError::PmNotRun => "failed to execute `pm list packages -U`",
            TargetError::PmFailed => "`pm list packages -U` exited with error",
            TargetError::PackageNotFound => "package not found in `pm list packages -U` output",
            TargetError::EmptyPart => "empty UID in comma-separated list",
            TargetError::BadPart(_) => "invalid UID in comma-separated list",
            TargetError::BadTarget => "target is not a valid UID or package name",
        }
    }
}

/// Why [`resolve_target`] gives nothing; none where it gives user IDs.
pub fn target_error(target: &str, pm: &PmOutput) -> (r: Option<TargetError>)
    ensures
        r is Some == target_problem(target@, *pm) is Some,
        r matches Some(e) ==> target_problem(target@, *pm) == Some(e.problem()),
{
    let cs = chars_of(target);
    let s = cs.as_slice();
    if holds(s, '.') {
        match pm {
            PmOutput::NotRun => Some(TargetError::PmNotRun),
            PmOutput::Exited { success, stdout: _ } => {
                if !*success {
                    return Some(TargetError::PmFailed);
                }
                match resolve_uid(target, pm) {
                    Some(_) => None,
                    None => Some(TargetError::PackageNotFound),
                }
            },
        }
    } else if holds(s, ',') {
        let parts = split(s, ',');
        let ghost all = views(parts@);
        let mut i: usize = 0;
        assert(all.skip(0) =~= all);
        while i < parts.len()
            invariant
                i <= parts@.len(),
                all == views(parts@),
                target_problem(target@, *pm) == parts_problem(all),
                parts_problem(all) == parts_problem(all.skip(i as int)),
            decreases parts@.len() - i,
        {
            let ghost rest = all.skip(i as int);
            assert(rest[0] == parts@[i as int]@);
            assert(rest.drop_first() =~= all.skip(i + 1));
            let part = trim(parts[i]);
            if part.len() == 0 {
                return Some(TargetError::EmptyPart);
            }
            if parse_uint(part, 0xffff_ffff).is_none() {
                return Some(TargetError::BadPart(string_of(part)));
            }
            i += 1;
        }
        assert(all.skip(i as int).len() == 0);
        None
    } else if parse_uint(s, 0xffff_ffff).is_none() {
        Some(TargetError::BadTarget)
    } else {
        None
    }
}

proof fn lemma_parts_problem(parts: Seq<Seq<char>>)
    ensures
        parts_problem(parts) is None <==> part_uids(parts) is Some,
    decreases parts.len(),
{
    if parts.len() > 0 {
        lemma_parts_problem(parts.drop_first());
    }
}

/// Law: a target either stands for user IDs or has a problem that is named, never
/// both.
pub proof fn law_unresolved_target_has_a_reason(target: Seq<char>, pm: PmOutput)
    ensures
        target_problem(target, pm) is None <==> target_uids(target, pm_uid(target, pm)) is Some,
{
    lemma_parts_problem(fields(target, ','));
}

/// Law: a list has no IPv4 address to pick exactly where all its addresses are
/// IPv6, and the picked one is the first.
pub proof fn law_picked_address_is_first_v4(addrs: Seq<SocketAddr>)
    ensures
        first_v4(addrs) is None <==> (forall|i: int|
            0 <= i < addrs.len() ==> #[trigger] addrs[i] is V6),
        first_v4(addrs) matches Some(a) ==> exists|i: int|
            0 <= i < addrs.len() && #[trigger] addrs[i] == SocketAddr::V4(a) && (forall|j: int|
                0 <= j < i ==> #[trigger] addrs[j] is V6),
    decreases addrs.len(),
{
    if addrs.len() > 0 {
        let rest = addrs.drop_first();
        law_picked_address_is_first_v4(rest);
        match addrs[0] {
            SocketAddr::V4(a) => {
                assert(addrs[0] == SocketAddr::V4(a));
            },
            SocketAddr::V6(_) => {
                assert(forall|i: int| 0 <= i < rest.len() ==> rest[i] == addrs[i + 1]);
                if let Some(a) = first_v4(addrs) {
                    let i = choose|i: int|
                        0 <= i < rest.len() && #[trigger] rest[i] == SocketAddr::V4(a) && (forall|
                            j: int,
                        |
                            0 <= j < i ==> #[trigger] rest[j] is V6);
                    assert(addrs[i + 1] == SocketAddr::V4(a));
                    assert forall|j: int| 0 <= j < i + 1 implies #[trigger] addrs[j] is V6 by {
                        if j > 0 {
                            assert(rest[j - 1] == addrs[j]);
                        }
                    }
                } else {
                    assert forall|i: int| 0 <= i < addrs.len() implies #[trigger] addrs[i] is V6 by {
                        if i > 0 {
                            assert(rest[i - 1] == addrs[i]);
                        }
                    }
                }
            },
        }
    }
}

/// A text without whitespace at its ends is its own trimmed form.
proof fn lemma_trimmed_same(s: Seq<char>)
    requires
        forall|k: int| 0 <= k < s.len() ==> !is_space(#[trigger] s[k]),
    ensures
        trimmed(s) == s,
{
    if s.len() > 0 {
        assert(!is_space(s[0]));
        assert(!is_space(s[s.len() - 1]));
    }
}

/// Law: a line of the package list gives its user ID to the package of exactly its
/// name, and to no other; further user IDs behind a comma do not count.
pub proof fn law_package_line(package: Seq<char>, name: Seq<char>, uid: nat, more: Seq<char>)
    requires
        forall|k: int| 0 <= k < name.len() ==> #[trigger] name[k] != ' ',
        uid <= 0xffff_ffff,
        forall|k: int| 0 <= k < more.len() ==> !is_space(#[trigger] more[k]),
        more.len() > 0 ==> more[0] == ',',
    ensures
        line_uid(package, "package:"@ + name + " uid:"@ + decimal(uid) + more) == (if name
            == package {
            Some(uid)
        } else {
            None
        }),
{
    reveal_strlit("package:");
    reveal_strlit("uid:");
    reveal_strlit(" uid:");
    lemma_decimal(uid);
    law_decimal_reads_back(uid);
    let list = decimal(uid) + more;
    let line = "package:"@ + name + " uid:"@ + decimal(uid) + more;
    let rest = line.skip("package:"@.len() as int);
    assert(rest =~= name + " uid:"@ + list);
    assert forall|k: int| 0 <= k < name.len() implies #[trigger] rest[k] != ' ' by {
        assert(rest[k] == name[k]);
    }
    assert(rest[name.len() as int] == " uid:"@[0]);
    lemma_until_is(rest, ' ', name.len() as int);
    assert(rest.take(name.len() as int) =~= name);
    let field = rest.skip(name.len() as int + 1);
    assert(field =~= "uid:"@ + list);
    assert(field.skip("uid:"@.len() as int) =~= list);
    assert forall|k: int| 0 <= k < list.len() implies !is_space(#[trigger] list[k]) by {
        if k < decimal(uid).len() {
            assert(list[k] == decimal(uid)[k]);
        } else {
            assert(list[k] == more[k - decimal(uid).len()]);
        }
    }
    lemma_trimmed_same(list);
    let n = decimal(uid).len() as int;
    assert forall|k: int| 0 <= k < n implies #[trigger] list[k] != ',' by {
        assert(list[k] == decimal(uid)[k]);
    }
    lemma_until_is(list, ',', n);
    assert(list.take(n) =~= decimal(uid));
}

/// The user IDs in decimal, with commas between them.
pub open spec fn uid_list(uids: Seq<u32>) -> Seq<char>
    decreases uids.len(),
{
    if uids.len() == 0 {
        seq![]
    } else if uids.len() == 1 {
        decimal(uids[0] as nat)
    } else {
        decimal(uids[0] as nat) + seq![','] + uid_list(uids.drop_first())
    }
}

proof fn lemma_uid_list(uids: Seq<u32>)
    requires
        uids.len() > 0,
    ensures
        part_uids(fields(uid_list(uids), ',')) == Some(uids),
        !uid_list(uids).contains('.'),
        uids.len() > 1 ==> uid_list(uids).contains(','),
    decreases uids.len(),
{
    let d = decimal(uids[0] as nat);
    let rest = uids.drop_first();
    lemma_decimal(uids[0] as nat);
    law_decimal_reads_back(uids[0] as nat);
    lemma_trimmed_same(d);
    if uids.len() == 1 {
        lemma_fields_one(d, ',');
        let f = fields(d, ',');
        assert(f.drop_first() =~= seq![]);
        assert(part_uids(f.drop_first()) == Some(Seq::<u32>::empty()));
        assert(seq![uids[0]] + Seq::<u32>::empty() =~= uids);
    } else {
        lemma_uid_list(rest);
        let t = uid_list(rest);
        let s = d + seq![','] + t;
        lemma_fields_cons(d, ',', t);
        let f = fields(s, ',');
        assert(f[0] == d);
        assert(f.drop_first() =~= fields(t, ','));
        assert(seq![uids[0]] + rest =~= uids);
        assert(s[d.len() as int] == ',');
        assert forall|k: int| 0 <= k < s.len() implies #[trigger] s[k] != '.' by {
            if k < d.len() {
                assert(s[k] == d[k]);
            } else if k > d.len() {
                assert(s[k] == t[k - d.len() - 1]);
                assert(t.contains(s[k]));
            }
        }
    }
}

/// Law: user IDs that are written with commas between them are read back, in
/// order, whatever the package manager says.
pub proof fn law_uid_list_reads_back(uids: Seq<u32>, package_uid: Option<nat>)
    requires
        uids.len() > 0,
    ensures
        target_uids(uid_list(uids), package_uid) == Some(uids),
{
    lemma_uid_list(uids);
    if uids.len() == 1 {
        let d = decimal(uids[0] as nat);
        lemma_decimal(uids[0] as nat);
        law_decimal_reads_back(uids[0] as nat);
        assert(seq![uids[0]] =~= uids);
        assert(!d.contains(','));
    }
}

/// Law: a target without a dot does not depend on the package manager.
pub proof fn law_only_packages_need_the_package_manager(
    target: Seq<char>,
    a: Option<nat>,
    b: Option<nat>,
)
    requires
        !target.contains('.'),
    ensures
        target_uids(target, a) == target_uids(target, b),
{
}

/// Whether a line of the package list speaks of the package: it starts with its name,
/// behind `package:` and in front of a space.
pub open spec fn speaks_of(line: Seq<char>, package: Seq<char>) -> bool {
    ("package:"@ + package + " "@).is_prefix_of(line)
}

proof fn lemma_line_of_another(package: Seq<char>, line: Seq<char>)
    requires
        !speaks_of(line, package),
    ensures
        line_uid(package, line) is None,
{
    reveal_strlit("package:");
    reveal_strlit(" ");
    if line_uid(package, line) is Some {
        let rest = line.skip("package:"@.len() as int);
        let n = until(rest, ' ') as int;
        lemma_until(rest, ' ');
        let head = "package:"@ + package + " "@;
        let p = "package:"@.len() as int;
        assert(rest.take(n) == package);
        assert(n == package.len());
        assert forall|k: int| 0 <= k < head.len() implies #[trigger] head[k] == line[k] by {
            if k < p {
                assert("package:"@[k] == line.take(p)[k]);
            } else if k < p + n {
                assert(rest.take(n)[k - p] == line[k]);
            } else {
                assert(rest[n] == line[k]);
            }
        }
        assert(head =~= line.take(head.len() as int));
    }
}

proof fn lemma_first_line_counts(package: Seq<char>, ls: Seq<Seq<char>>, i: int)
    requires
        0 <= i < ls.len(),
        line_uid(package, ls[i]) is Some,
        forall|j: int| 0 <= j < i ==> !speaks_of(#[trigger] ls[j], package),
    ensures
        lines_uid(package, ls) == line_uid(package, ls[i]),
    decreases ls.len(),
{
    if i > 0 {
        lemma_line_of_another(package, ls[0]);
        let rest = ls.drop_first();
        assert(rest[i - 1] == ls[i]);
        assert forall|j: int| 0 <= j < i - 1 implies !speaks_of(#[trigger] rest[j], package) by {
            assert(rest[j] == ls[j + 1]);
        }
        lemma_first_line_counts(package, rest, i - 1);
    }
}

proof fn lemma_no_line_counts(package: Seq<char>, ls: Seq<Seq<char>>)
    requires
        forall|j: int| 0 <= j < ls.len() ==> !speaks_of(#[trigger] ls[j], package),
    ensures
        lines_uid(package, ls) is None,
    decreases ls.len(),
{
    if ls.len() > 0 {
        lemma_line_of_another(package, ls[0]);
        let rest = ls.drop_first();
        assert forall|j: int| 0 <= j < rest.len() implies !speaks_of(#[trigger] rest[j], package) by {
            assert(rest[j] == ls[j + 1]);
        }
        lemma_no_line_counts(package, rest);
    }
}

/// Law: a package that the package manager lists has the user ID of the first line with
/// its name, whatever other lines stand before and behind it and however many there are.
/// Further user IDs behind a comma do not count. A target that is the name of the package
/// stands for this user ID.
pub proof fn law_listed_package_is_resolved(
    package: Seq<char>,
    stdout: Vec<u8>,
    ls: Seq<Seq<char>>,
    i: int,
    uid: u32,
    more: Seq<char>,
)
    requires
        valid_utf8(stdout@),
        decode_utf8(stdout@) == lines_text(ls),
        forall|j: int| 0 <= j < ls.len() ==> is_line(#[trigger] ls[j]),
        !package.contains(' '),
        0 <= i < ls.len(),
        ls[i] == "package:"@ + package + " uid:"@ + decimal(uid as nat) + more,
        forall|k: int| 0 <= k < more.len() ==> !is_space(#[trigger] more[k]),
        more.len() > 0 ==> more[0] == ',',
        forall|j: int| 0 <= j < i ==> !speaks_of(#[trigger] ls[j], package),
    ensures
        pm_uid(package, PmOutput::Exited { success: true, stdout }) == Some(uid as nat),
        package.contains('.') ==> target_uids(
            package,
            pm_uid(package, PmOutput::Exited { success: true, stdout }),
        ) == Some(seq![uid]),
{
    law_lines_read_back(ls);
    assert forall|k: int| 0 <= k < package.len() implies #[trigger] package[k] != ' ' by {
        assert(package.contains(package[k]));
    }
    law_package_line(package, package, uid as nat, more);
    lemma_first_line_counts(package, ls, i);
}

/// Law: a package that no line names is not resolved, however long the list is.
pub proof fn law_unlisted_package_is_not_resolved(
    package: Seq<char>,
    stdout: Vec<u8>,
    ls: Seq<Seq<char>>,
)
    requires
        valid_utf8(stdout@),
        decode_utf8(stdout@) == lines_text(ls),
        forall|j: int| 0 <= j < ls.len() ==> is_line(#[trigger] ls[j]),
        forall|j: int| 0 <= j < ls.len() ==> !speaks_of(#[trigger] ls[j], package),
    ensures
        pm_uid(package, PmOutput::Exited { success: true, stdout }) is None,
{
    law_lines_read_back(ls);
    lemma_no_line_counts(package, ls);
}

/// Law: where the package manager did not run or failed, no package is resolved, and the
/// reason is named.
pub proof fn law_failed_package_manager(target: Seq<char>, stdout: Vec<u8>)
    requires
        target.contains('.'),
    ensures
        target_uids(target, pm_uid(target, PmOutput::NotRun)) is None,
        target_problem(target, PmOutput::NotRun) == Some(TargetProblem::PmNotRun),
        target_uids(target, pm_uid(target, PmOutput::Exited { success: false, stdout })) is None,
        target_problem(target, PmOutput::Exited { success: false, stdout }) == Some(
            TargetProblem::PmFailed,
        ),
{
}

/// Law: the package manager listing package after package resolves each of them: `names`
/// and `uids` are what it lists, line by line.
pub proof fn law_package_list_reads_back(
    package: Seq<char>,
    stdout: Vec<u8>,
    names: Seq<Seq<char>>,
    uids: Seq<u32>,
)
    requires
        names.len() == uids.len(),
        valid_utf8(stdout@),
        decode_utf8(stdout@) == lines_text(package_lines(names, uids)),
        !package.contains(' '),
        forall|j: int|
            0 <= j < names.len() ==> !(#[trigger] names[j]).contains(' ') && !names[j].contains(
                '\n',
            ),
    ensures
        names.contains(package) <==> pm_uid(
            package,
            PmOutput::Exited { success: true, stdout },
        ) is Some,
        forall|i: int|
            0 <= i < names.len() && #[trigger] names[i] == package && (forall|j: int|
                0 <= j < i ==> names[j] != package) ==> pm_uid(
                package,
                PmOutput::Exited { success: true, stdout },
            ) == Some(uids[i] as nat),
{
    let ls = package_lines(names, uids);
    let none = Seq::<char>::empty();
    assert forall|j: int| 0 <= j < ls.len() implies is_line(#[trigger] ls[j]) && (speaks_of(
        ls[j],
        package,
    ) <==> names[j] == package) by {
        lemma_package_line_is_line(names[j], uids[j] as nat, package);
    }
    assert forall|i: int|
        0 <= i < names.len() && #[trigger] names[i] == package && (forall|j: int|
            0 <= j < i ==> names[j] != package) implies pm_uid(
        package,
        PmOutput::Exited { success: true, stdout },
    ) == Some(uids[i] as nat) by {
        assert(ls[i] =~= "package:"@ + package + " uid:"@ + decimal(uids[i] as nat) + none);
        assert forall|j: int| 0 <= j < i implies !speaks_of(#[trigger] ls[j], package) by {
            assert(names[j] != package);
        }
        law_listed_package_is_resolved(package, stdout, ls, i, uids[i], none);
    }
    if names.contains(package) {
        lemma_first_index(names, package);
        let i = choose|i: int|
            0 <= i < names.len() && #[trigger] names[i] == package && (forall|j: int|
                0 <= j < i ==> names[j] != package);
        assert(names[i] == package);
    } else {
        assert forall|j: int| 0 <= j < ls.len() implies !speaks_of(#[trigger] ls[j], package) by {
            assert(names.contains(names[j]));
        }
        law_unlisted_package_is_not_resolved(package, stdout, ls);
    }
}

/// The lines of a package list.
pub open spec fn package_lines(names: Seq<Seq<char>>, uids: Seq<u32>) -> Seq<Seq<char>> {
    Seq::new(
        names.len(),
        |i: int| "package:"@ + names[i] + " uid:"@ + decimal(uids[i] as nat),
    )
}

proof fn lemma_first_index(names: Seq<Seq<char>>, name: Seq<char>)
    requires
        names.contains(name),
    ensures
        exists|i: int|
            0 <= i < names.len() && #[trigger] names[i] == name && (forall|j: int|
                0 <= j < i ==> names[j] != name),
    decreases names.len(),
{
    let front = names.drop_last();
    if front.contains(name) {
        lemma_first_index(front, name);
        let i = choose|i: int|
            0 <= i < front.len() && #[trigger] front[i] == name && (forall|j: int|
                0 <= j < i ==> front[j] != name);
        assert(names[i] == name);
        assert forall|j: int| 0 <= j < i implies names[j] != name by {
            assert(front[j] == names[j]);
        }
    } else {
        let i = names.len() - 1;
        assert forall|j: int| 0 <= j < i implies names[j] != name by {
            assert(front[j] == names[j]);
            assert(front.contains(front[j]));
        }
        let k = choose|k: int| 0 <= k < names.len() && names[k] == name;
        assert(k == i);
        assert(names[i] == name);
    }
}

proof fn lemma_package_line_is_line(name: Seq<char>, uid: nat, package: Seq<char>)
    requires
        !name.contains(' '),
        !name.contains('\n'),
        !package.contains(' '),
    ensures
        is_line("package:"@ + name + " uid:"@ + decimal(uid)),
        speaks_of("package:"@ + name + " uid:"@ + decimal(uid), package) <==> name == package,
{
    reveal_strlit("package:");
    reveal_strlit(" uid:");
    reveal_strlit(" ");
    lemma_decimal(uid);
    let line = "package:"@ + name + " uid:"@ + decimal(uid);
    let p = "package:"@.len() as int;
    let q = p + name.len();
    let d = q + " uid:"@.len();
    assert(p == 8 && " uid:"@.len() == 5);
    assert forall|k: int| 0 <= k < line.len() implies #[trigger] line[k] != '\n' by {
        if k < p {
            assert(line[k] == "package:"@[k]);
        } else if k < q {
            assert(line[k] == name[k - p]);
            assert(name.contains(name[k - p]));
        } else if k < d {
            assert(line[k] == " uid:"@[k - q]);
        } else {
            assert(line[k] == decimal(uid)[k - d]);
        }
    }
    assert(line.last() == decimal(uid)[decimal(uid).len() - 1]);
    let head = "package:"@ + package + " "@;
    assert(line[q] == " uid:"@[0]);
    if speaks_of(line, package) {
        assert(head =~= line.take(head.len() as int));
        let m = p + package.len();
        assert(head[m] == ' ');
        assert(line[m] == line.take(head.len() as int)[m]);
        if m < q {
            assert(line[m] == name[m - p]);
            assert(name.contains(name[m - p]));
        }
        if q < m {
            assert(head[q] == package[q - p]);
            assert(line[q] == line.take(head.len() as int)[q]);
            assert(package.contains(package[q - p]));
        }
        assert forall|k: int| 0 <= k < name.len() implies #[trigger] name[k] == package[k] by {
            assert(line[p + k] == name[k]);
            assert(line.take(head.len() as int)[p + k] == head[p + k]);
        }
        assert(name =~= package);
    }
    if name == package {
        assert(head =~= line.take(head.len() as int));
    }
}

/// Law: user IDs that are written with commas between them are read back, in order, with
/// any whitespace around them.
pub proof fn law_uid_parts_read_back(parts: Seq<Seq<char>>, uids: Seq<u32>)
    requires
        parts.len() == uids.len(),
        uids.len() >= 2,
        forall|i: int| 0 <= i < parts.len() ==> writes_uid(#[trigger] parts[i], uids[i]),
    ensures
        target_uids(joined(parts, ','), None) == Some(uids),
{
    assert forall|i: int| 0 <= i < parts.len() implies !(#[trigger] parts[i]).contains(',')
        && !parts[i].contains('.') by {
        lemma_uid_part(parts[i], uids[i]);
    }
    law_joined_fields_read_back(parts, ',');
    lemma_joined_chars(parts, ',', '.');
    lemma_parts_write(parts, uids);
    let s = joined(parts, ',');
    assert(s[parts[0].len() as int] == ',');
}

/// Whether a part is a user ID in decimal with whitespace around it.
pub open spec fn writes_uid(part: Seq<char>, uid: u32) -> bool {
    exists|a: Seq<char>, b: Seq<char>|
        part == #[trigger] (a + decimal(uid as nat) + b) && (forall|k: int|
            0 <= k < a.len() ==> is_space(#[trigger] a[k])) && (forall|k: int|
            0 <= k < b.len() ==> is_space(#[trigger] b[k]))
}

proof fn lemma_uid_part(part: Seq<char>, uid: u32)
    requires
        writes_uid(part, uid),
    ensures
        trimmed(part) == decimal(uid as nat),
        !part.contains(','),
        !part.contains('.'),
{
    let d = decimal(uid as nat);
    let (a, b) = choose|a: Seq<char>, b: Seq<char>|
        part == #[trigger] (a + d + b) && (forall|k: int|
            0 <= k < a.len() ==> is_space(#[trigger] a[k])) && (forall|k: int|
            0 <= k < b.len() ==> is_space(#[trigger] b[k]));
    lemma_decimal(uid as nat);
    assert(d.last() == d[d.len() - 1]);
    law_trimming(a, d, b);
    assert forall|k: int| 0 <= k < part.len() implies #[trigger] part[k] != ',' && part[k] != '.' by {
        if k < a.len() {
            assert(part[k] == a[k]);
        } else if k < a.len() + d.len() {
            assert(part[k] == d[k - a.len()]);
        } else {
            assert(part[k] == b[k - a.len() - d.len()]);
        }
    }
}

proof fn lemma_joined_chars(parts: Seq<Seq<char>>, sep: char, c: char)
    requires
        sep != c,
        forall|i: int| 0 <= i < parts.len() ==> !(#[trigger] parts[i]).contains(c),
    ensures
        !joined(parts, sep).contains(c),
    decreases parts.len(),
{
    if parts.len() > 1 {
        let rest = parts.drop_first();
        assert forall|i: int| 0 <= i < rest.len() implies !(#[trigger] rest[i]).contains(c) by {
            assert(rest[i] == parts[i + 1]);
        }
        lemma_joined_chars(rest, sep, c);
        let first = parts[0];
        let t = joined(rest, sep);
        let s = first + seq![sep] + t;
        assert forall|k: int| 0 <= k < s.len() implies #[trigger] s[k] != c by {
            if k < first.len() {
                assert(s[k] == first[k]);
                assert(first.contains(first[k]));
            } else if k > first.len() {
                assert(s[k] == t[k - first.len() - 1]);
                assert(t.contains(t[k - first.len() - 1]));
            }
        }
    }
}

proof fn lemma_parts_write(parts: Seq<Seq<char>>, uids: Seq<u32>)
    requires
        parts.len() == uids.len(),
        forall|i: int| 0 <= i < parts.len() ==> writes_uid(#[trigger] parts[i], uids[i]),
    ensures
        part_uids(parts) == Some(uids),
    decreases parts.len(),
{
    if parts.len() == 0 {
        assert(uids =~= seq![]);
    } else {
        let rest = parts.drop_first();
        let more = uids.drop_first();
        assert forall|i: int| 0 <= i < rest.len() implies writes_uid(#[trigger] rest[i], more[i]) by {
            assert(writes_uid(parts[i + 1], uids[i + 1]));
        }
        lemma_parts_write(rest, more);
        lemma_uid_part(parts[0], uids[0]);
        law_decimal_reads_back(uids[0] as nat);
        assert(seq![uids[0]] + more =~= uids);
    }
}

/// Law: one part that is no user ID spoils a list, and the first such part is named: as
/// empty where it is blank, and by its text where it is not.
pub proof fn law_bad_part_is_named(
    parts: Seq<Seq<char>>,
    uids: Seq<u32>,
    bad: Seq<char>,
    more: Seq<Seq<char>>,
    package_uid: Option<nat>,
    pm: PmOutput,
)
    requires
        parts.len() == uids.len(),
        parts.len() + more.len() > 0,
        forall|i: int| 0 <= i < parts.len() ==> writes_uid(#[trigger] parts[i], uids[i]),
        uint_up_to(trimmed(bad), 0xffff_ffff) is None,
        !bad.contains(','),
        !bad.contains('.'),
        forall|i: int|
            0 <= i < more.len() ==> !(#[trigger] more[i]).contains(',') && !more[i].contains('.'),
    ensures
        target_uids(joined(parts + seq![bad] + more, ','), package_uid) is None,
        target_problem(joined(parts + seq![bad] + more, ','), pm) == Some(
            if trimmed(bad).len() == 0 {
                TargetProblem::EmptyPart
            } else {
                TargetProblem::BadPart(trimmed(bad))
            },
        ),
{
    let all = parts + seq![bad] + more;
    let s = joined(all, ',');
    assert forall|i: int| 0 <= i < all.len() implies !(#[trigger] all[i]).contains(',')
        && !all[i].contains('.') by {
        if i < parts.len() {
            assert(all[i] == parts[i]);
            lemma_uid_part(parts[i], uids[i]);
        } else if i > parts.len() {
            assert(all[i] == more[i - parts.len() - 1]);
        }
    }
    law_joined_fields_read_back(all, ',');
    lemma_joined_chars(all, ',', '.');
    assert(s[all[0].len() as int] == ',');
    lemma_bad_part(parts, uids, bad, more);
}

proof fn lemma_bad_part(
    parts: Seq<Seq<char>>,
    uids: Seq<u32>,
    bad: Seq<char>,
    more: Seq<Seq<char>>,
)
    requires
        parts.len() == uids.len(),
        forall|i: int| 0 <= i < parts.len() ==> writes_uid(#[trigger] parts[i], uids[i]),
        uint_up_to(trimmed(bad), 0xffff_ffff) is None,
    ensures
        part_uids(parts + seq![bad] + more) is None,
        parts_problem(parts + seq![bad] + more) == Some(
            if trimmed(bad).len() == 0 {
                TargetProblem::EmptyPart
            } else {
                TargetProblem::BadPart(trimmed(bad))
            },
        ),
    decreases parts.len(),
{
    let all = parts + seq![bad] + more;
    if parts.len() > 0 {
        let rest = parts.drop_first();
        let tail = uids.drop_first();
        assert forall|i: int| 0 <= i < rest.len() implies writes_uid(#[trigger] rest[i], tail[i]) by {
            assert(writes_uid(parts[i + 1], uids[i + 1]));
        }
        lemma_bad_part(rest, tail, bad, more);
        assert(all.drop_first() =~= rest + seq![bad] + more);
        assert(all[0] == parts[0]);
        lemma_uid_part(parts[0], uids[0]);
        lemma_decimal(uids[0] as nat);
        law_decimal_reads_back(uids[0] as nat);
    } else {
        assert(all[0] == bad);
    }
}

/// Law: a single user ID is read back up to the limit of user IDs, whatever the package
/// manager says.
pub proof fn law_single_uid_reads_back(uid: nat, package_uid: Option<nat>)
    ensures
        target_uids(decimal(uid), package_uid) == (if uid <= 0xffff_ffff {
            Some(seq![uid as u32])
        } else {
            None
        }),
{
    lemma_decimal(uid);
    law_decimal_reads_back(uid);
    assert(!decimal(uid).contains('.'));
    assert(!decimal(uid).contains(','));
}

/// Law: a target without a dot and a comma that holds anything but digits behind an
/// optional plus sign is refused.
pub proof fn law_other_targets_are_refused(
    target: Seq<char>,
    k: int,
    package_uid: Option<nat>,
    pm: PmOutput,
)
    requires
        !target.contains('.'),
        !target.contains(','),
        0 <= k < target.len(),
        !('0' <= target[k] <= '9'),
        k == 0 ==> target[k] != '+',
    ensures
        target_uids(target, package_uid) is None,
        target_problem(target, pm) == Some(TargetProblem::BadTarget),
{
    law_only_digits_are_numbers(target, 0xffff_ffff);
}

/// Law: [`resolve_target`] gives a package that the package manager lists the user ID of
/// the first line with its name, however long the list is, and nothing for a package that
/// is not listed. [`resolve_uid`] and [`parse_uid_from_output`] agree with it.
pub proof fn law_resolve_package(
    target: &str,
    stdout: Vec<u8>,
    output: &str,
    r: Option<Vec<u32>>,
    u: Option<u32>,
    p: Option<u32>,
    names: Seq<Seq<char>>,
    uids: Seq<u32>,
)
    requires
        call_ensures(resolve_target, (target, &PmOutput::Exited { success: true, stdout }), r),
        call_ensures(resolve_uid, (target, &PmOutput::Exited { success: true, stdout }), u),
        call_ensures(parse_uid_from_output, (target, output), p),
        target@.contains('.'),
        !target@.contains(' '),
        names.len() == uids.len(),
        valid_utf8(stdout@),
        decode_utf8(stdout@) == output@,
        output@ == lines_text(package_lines(names, uids)),
        forall|j: int|
            0 <= j < names.len() ==> !(#[trigger] names[j]).contains(' ') && !names[j].contains(
                '\n',
            ),
    ensures
        names.contains(target@) <==> r is Some,
        forall|i: int|
            0 <= i < names.len() && #[trigger] names[i] == target@ && (forall|j: int|
                0 <= j < i ==> names[j] != target@) ==> {
                &&& r matches Some(v) && v@ == seq![uids[i]]
                &&& u == Some(uids[i])
                &&& p == Some(uids[i])
            },
        r is None ==> u is None && p is None,
{
    law_package_list_reads_back(target@, stdout, names, uids);
}

/// Law: [`resolve_target`] gives back user IDs that are written with commas between them
/// and any whitespace around each, whatever the package manager says, and a single one
/// that is written without whitespace.
pub proof fn law_resolve_uids(
    target: &str,
    pm: &PmOutput,
    r: Option<Vec<u32>>,
    parts: Seq<Seq<char>>,
    uids: Seq<u32>,
)
    requires
        call_ensures(resolve_target, (target, pm), r),
        ({
            ||| parts.len() == uids.len() && uids.len() >= 2 && (forall|i: int|
                0 <= i < parts.len() ==> writes_uid(#[trigger] parts[i], uids[i])) && target@
                == joined(parts, ',')
            ||| uids.len() == 1 && target@ == decimal(uids[0] as nat)
        }),
    ensures
        r matches Some(v) && v@ == uids,
{
    if uids.len() == 1 && target@ == decimal(uids[0] as nat) {
        law_single_uid_reads_back(uids[0] as nat, pm_uid(target@, *pm));
        assert(uids =~= seq![uids[0]]);
    } else {
        law_uid_parts_read_back(parts, uids);
        assert forall|i: int| 0 <= i < parts.len() implies !(#[trigger] parts[i]).contains('.') by {
            lemma_uid_part(parts[i], uids[i]);
        }
        lemma_joined_chars(parts, ',', '.');
        law_only_packages_need_the_package_manager(target@, None, pm_uid(target@, *pm));
    }
}

/// Law: a list with a part that is no user ID gives nothing, and [`target_error`] names the
/// first such part.
pub proof fn law_refused_list(
    target: &str,
    pm: &PmOutput,
    r: Option<Vec<u32>>,
    e: Option<TargetError>,
    parts: Seq<Seq<char>>,
    uids: Seq<u32>,
    bad: Seq<char>,
    more: Seq<Seq<char>>,
)
    requires
        call_ensures(resolve_target, (target, pm), r),
        call_ensures(target_error, (target, pm), e),
        parts.len() == uids.len(),
        parts.len() + more.len() > 0,
        forall|i: int| 0 <= i < parts.len() ==> writes_uid(#[trigger] parts[i], uids[i]),
        uint_up_to(trimmed(bad), 0xffff_ffff) is None,
        !bad.contains(','),
        !bad.contains('.'),
        forall|i: int|
            0 <= i < more.len() ==> !(#[trigger] more[i]).contains(',') && !more[i].contains('.'),
        target@ == joined(parts + seq![bad] + more, ','),
    ensures
        r is None,
        trimmed(bad).len() == 0 ==> e == Some(TargetError::EmptyPart),
        trimmed(bad).len() > 0 ==> (e matches Some(TargetError::BadPart(part)) && part@ == trimmed(
            bad,
        )),
{
    law_bad_part_is_named(parts, uids, bad, more, pm_uid(target@, *pm), *pm);
}

/// Law: [`pick_ipv4`] gives the first IPv4 address, whatever IPv6 addresses stand in front
/// of it, and [`resolve_proxy_addr`] gives the same of a lookup. Without one there is none,
/// and a failed lookup is reported as it is. [`any_ipv6`] tells whether there is any other.
pub proof fn law_first_ipv4_is_the_proxy(
    addrs: Vec<SocketAddr>,
    message: String,
    i: int,
    picked: Option<SocketAddrV4>,
    resolved: Result<SocketAddrV4, ProxyResolveError>,
    failed: Result<SocketAddrV4, ProxyResolveError>,
    v6: bool,
)
    requires
        call_ensures(pick_ipv4, (addrs,), picked),
        call_ensures(resolve_proxy_addr, (Ok(addrs),), resolved),
        call_ensures(resolve_proxy_addr, (Err(message),), failed),
        call_ensures(any_ipv6, (addrs,), v6),
    ensures
        0 <= i < addrs@.len() && addrs@[i] is V4 && (forall|j: int|
            0 <= j < i ==> (#[trigger] addrs@[j]) is V6) ==> picked == Some(addrs@[i]->V4_0)
            && resolved == Ok::<SocketAddrV4, ProxyResolveError>(addrs@[i]->V4_0),
        (forall|j: int| 0 <= j < addrs@.len() ==> (#[trigger] addrs@[j]) is V6) ==> picked is None
            && resolved == Err::<SocketAddrV4, ProxyResolveError>(ProxyResolveError::NoIpv4),
        failed matches Err(ProxyResolveError::Resolve(m)) && m@ == message@,
        v6 <==> exists|j: int| 0 <= j < addrs@.len() && (#[trigger] addrs@[j]) is V6,
{
    law_picked_address_is_first_v4(addrs@);
    if 0 <= i < addrs@.len() && addrs@[i] is V4 && (forall|j: int|
        0 <= j < i ==> (#[trigger] addrs@[j]) is V6) {
        if let Some(a) = first_v4(addrs@) {
            let k = choose|k: int|
                0 <= k < addrs@.len() && #[trigger] addrs@[k] == SocketAddr::V4(a) && (forall|
                    j: int,
                |
                    0 <= j < k ==> (#[trigger] addrs@[j]) is V6);
            if k < i {
                assert(addrs@[k] is V6);
            }
            if i < k {
                assert(addrs@[i] is V6);
            }
        } else {
            assert(addrs@[i] is V6);
        }
    } else if forall|j: int| 0 <= j < addrs@.len() ==> (#[trigger] addrs@[j]) is V6 {
        if let Some(a) = first_v4(addrs@) {
            let k = choose|k: int|
                0 <= k < addrs@.len() && #[trigger] addrs@[k] == SocketAddr::V4(a) && (forall|
                    j: int,
                |
                    0 <= j < k ==> (#[trigger] addrs@[j]) is V6);
            assert(addrs@[k] is V6);
        }
    }
}

/// Law: [`lookup_text`] writes the host and the port with a colon between them, so that
/// they read back.
pub proof fn law_lookup_text(host: &str, port: u16, r: String)
    requires
        call_ensures(lookup_text, (host, port), r),
    ensures
        r@ == host@ + seq![':'] + decimal(port as nat),
{
    reveal_strlit(":");
    assert(":"@ =~= seq![':']);
}

/// Law: a line that speaks of the package and gives no user ID is passed over, and so is
/// every line of another package: they change nothing for the lines behind them.
pub proof fn law_useless_lines_are_passed_over(
    package: Seq<char>,
    before: Seq<Seq<char>>,
    rest: Seq<Seq<char>>,
)
    requires
        forall|i: int|
            0 <= i < before.len() ==> !speaks_of(#[trigger] before[i], package) || before[i]
                == "package:"@ + package + " "@,
        !package.contains(' '),
    ensures
        lines_uid(package, before + rest) == lines_uid(package, rest),
    decreases before.len(),
{
    if before.len() == 0 {
        assert(before + rest =~= rest);
    } else {
        let more = before.drop_first();
        assert forall|i: int| 0 <= i < more.len() implies !speaks_of(#[trigger] more[i], package)
            || more[i] == "package:"@ + package + " "@ by {
            assert(more[i] == before[i + 1]);
        }
        law_useless_lines_are_passed_over(package, more, rest);
        assert((before + rest)[0] == before[0]);
        assert((before + rest).drop_first() =~= more + rest);
        let line = before[0];
        if speaks_of(line, package) {
            reveal_strlit("package:");
            reveal_strlit(" ");
            reveal_strlit("uid:");
            let name = line.skip("package:"@.len() as int);
            assert forall|k: int| 0 <= k < package.len() implies #[trigger] name[k] != ' ' by {
                assert(name[k] == package[k]);
                assert(package.contains(package[k]));
            }
            assert(name =~= package + " "@);
            lemma_until_is(name, ' ', package.len() as int);
            assert(name.skip(package.len() as int + 1).len() == 0);
            assert("uid:"@.len() == 4);
        } else {
            lemma_line_of_another(package, line);
        }
    }
}

/// Law: [`is_package`] tells by a dot, and [`uids_of_target`] gives a package its user ID.
pub proof fn law_dot_makes_a_package(
    target: &str,
    package_uid: Option<u32>,
    is: bool,
    r: Option<Vec<u32>>,
)
    requires
        call_ensures(is_package, (target,), is),
        call_ensures(uids_of_target, (target, package_uid), r),
    ensures
        is <==> exists|k: int| 0 <= k < target@.len() && #[trigger] target@[k] == '.',
        is && package_uid is None ==> r is None,
        is && package_uid is Some ==> (r matches Some(v) && v@ == seq![package_uid->0]),
{
}

} // verus!
