//! Network addresses and their textual form.
use crate::number::{
    decimal, digit_of, hex_text, is_number, law_hex_reads_back, lemma_decimal,
    lemma_digits_are_decimal, number_value, opt_nat, parse_number, push_decimal,
};
use crate::text::{
    chars_of, fields, find_pair, joined, law_fields_join_back, law_joined_fields_read_back,
    lemma_fields_cons, lemma_fields_hold, lemma_fields_one, lemma_until_pair, lemma_until_pair_is,
    split, until_pair, views,
};
use vstd::arithmetic::div_mod::lemma_fundamental_div_mod_converse;
use vstd::prelude::*;
use vstd::slice::slice_subrange;

verus! {

/// An IPv4 address, as the number that its four octets write in network order.
#[derive(Clone, Copy, Debug, PartialEq, Eq, Structural)]
pub struct Ipv4Addr {
    pub bits: u32,
}

/// An IPv6 address, as its sixteen octets in network order.
#[derive(Clone, Copy, Debug, PartialEq, Eq)]
pub struct Ipv6Addr {
    pub octets: [u8; 16],
}

/// An address of either family.
#[derive(Clone, Copy, Debug, PartialEq, Eq)]
pub enum IpAddr {
    V4(Ipv4Addr),
    V6(Ipv6Addr),
}

/// An IPv4 address with a TCP port.
#[derive(Clone, Copy, Debug, PartialEq, Eq, Structural)]
pub struct SocketAddrV4 {
    pub ip: Ipv4Addr,
    pub port: u16,
}

/// An IPv6 address with a TCP port.
#[derive(Clone, Copy, Debug, PartialEq, Eq)]
pub struct SocketAddrV6 {
    pub ip: Ipv6Addr,
    pub port: u16,
}

/// A socket address of either family.
#[derive(Clone, Copy, Debug, PartialEq, Eq)]
pub enum SocketAddr {
    V4(SocketAddrV4),
    V6(SocketAddrV6),
}

/// The number that four octets write in network order.
pub open spec fn bits_of(a: nat, b: nat, c: nat, d: nat) -> nat {
    a * 0x100_0000 + b * 0x1_0000 + c * 0x100 + d
}

/// Octet `i` of an IPv4 address, counted from the most significant.
pub open spec fn octet_v4(bits: u32, i: int) -> nat {
    if i == 0 {
        (bits / 0x100_0000) as nat
    } else if i == 1 {
        (bits / 0x1_0000 % 0x100) as nat
    } else if i == 2 {
        (bits / 0x100 % 0x100) as nat
    } else {
        (bits % 0x100) as nat
    }
}

/// The number that a decimal octet writes: one to three digits, at most 255, with
/// no zero in front of another digit.
pub open spec fn octet_value(s: Seq<char>) -> Option<nat> {
    if is_number(s, 10) && s.len() <= 3 && !(s.len() > 1 && s[0] == '0') && number_value(s, 10)
        <= 255 {
        Some(number_value(s, 10))
    } else {
        None
    }
}

/// The IPv4 address that `s` writes: four decimal octets with dots between them.
pub open spec fn ipv4_value(s: Seq<char>) -> Option<u32> {
    let f = fields(s, '.');
    if f.len() == 4 && octet_value(f[0]) is Some && octet_value(f[1]) is Some && octet_value(
        f[2],
    ) is Some && octet_value(f[3]) is Some {
        Some(
            bits_of(
                octet_value(f[0])->0,
                octet_value(f[1])->0,
                octet_value(f[2])->0,
                octet_value(f[3])->0,
            ) as u32,
        )
    } else {
        None
    }
}

/// The dotted text of an IPv4 address.
pub open spec fn ipv4_text(bits: u32) -> Seq<char> {
    decimal(octet_v4(bits, 0)) + seq!['.'] + (decimal(octet_v4(bits, 1)) + seq!['.'] + (decimal(
        octet_v4(bits, 2),
    ) + seq!['.'] + decimal(octet_v4(bits, 3))))
}

/// The number that a group of an IPv6 address writes: one to four hexadecimal
/// digits.
pub open spec fn group_value(s: Seq<char>) -> Option<u16> {
    if is_number(s, 16) && s.len() <= 4 {
        Some(number_value(s, 16) as u16)
    } else {
        None
    }
}

/// The groups that a list of colon-separated fields writes. Where `v4_last` holds,
/// the last field may be a dotted IPv4 address, which stands for two groups.
pub open spec fn field_groups(f: Seq<Seq<char>>, v4_last: bool) -> Option<Seq<u16>>
    decreases f.len(),
{
    if f.len() == 0 {
        Some(seq![])
    } else if f.len() == 1 && v4_last && ipv4_value(f[0]) is Some {
        let bits = ipv4_value(f[0])->0;
        Some(seq![(bits / 0x1_0000) as u16, (bits % 0x1_0000) as u16])
    } else {
        match (group_value(f[0]), field_groups(f.drop_first(), v4_last)) {
            (Some(g), Some(rest)) => Some(seq![g] + rest),
            _ => None,
        }
    }
}

/// The groups that one side of an IPv6 address writes; none where it is empty.
pub open spec fn side_groups(s: Seq<char>, v4_last: bool) -> Option<Seq<u16>> {
    if s.len() == 0 {
        Some(seq![])
    } else {
        field_groups(fields(s, ':'), v4_last)
    }
}

/// The eight groups that `s` writes as an IPv6 address: all of them, or those in
/// front of and behind one `::`, which stands for one or more zero groups. A
/// dotted IPv4 address may stand for the last two groups.
pub open spec fn ipv6_value(s: Seq<char>) -> Option<Seq<u16>> {
    let i = until_pair(s, ':', ':');
    if i >= s.len() {
        match side_groups(s, true) {
            Some(g) => if g.len() == 8 {
                Some(g)
            } else {
                None
            },
            None => None,
        }
    } else {
        match (side_groups(s.take(i as int), false), side_groups(s.skip(i as int + 2), true)) {
            (Some(head), Some(tail)) => if head.len() + tail.len() <= 7 {
                Some(head + Seq::new((8 - head.len() - tail.len()) as nat, |k: int| 0u16) + tail)
            } else {
                None
            },
            _ => None,
        }
    }
}

/// The sixteen octets of eight groups.
pub open spec fn group_octets(g: Seq<u16>) -> Seq<u8> {
    Seq::new(
        16,
        |i: int|
            if i % 2 == 0 {
                (g[i / 2] / 0x100) as u8
            } else {
                (g[i / 2] % 0x100) as u8
            },
    )
}

impl Ipv4Addr {
    /// The address `a.b.c.d`.
    pub fn new(a: u8, b: u8, c: u8, d: u8) -> (r: Self)
        ensures
            r.bits == bits_of(a as nat, b as nat, c as nat, d as nat),
    {
        Ipv4Addr {
            bits: a as u32 * 0x100_0000 + b as u32 * 0x1_0000 + c as u32 * 0x100 + d as u32,
        }
    }
}

impl SocketAddrV4 {
    /// The address with the port.
    pub fn new(ip: Ipv4Addr, port: u16) -> (r: Self)
        ensures
            r.ip == ip,
            r.port == port,
    {
        SocketAddrV4 { ip, port }
    }

    /// The address.
    pub fn ip(&self) -> (r: &Ipv4Addr)
        ensures
            *r == self.ip,
    {
        &self.ip
    }

    /// The port.
    pub fn port(&self) -> (r: u16)
        ensures
            r == self.port,
    {
        self.port
    }
}

fn read_octet(s: &[char]) -> (r: Option<u32>)
    ensures
        opt_nat(r) == octet_value(s@),
{
    if s.len() > 3 || (s.len() > 1 && s[0] == '0') {
        return None;
    }
    parse_number(s, 10, 255)
}

/// The IPv4 address that the characters write.
pub fn read_ipv4(s: &[char]) -> (r: Option<Ipv4Addr>)
    ensures
        r is Some == ipv4_value(s@) is Some,
        r matches Some(ip) ==> ipv4_value(s@) == Some(ip.bits),
{
    let f = split(s, '.');
    assert(views(f@).len() == f@.len());
    if f.len() != 4 {
        return None;
    }
    assert(views(f@)[0] == f@[0]@ && views(f@)[1] == f@[1]@ && views(f@)[2] == f@[2]@ && views(
        f@,
    )[3] == f@[3]@);
    match (read_octet(f[0]), read_octet(f[1]), read_octet(f[2]), read_octet(f[3])) {
        (Some(a), Some(b), Some(c), Some(d)) => Some(
            Ipv4Addr { bits: a * 0x100_0000 + b * 0x1_0000 + c * 0x100 + d },
        ),
        _ => None,
    }
}

/// A run of hexadecimal digits of length `n` writes a number below `16^n`.
proof fn lemma_group_bound(s: Seq<char>)
    requires
        is_number(s, 16),
        s.len() <= 4,
    ensures
        number_value(s, 16) <= 0xffff,
{
    reveal_with_fuel(number_value, 6);
    assert(digit_ok(s, 0));
    assert(digit_ok(s, 1));
    assert(digit_ok(s, 2));
    assert(digit_ok(s, 3));
}

spec fn digit_ok(s: Seq<char>, i: int) -> bool {
    0 <= i < s.len() ==> digit_of(s[i]) < 16
}

fn read_group(s: &[char]) -> (r: Option<u16>)
    ensures
        r == group_value(s@),
{
    if s.len() > 4 {
        return None;
    }
    proof {
        if is_number(s@, 16) {
            lemma_group_bound(s@);
        }
    }
    match parse_number(s, 16, 0xffff) {
        Some(n) => Some(n as u16),
        None => None,
    }
}

fn read_side(s: &[char], v4_last: bool) -> (r: Option<Vec<u16>>)
    ensures
        r is Some == side_groups(s@, v4_last) is Some,
        r matches Some(g) ==> side_groups(s@, v4_last) == Some(g@),
{
    let mut out: Vec<u16> = Vec::new();
    if s.len() == 0 {
        assert(out@ =~= seq![]);
        return Some(out);
    }
    let f = split(s, ':');
    let ghost all = views(f@);
    let mut i: usize = 0;
    assert(all.skip(0) =~= all);
    assert(forall|rest: Seq<u16>| #[trigger] (out@ + rest) =~= rest);
    while i < f.len()
        invariant
            i <= f@.len(),
            all == views(f@),
            side_groups(s@, v4_last) == field_groups(all, v4_last),
            field_groups(all.skip(i as int), v4_last) is None ==> field_groups(all, v4_last)
                is None,
            field_groups(all.skip(i as int), v4_last) matches Some(rest) ==> field_groups(
                all,
                v4_last,
            ) == Some(out@ + rest),
        decreases f@.len() - i,
    {
        let ghost rest = all.skip(i as int);
        assert(rest[0] == f@[i as int]@);
        assert(rest.drop_first() =~= all.skip(i + 1));
        if v4_last && i + 1 == f.len() {
            if let Some(ip) = read_ipv4(f[i]) {
                let ghost before = out@;
                out.push((ip.bits / 0x1_0000) as u16);
                out.push((ip.bits % 0x1_0000) as u16);
                assert(out@ =~= before + seq![
                    (ip.bits / 0x1_0000) as u16,
                    (ip.bits % 0x1_0000) as u16,
                ]);
                return Some(out);
            }
        }
        match read_group(f[i]) {
            Some(g) => {
                let ghost before = out@;
                out.push(g);
                proof {
                    if let Some(tail) = field_groups(all.skip(i + 1), v4_last) {
                        assert(before + (seq![g] + tail) =~= out@ + tail);
                    }
                }
            },
            None => {
                return None;
            },
        }
        i += 1;
    }
    assert(all.skip(i as int).len() == 0);
    assert(out@ + seq![] =~= out@);
    Some(out)
}

fn octets_from(g: &Vec<u16>) -> (r: [u8; 16])
    requires
        g@.len() == 8,
    ensures
        r@ == group_octets(g@),
{
    let mut out: [u8; 16] = [0; 16];
    let mut i: usize = 0;
    while i < 8
        invariant
            i <= 8,
            g@.len() == 8,
            forall|k: int| 0 <= k < 2 * i ==> #[trigger] out@[k] == group_octets(g@)[k],
        decreases 8 - i,
    {
        out[2 * i] = (g[i] / 0x100) as u8;
        out[2 * i + 1] = (g[i] % 0x100) as u8;
        i += 1;
    }
    assert(out@ =~= group_octets(g@));
    out
}

/// The IPv6 address that the characters write.
pub fn read_ipv6(s: &[char]) -> (r: Option<Ipv6Addr>)
    ensures
        r is Some == ipv6_value(s@) is Some,
        r matches Some(ip) ==> ipv6_value(s@) is Some && ip.octets@ == group_octets(
            ipv6_value(s@)->0,
        ),
{
    match find_pair(s, ':', ':') {
        None => {
            let g = match read_side(s, true) {
                Some(g) => g,
                None => return None,
            };
            if g.len() != 8 {
                return None;
            }
            Some(Ipv6Addr { octets: octets_from(&g) })
        },
        Some(i) => {
            assert(i + 2 <= s.len());
            let head_text = slice_subrange(s, 0, i);
            let tail_text = slice_subrange(s, i + 2, s.len());
            assert(head_text@ =~= s@.take(i as int));
            assert(tail_text@ =~= s@.skip(i as int + 2));
            let mut g = match read_side(head_text, false) {
                Some(g) => g,
                None => return None,
            };
            let tail = match read_side(tail_text, true) {
                Some(g) => g,
                None => return None,
            };
            if g.len() > 7 || tail.len() > 7 - g.len() {
                return None;
            }
            let ghost head = g@;
            let ghost gap = (8 - head.len() - tail@.len()) as nat;
            while g.len() < 8 - tail.len()
                invariant
                    tail@.len() <= 7,
                    head.len() <= g@.len() <= 8 - tail@.len(),
                    g@ == head + Seq::new((g@.len() - head.len()) as nat, |k: int| 0u16),
                decreases 8 - g@.len(),
            {
                g.push(0);
                assert(g@ =~= head + Seq::new((g@.len() - head.len()) as nat, |k: int| 0u16));
            }
            let mut k: usize = 0;
            let ghost front = g@;
            while k < tail.len()
                invariant
                    k <= tail@.len(),
                    g@ == front + tail@.take(k as int),
                decreases tail@.len() - k,
            {
                g.push(tail[k]);
                k += 1;
                assert(tail@.take(k as int) =~= tail@.take(k - 1).push(tail@[k - 1]));
            }
            assert(tail@.take(k as int) =~= tail@);
            assert(g@ == head + Seq::new(gap, |k: int| 0u16) + tail@);
            Some(Ipv6Addr { octets: octets_from(&g) })
        },
    }
}

/// The IPv4 address that `s` writes.
pub fn parse_ipv4(s: &str) -> (r: Option<Ipv4Addr>)
    ensures
        r is Some == ipv4_value(s@) is Some,
        r matches Some(ip) ==> ipv4_value(s@) == Some(ip.bits),
{
    let cs = chars_of(s);
    read_ipv4(cs.as_slice())
}

/// The IPv6 address that `s` writes.
pub fn parse_ipv6(s: &str) -> (r: Option<Ipv6Addr>)
    ensures
        r is Some == ipv6_value(s@) is Some,
        r matches Some(ip) ==> ipv6_value(s@) is Some && ip.octets@ == group_octets(
            ipv6_value(s@)->0,
        ),
{
    let cs = chars_of(s);
    read_ipv6(cs.as_slice())
}

/// Appends the dotted text of the address.
pub fn push_ipv4(out: &mut String, ip: Ipv4Addr)
    ensures
        final(out)@ == old(out)@ + ipv4_text(ip.bits),
{
    push_decimal(out, (ip.bits / 0x100_0000) as u64);
    out.push('.');
    push_decimal(out, (ip.bits / 0x1_0000 % 0x100) as u64);
    out.push('.');
    push_decimal(out, (ip.bits / 0x100 % 0x100) as u64);
    out.push('.');
    push_decimal(out, (ip.bits % 0x100) as u64);
    assert(out@ =~= old(out)@ + ipv4_text(ip.bits));
}

/// The decimal text of an octet reads back as the octet.
proof fn lemma_octet_reads_back(n: nat)
    requires
        n <= 255,
    ensures
        octet_value(decimal(n)) == Some(n),
        forall|k: int| 0 <= k < decimal(n).len() ==> #[trigger] decimal(n)[k] != '.',
{
    lemma_decimal(n);
    reveal_with_fuel(decimal, 4);
    assert(decimal(n).len() <= 3);
    if n == 0 {
        assert(decimal(n).len() == 1);
    }
}

/// Law: reading the dotted text of an IPv4 address gives the address back.
pub proof fn law_ipv4_text_reads_back(bits: u32)
    ensures
        ipv4_value(ipv4_text(bits)) == Some(bits),
{
    let a = octet_v4(bits, 0);
    let b = octet_v4(bits, 1);
    let c = octet_v4(bits, 2);
    let d = octet_v4(bits, 3);
    lemma_octet_reads_back(a);
    lemma_octet_reads_back(b);
    lemma_octet_reads_back(c);
    lemma_octet_reads_back(d);
    let t3 = decimal(d);
    let t2 = decimal(c) + seq!['.'] + t3;
    let t1 = decimal(b) + seq!['.'] + t2;
    lemma_fields_one(t3, '.');
    lemma_fields_cons(decimal(c), '.', t3);
    lemma_fields_cons(decimal(b), '.', t2);
    lemma_fields_cons(decimal(a), '.', t1);
    let f = fields(ipv4_text(bits), '.');
    assert(f =~= seq![decimal(a), decimal(b), decimal(c), decimal(d)]);
    assert(bits_of(a, b, c, d) == bits);
}

/// The text of an IPv4 address is made of digits and dots.
pub proof fn lemma_ipv4_chars(s: Seq<char>, k: int)
    requires
        ipv4_value(s) is Some,
        0 <= k < s.len(),
    ensures
        s[k] == '.' || digit_of(s[k]) < 10,
{
    if s[k] != '.' {
        lemma_fields_hold(s, '.', k);
        let f = fields(s, '.');
        let (i, j) = choose|i: int, j: int|
            0 <= i < f.len() && 0 <= j < f[i].len() && #[trigger] f[i][j] == s[k];
        assert(octet_value(f[i]) is Some);
        assert(digit_of(f[i][j]) < 10);
    }
}

/// Law: no text writes an address of both families.
pub proof fn law_families_are_told_apart(s: Seq<char>)
    ensures
        !(ipv4_value(s) is Some && ipv6_value(s) is Some),
{
    if ipv4_value(s) is Some {
        assert forall|k: int| 0 <= k < s.len() implies #[trigger] s[k] != ':' by {
            lemma_ipv4_chars(s, k);
        }
        lemma_until_pair(s, ':', ':');
        lemma_fields_one(s, ':');
    }
}

/// Law: four decimal numbers with dots between them are read as the address of these
/// octets, in network order, where each of them is an octet, and as none where one is
/// not.
pub proof fn law_ipv4_of_octets(a: nat, b: nat, c: nat, d: nat)
    ensures
        ipv4_value(joined(seq![decimal(a), decimal(b), decimal(c), decimal(d)], '.')) == (if a
            <= 255 && b <= 255 && c <= 255 && d <= 255 {
            Some((a * 16777216 + b * 65536 + c * 256 + d) as u32)
        } else {
            None
        }),
{
    let parts = seq![decimal(a), decimal(b), decimal(c), decimal(d)];
    lemma_decimal(a);
    lemma_decimal(b);
    lemma_decimal(c);
    lemma_decimal(d);
    assert forall|i: int| 0 <= i < parts.len() implies !(#[trigger] parts[i]).contains('.') by {}
    law_joined_fields_read_back(parts, '.');
    if a <= 255 {
        lemma_octet_reads_back(a);
    }
    if b <= 255 {
        lemma_octet_reads_back(b);
    }
    if c <= 255 {
        lemma_octet_reads_back(c);
    }
    if d <= 255 {
        lemma_octet_reads_back(d);
    }
}

proof fn lemma_octets_of_bits(a: nat, b: nat, c: nat, d: nat)
    requires
        a <= 255,
        b <= 255,
        c <= 255,
        d <= 255,
    ensures
        bits_of(a, b, c, d) <= 0xffff_ffff,
        octet_v4(bits_of(a, b, c, d) as u32, 0) == a,
        octet_v4(bits_of(a, b, c, d) as u32, 1) == b,
        octet_v4(bits_of(a, b, c, d) as u32, 2) == c,
        octet_v4(bits_of(a, b, c, d) as u32, 3) == d,
{
    let x: int = a * 0x100_0000 + b * 0x1_0000 + c * 0x100 + d as int;
    let ab: int = a * 0x100 + b as int;
    let abc: int = ab * 0x100 + c;
    let low: int = c * 0x100 + d as int;
    assert(x <= 0xffff_ffff);
    lemma_fundamental_div_mod_converse(x, 0x100_0000, a as int, b * 0x1_0000 + low);
    lemma_fundamental_div_mod_converse(x, 0x1_0000, ab, low);
    lemma_fundamental_div_mod_converse(ab, 0x100, a as int, b as int);
    lemma_fundamental_div_mod_converse(x, 0x100, abc, d as int);
    lemma_fundamental_div_mod_converse(abc, 0x100, ab, c as int);
}

proof fn lemma_joined_four(a: Seq<char>, b: Seq<char>, c: Seq<char>, d: Seq<char>)
    ensures
        joined(seq![a, b, c, d], '.') == a + seq!['.'] + (b + seq!['.'] + (c + seq!['.'] + d)),
{
    let p3 = seq![d];
    let p2 = seq![c, d];
    let p1 = seq![b, c, d];
    let p0 = seq![a, b, c, d];
    assert(p0.drop_first() =~= p1);
    assert(p1.drop_first() =~= p2);
    assert(p2.drop_first() =~= p3);
    assert(joined(p3, '.') == d);
    assert(joined(p2, '.') == c + seq!['.'] + d);
    assert(joined(p1, '.') == b + seq!['.'] + (c + seq!['.'] + d));
}

/// Law: the dotted text of an address is made of its octets in decimal, in network
/// order.
pub proof fn law_ipv4_text_of_octets(bits: u32)
    ensures
        ipv4_text(bits) == joined(
            seq![
                decimal((bits / 16777216) as nat),
                decimal((bits / 65536 % 256) as nat),
                decimal((bits / 256 % 256) as nat),
                decimal((bits % 256) as nat),
            ],
            '.',
        ),
{
    lemma_joined_four(
        decimal((bits / 16777216) as nat),
        decimal((bits / 65536 % 256) as nat),
        decimal((bits / 256 % 256) as nat),
        decimal((bits % 256) as nat),
    );
}

/// Law: an address has one text only: what is read as the address is its dotted text.
pub proof fn law_ipv4_text_is_unique(s: Seq<char>, bits: u32)
    ensures
        ipv4_value(s) == Some(bits) <==> s == ipv4_text(bits),
{
    law_ipv4_text_reads_back(bits);
    if ipv4_value(s) == Some(bits) {
        let f = fields(s, '.');
        let a = octet_value(f[0])->0;
        let b = octet_value(f[1])->0;
        let c = octet_value(f[2])->0;
        let d = octet_value(f[3])->0;
        lemma_digits_are_decimal(f[0]);
        lemma_digits_are_decimal(f[1]);
        lemma_digits_are_decimal(f[2]);
        lemma_digits_are_decimal(f[3]);
        lemma_octets_of_bits(a, b, c, d);
        lemma_joined_four(f[0], f[1], f[2], f[3]);
        assert(f =~= seq![f[0], f[1], f[2], f[3]]);
        law_fields_join_back(s, '.');
    }
}

/// Whether `f` writes the group `n`: one to four hexadecimal digits.
pub open spec fn writes_group(f: Seq<char>, n: u16) -> bool {
    1 <= f.len() <= 4 && is_number(f, 16) && number_value(f, 16) == n
}

/// Whether the fields write the groups, one each.
pub open spec fn write_groups(f: Seq<Seq<char>>, g: Seq<u16>) -> bool {
    f.len() == g.len() && forall|i: int| 0 <= i < f.len() ==> writes_group(#[trigger] f[i], g[i])
}

/// Whether the fields write the groups, where the last field may be the dotted text of
/// an IPv4 address, which stands for two groups.
pub open spec fn write_groups_or_v4(f: Seq<Seq<char>>, g: Seq<u16>) -> bool {
    ||| write_groups(f, g)
    ||| {
        &&& f.len() > 0
        &&& g.len() == f.len() + 1
        &&& write_groups(f.drop_last(), g.take(f.len() - 1))
        &&& f.last() == ipv4_text((g[f.len() - 1] * 65536 + g[f.len() as int]) as u32)
    }
}

/// The hexadecimal texts of the groups.
pub open spec fn hex_groups(g: Seq<u16>) -> Seq<Seq<char>> {
    Seq::new(g.len(), |k: int| hex_text(g[k] as nat))
}

/// Zero groups.
pub open spec fn zero_groups(n: nat) -> Seq<u16> {
    Seq::new(n, |k: int| 0u16)
}

proof fn lemma_ipv4_text_chars(bits: u32)
    ensures
        ipv4_text(bits).len() > 0,
        !ipv4_text(bits).contains(':'),
{
    law_ipv4_text_reads_back(bits);
    let s = ipv4_text(bits);
    assert(s.contains('.')) by {
        assert(s[decimal(octet_v4(bits, 0)).len() as int] == '.');
    }
    if s.contains(':') {
        let k = choose|k: int| 0 <= k < s.len() && s[k] == ':';
        lemma_ipv4_chars(s, k);
    }
}

proof fn lemma_group_is_no_v4(f: Seq<char>)
    requires
        is_number(f, 16),
    ensures
        ipv4_value(f) is None,
        !f.contains(':'),
        !f.contains('.'),
{
    assert forall|k: int| 0 <= k < f.len() implies #[trigger] f[k] != '.' && f[k] != ':' by {
        assert(digit_of(f[k]) < 16);
    }
    lemma_fields_one(f, '.');
}

proof fn lemma_group_value_bound(f: Seq<char>)
    requires
        is_number(f, 16),
        f.len() <= 4,
    ensures
        number_value(f, 16) <= 0xffff,
{
    reveal_with_fuel(number_value, 5);
    assert forall|k: int| 0 <= k < f.len() implies digit_of(#[trigger] f[k]) <= 15 by {
        assert(digit_of(f[k]) < 16);
    }
    if f.len() >= 2 {
        assert(f.drop_last().last() == f[f.len() - 2]);
    }
    if f.len() >= 3 {
        assert(f.drop_last().drop_last().last() == f[f.len() - 3]);
    }
    if f.len() >= 4 {
        assert(f.drop_last().drop_last().drop_last().last() == f[f.len() - 4]);
    }
}

proof fn lemma_fields_write(f: Seq<Seq<char>>, g: Seq<u16>, v4_last: bool)
    requires
        write_groups(f, g) || (v4_last && write_groups_or_v4(f, g)),
    ensures
        field_groups(f, v4_last) == Some(g),
        forall|i: int|
            0 <= i < f.len() ==> (#[trigger] f[i]).len() > 0 && !f[i].contains(':'),
    decreases f.len(),
{
    if f.len() == 0 {
        assert(g =~= seq![]);
    } else if f.len() == 1 && !write_groups(f, g) {
        let bits = (g[0] * 65536 + g[1]) as u32;
        assert(f.last() == f[0]);
        law_ipv4_text_reads_back(bits);
        lemma_ipv4_text_chars(bits);
        assert(bits / 0x1_0000 == g[0]);
        assert(bits % 0x1_0000 == g[1]);
        assert(g =~= seq![g[0], g[1]]);
    } else {
        if write_groups(f, g) {
            assert(writes_group(f[0], g[0]));
        } else {
            assert(f.drop_last()[0] == f[0]);
            assert(writes_group(f.drop_last()[0], g.take(f.len() - 1)[0]));
        }
        assert(writes_group(f[0], g[0]));
        lemma_group_is_no_v4(f[0]);
        assert(group_value(f[0]) == Some(g[0]));
        let rest = f.drop_first();
        let more = g.drop_first();
        if write_groups(f, g) {
            assert forall|i: int| 0 <= i < rest.len() implies writes_group(
                #[trigger] rest[i],
                more[i],
            ) by {
                assert(writes_group(f[i + 1], g[i + 1]));
            }
        } else {
            let rf = rest.drop_last();
            let rg = more.take(rest.len() - 1);
            assert forall|i: int| 0 <= i < rf.len() implies writes_group(#[trigger] rf[i], rg[i]) by {
                assert(f.drop_last()[i + 1] == rf[i]);
                assert(writes_group(f.drop_last()[i + 1], g.take(f.len() - 1)[i + 1]));
            }
            assert(rest.last() == f.last());
            assert(more[rest.len() - 1] == g[f.len() - 1]);
            assert(more[rest.len() as int] == g[f.len() as int]);
        }
        lemma_fields_write(rest, more, v4_last);
        assert(seq![g[0]] + more =~= g);
        assert forall|i: int| 0 <= i < f.len() implies (#[trigger] f[i]).len() > 0
            && !f[i].contains(':') by {
            if i > 0 {
                assert(f[i] == rest[i - 1]);
            }
        }
    }
}

proof fn lemma_fields_written(f: Seq<Seq<char>>, v4_last: bool)
    requires
        field_groups(f, v4_last) is Some,
    ensures
        ({
            let g = field_groups(f, v4_last)->0;
            write_groups(f, g) || (v4_last && write_groups_or_v4(f, g))
        }),
    decreases f.len(),
{
    let g = field_groups(f, v4_last)->0;
    if f.len() == 0 {
    } else if f.len() == 1 && v4_last && ipv4_value(f[0]) is Some {
        let bits = ipv4_value(f[0])->0;
        law_ipv4_text_is_unique(f[0], bits);
        assert(g[0] * 65536 + g[1] == bits);
        assert(f.drop_last() =~= seq![]);
        assert(f.last() == f[0]);
    } else {
        let rest = f.drop_first();
        let more = field_groups(rest, v4_last)->0;
        lemma_fields_written(rest, v4_last);
        assert(group_value(f[0]) is Some);
        lemma_group_value_bound(f[0]);
        assert(writes_group(f[0], g[0]));
        assert(g.drop_first() =~= more);
        if write_groups(rest, more) {
            assert forall|i: int| 0 <= i < f.len() implies writes_group(#[trigger] f[i], g[i]) by {
                if i > 0 {
                    assert(writes_group(rest[i - 1], more[i - 1]));
                }
            }
        } else {
            let ff = f.drop_last();
            let gg = g.take(f.len() - 1);
            assert forall|i: int| 0 <= i < ff.len() implies writes_group(#[trigger] ff[i], gg[i]) by {
                if i > 0 {
                    assert(rest.drop_last()[i - 1] == ff[i]);
                    assert(writes_group(
                        rest.drop_last()[i - 1],
                        more.take(rest.len() - 1)[i - 1],
                    ));
                }
            }
            assert(rest.last() == f.last());
            assert(more[rest.len() - 1] == g[f.len() - 1]);
            assert(more[rest.len() as int] == g[f.len() as int]);
        }
    }
}

proof fn lemma_no_double_colon(parts: Seq<Seq<char>>)
    requires
        forall|i: int|
            0 <= i < parts.len() ==> (#[trigger] parts[i]).len() > 0 && !parts[i].contains(':'),
    ensures
        ({
            let s = joined(parts, ':');
            &&& parts.len() > 0 <==> s.len() > 0
            &&& s.len() > 0 ==> s[0] != ':' && s.last() != ':'
            &&& forall|k: int| 0 <= k < s.len() - 1 ==> !(#[trigger] s[k] == ':' && s[k + 1] == ':')
        }),
    decreases parts.len(),
{
    if parts.len() > 0 {
        let first = parts[0];
        assert forall|k: int| 0 <= k < first.len() implies #[trigger] first[k] != ':' by {
            assert(first.contains(first[k]));
        }
        assert(first.last() == first[first.len() - 1]);
        if parts.len() > 1 {
            let rest = parts.drop_first();
            assert forall|i: int| 0 <= i < rest.len() implies (#[trigger] rest[i]).len() > 0
                && !rest[i].contains(':') by {
                assert(rest[i] == parts[i + 1]);
            }
            lemma_no_double_colon(rest);
            let t = joined(rest, ':');
            let s = first + seq![':'] + t;
            let n = first.len() as int;
            assert(s[0] == first[0]);
            assert(s.last() == t.last());
            assert forall|k: int| 0 <= k < s.len() - 1 implies !(#[trigger] s[k] == ':' && s[k + 1]
                == ':') by {
                if k < n {
                    assert(s[k] == first[k]);
                } else if k == n {
                    assert(s[k + 1] == t[0]);
                } else {
                    assert(s[k] == t[k - n - 1]);
                    assert(s[k + 1] == t[k - n]);
                }
            }
        }
    }
}

proof fn lemma_side(f: Seq<Seq<char>>, g: Seq<u16>, v4_last: bool)
    requires
        write_groups(f, g) || (v4_last && write_groups_or_v4(f, g)),
    ensures
        side_groups(joined(f, ':'), v4_last) == Some(g),
{
    lemma_fields_write(f, g, v4_last);
    lemma_no_double_colon(f);
    if f.len() == 0 {
        assert(g =~= seq![]);
    } else {
        assert forall|i: int| 0 <= i < f.len() implies !(#[trigger] f[i]).contains(':') by {}
        law_joined_fields_read_back(f, ':');
    }
}

/// Law: eight groups with colons between them are read as the address of these groups.
/// The last two may be written as a dotted IPv4 address.
pub proof fn law_ipv6_of_eight_groups(f: Seq<Seq<char>>, g: Seq<u16>)
    requires
        write_groups_or_v4(f, g),
        g.len() == 8,
    ensures
        ipv6_value(joined(f, ':')) == Some(g),
{
    let s = joined(f, ':');
    lemma_side(f, g, true);
    lemma_fields_write(f, g, true);
    lemma_no_double_colon(f);
    lemma_until_pair_is(s, ':', ':', s.len() as int);
}

/// Law: groups in front of and behind `::`, at most seven in all, are read as these
/// groups with zero groups in the place of the `::`. The last two may be written as a
/// dotted IPv4 address.
pub proof fn law_ipv6_with_zeros_left_out(
    hf: Seq<Seq<char>>,
    hg: Seq<u16>,
    tf: Seq<Seq<char>>,
    tg: Seq<u16>,
)
    requires
        write_groups(hf, hg),
        write_groups_or_v4(tf, tg),
        hg.len() + tg.len() <= 7,
    ensures
        ipv6_value(joined(hf, ':') + seq![':', ':'] + joined(tf, ':')) == Some(
            hg + zero_groups((8 - hg.len() - tg.len()) as nat) + tg,
        ),
{
    let a = joined(hf, ':');
    let b = joined(tf, ':');
    let s = a + seq![':', ':'] + b;
    let n = a.len() as int;
    lemma_side(hf, hg, false);
    lemma_side(tf, tg, true);
    lemma_fields_write(hf, hg, false);
    lemma_no_double_colon(hf);
    assert forall|k: int| 0 <= k < n && k + 1 < s.len() implies !(#[trigger] s[k] == ':' && s[k + 1]
        == ':') by {
        assert(s[k] == a[k]);
        if k + 1 < n {
            assert(s[k + 1] == a[k + 1]);
        } else {
            assert(a.last() == a[k]);
        }
    }
    assert(s[n] == ':' && s[n + 1] == ':');
    lemma_until_pair_is(s, ':', ':', n);
    assert(s.take(n) =~= a);
    assert(s.skip(n + 2) =~= b);
    let zeros = Seq::new((8 - hg.len() - tg.len()) as nat, |k: int| 0u16);
    assert(zeros =~= zero_groups((8 - hg.len() - tg.len()) as nat));
}

proof fn lemma_hex_groups(g: Seq<u16>)
    ensures
        write_groups(hex_groups(g), g),
{
    let f = hex_groups(g);
    assert forall|i: int| 0 <= i < f.len() implies writes_group(#[trigger] f[i], g[i]) by {
        law_hex_reads_back(g[i] as nat);
    }
}

/// Law: the text of an IPv6 address reads back: its eight groups in hexadecimal with
/// colons between them, and the same with `::` in the place of any run of zero groups.
pub proof fn law_ipv6_text_reads_back(g: Seq<u16>, i: int, j: int)
    requires
        g.len() == 8,
        0 <= i < j <= 8,
        forall|k: int| i <= k < j ==> #[trigger] g[k] == 0,
    ensures
        ipv6_value(joined(hex_groups(g), ':')) == Some(g),
        ipv6_value(
            joined(hex_groups(g.take(i)), ':') + seq![':', ':'] + joined(
                hex_groups(g.skip(j)),
                ':',
            ),
        ) == Some(g),
{
    let a = g.take(i);
    let b = g.skip(j);
    lemma_hex_groups(g);
    lemma_hex_groups(a);
    lemma_hex_groups(b);
    law_ipv6_of_eight_groups(hex_groups(g), g);
    law_ipv6_with_zeros_left_out(hex_groups(a), a, hex_groups(b), b);
    assert(a + zero_groups((8 - a.len() - b.len()) as nat) + b =~= g);
}

/// Law: no other text is read as an IPv6 address. What is read is eight groups, or
/// groups around one `::` with zero groups in its place.
pub proof fn law_ipv6_is_written_in_groups(s: Seq<char>)
    requires
        ipv6_value(s) is Some,
    ensures
        ipv6_value(s)->0.len() == 8,
        ({
            let g = ipv6_value(s)->0;
            ||| exists|f: Seq<Seq<char>>| #[trigger] write_groups_or_v4(f, g) && s == joined(f, ':')
            ||| exists|hf: Seq<Seq<char>>, hg: Seq<u16>, tf: Seq<Seq<char>>, tg: Seq<u16>| #[trigger]
                write_groups(hf, hg) && #[trigger] write_groups_or_v4(tf, tg) && hg.len() + tg.len()
                    <= 7 && s == joined(hf, ':') + seq![':', ':'] + joined(tf, ':') && g == hg
                    + zero_groups((8 - hg.len() - tg.len()) as nat) + tg
        }),
{
    let g = ipv6_value(s)->0;
    let n = until_pair(s, ':', ':') as int;
    lemma_until_pair(s, ':', ':');
    if n >= s.len() {
        let f = fields(s, ':');
        lemma_fields_written(f, true);
        law_fields_join_back(s, ':');
        assert(write_groups_or_v4(f, g));
    } else {
        let a = s.take(n);
        let b = s.skip(n + 2);
        let hg = side_groups(a, false)->0;
        let tg = side_groups(b, true)->0;
        let none = Seq::<Seq<char>>::empty();
        let hf = if a.len() == 0 {
            none
        } else {
            fields(a, ':')
        };
        let tf = if b.len() == 0 {
            none
        } else {
            fields(b, ':')
        };
        if a.len() > 0 {
            lemma_fields_written(hf, false);
            law_fields_join_back(a, ':');
        } else {
            assert(joined(hf, ':') =~= a);
        }
        if b.len() > 0 {
            lemma_fields_written(tf, true);
            law_fields_join_back(b, ':');
        } else {
            assert(joined(tf, ':') =~= b);
        }
        assert(write_groups(hf, hg));
        assert(write_groups_or_v4(tf, tg));
        assert(s =~= a + seq![':', ':'] + b);
        let zeros = Seq::new((8 - hg.len() - tg.len()) as nat, |k: int| 0u16);
        assert(zeros =~= zero_groups((8 - hg.len() - tg.len()) as nat));
    }
}

/// Law: the octets of groups are their high and low bytes, in network order.
pub proof fn law_octets_of_groups(g: Seq<u16>, k: int)
    requires
        g.len() == 8,
        0 <= k < 8,
    ensures
        group_octets(g).len() == 16,
        group_octets(g)[2 * k] * 256 + group_octets(g)[2 * k + 1] == g[k],
{
    assert((2 * k) / 2 == k && (2 * k + 1) / 2 == k);
}

proof fn lemma_joined_hold(parts: Seq<Seq<char>>, sep: char, k: int)
    requires
        0 <= k < joined(parts, sep).len(),
    ensures
        joined(parts, sep)[k] == sep || exists|i: int|
            0 <= i < parts.len() && (#[trigger] parts[i]).contains(joined(parts, sep)[k]),
    decreases parts.len(),
{
    let s = joined(parts, sep);
    if parts.len() == 1 {
        assert(parts[0].contains(s[k]));
    } else {
        let rest = parts.drop_first();
        let n = parts[0].len() as int;
        if k < n {
            assert(parts[0][k] == s[k]);
            assert(parts[0].contains(s[k]));
        } else if k > n {
            let t = joined(rest, sep);
            assert(t[k - n - 1] == s[k]);
            lemma_joined_hold(rest, sep, k - n - 1);
            if t[k - n - 1] != sep {
                let i = choose|i: int|
                    0 <= i < rest.len() && (#[trigger] rest[i]).contains(t[k - n - 1]);
                assert(parts[i + 1] == rest[i]);
            }
        }
    }
}

proof fn lemma_groups_hold(f: Seq<Seq<char>>, g: Seq<u16>, k: int)
    requires
        write_groups_or_v4(f, g),
        0 <= k < joined(f, ':').len(),
    ensures
        joined(f, ':')[k] == ':' || joined(f, ':')[k] == '.' || digit_of(joined(f, ':')[k]) < 16,
{
    let s = joined(f, ':');
    lemma_joined_hold(f, ':', k);
    if s[k] != ':' {
        let i = choose|i: int| 0 <= i < f.len() && (#[trigger] f[i]).contains(s[k]);
        let m = choose|m: int| 0 <= m < f[i].len() && f[i][m] == s[k];
        if write_groups(f, g) {
            assert(writes_group(f[i], g[i]));
            assert(digit_of(f[i][m]) < 16);
        } else if i < f.len() - 1 {
            assert(f.drop_last()[i] == f[i]);
            assert(writes_group(f.drop_last()[i], g.take(f.len() - 1)[i]));
            assert(digit_of(f[i][m]) < 16);
        } else {
            let bits = (g[f.len() - 1] * 65536 + g[f.len() as int]) as u32;
            assert(f[i] == f.last());
            law_ipv4_text_reads_back(bits);
            lemma_ipv4_chars(f[i], m);
        }
    }
}

/// Law: a text that is read as an IPv6 address is made of hexadecimal digits, colons and
/// dots.
pub proof fn law_ipv6_characters(s: Seq<char>, k: int)
    requires
        ipv6_value(s) is Some,
        0 <= k < s.len(),
    ensures
        s[k] == ':' || s[k] == '.' || '0' <= s[k] <= '9' || 'a' <= s[k] <= 'f' || 'A' <= s[k]
            <= 'F',
{
    let g = ipv6_value(s)->0;
    law_ipv6_is_written_in_groups(s);
    if exists|f: Seq<Seq<char>>| #[trigger] write_groups_or_v4(f, g) && s == joined(f, ':') {
        let f = choose|f: Seq<Seq<char>>| #[trigger]
            write_groups_or_v4(f, g) && s == joined(f, ':');
        lemma_groups_hold(f, g, k);
    } else {
        let (hf, hg, tf, tg) = choose|
            hf: Seq<Seq<char>>,
            hg: Seq<u16>,
            tf: Seq<Seq<char>>,
            tg: Seq<u16>,
        | #[trigger]
            write_groups(hf, hg) && #[trigger] write_groups_or_v4(tf, tg) && hg.len() + tg.len()
                <= 7 && s == joined(hf, ':') + seq![':', ':'] + joined(tf, ':') && g == hg
                + zero_groups((8 - hg.len() - tg.len()) as nat) + tg;
        let n = joined(hf, ':').len() as int;
        if k < n {
            assert(s[k] == joined(hf, ':')[k]);
            lemma_groups_hold(hf, hg, k);
        } else if k >= n + 2 {
            assert(s[k] == joined(tf, ':')[k - n - 2]);
            lemma_groups_hold(tf, tg, k - n - 2);
        }
    }
}

/// Law: a text that is read as an IPv4 address is made of digits and dots.
pub proof fn law_ipv4_characters(s: Seq<char>, k: int)
    requires
        ipv4_value(s) is Some,
        0 <= k < s.len(),
    ensures
        s[k] == '.' || '0' <= s[k] <= '9',
{
    lemma_ipv4_chars(s, k);
}

/// Law: [`parse_ipv4`] reads the dotted text of an address, and nothing else, as that
/// address, and [`Ipv4Addr::new`] makes the address whose text has the given octets.
pub proof fn law_parse_ipv4(
    s: &str,
    r: Option<Ipv4Addr>,
    a: u8,
    b: u8,
    c: u8,
    d: u8,
    made: Ipv4Addr,
)
    requires
        call_ensures(parse_ipv4, (s,), r),
        call_ensures(Ipv4Addr::new, (a, b, c, d), made),
    ensures
        r == Some(made) <==> s@ == joined(
            seq![decimal(a as nat), decimal(b as nat), decimal(c as nat), decimal(d as nat)],
            '.',
        ),
        r matches Some(ip) ==> s@ == ipv4_text(ip.bits),
{
    let text = joined(
        seq![decimal(a as nat), decimal(b as nat), decimal(c as nat), decimal(d as nat)],
        '.',
    );
    law_ipv4_of_octets(a as nat, b as nat, c as nat, d as nat);
    law_ipv4_text_is_unique(text, made.bits);
    law_ipv4_text_is_unique(s@, made.bits);
    if let Some(ip) = r {
        law_ipv4_text_is_unique(s@, ip.bits);
    }
}

/// Law: [`parse_ipv6`] reads the text of an address as that address: its groups in
/// hexadecimal with colons between them, or with `::` in the place of a run of zero groups.
pub proof fn law_parse_ipv6(s: &str, r: Option<Ipv6Addr>, g: Seq<u16>, i: int, j: int)
    requires
        call_ensures(parse_ipv6, (s,), r),
        g.len() == 8,
        0 <= i < j <= 8,
        forall|k: int| i <= k < j ==> #[trigger] g[k] == 0,
        s@ == joined(hex_groups(g), ':') || s@ == joined(hex_groups(g.take(i)), ':') + seq![
            ':',
            ':',
        ] + joined(hex_groups(g.skip(j)), ':'),
    ensures
        r matches Some(ip) && forall|k: int|
            0 <= k < 8 ==> ip.octets@[2 * k] * 256 + ip.octets@[2 * k + 1] == #[trigger] g[k],
{
    law_ipv6_text_reads_back(g, i, j);
    assert forall|k: int| 0 <= k < 8 implies r->0.octets@[2 * k] * 256 + r->0.octets@[2 * k + 1]
        == #[trigger] g[k] by {
        law_octets_of_groups(g, k);
    }
}

/// Law: eight groups without zeros left out are read too, whatever they are, and groups
/// around `::` with the last two as a dotted IPv4 address.
pub proof fn law_parse_ipv6_forms(
    s: &str,
    r: Option<Ipv6Addr>,
    g: Seq<u16>,
    hg: Seq<u16>,
    tg: Seq<u16>,
    bits: u32,
)
    requires
        call_ensures(parse_ipv6, (s,), r),
        g.len() == 8,
        ({
            ||| s@ == joined(hex_groups(g), ':')
            ||| {
                &&& hg.len() + tg.len() <= 5
                &&& s@ == joined(hex_groups(hg), ':') + seq![':', ':'] + joined(
                    hex_groups(tg).push(ipv4_text(bits)),
                    ':',
                )
                &&& g == hg + zero_groups((6 - hg.len() - tg.len()) as nat) + tg + seq![
                    (bits / 65536) as u16,
                    (bits % 65536) as u16,
                ]
            }
        }),
    ensures
        r matches Some(ip) && ip.octets@ == group_octets(g),
{
    if s@ == joined(hex_groups(g), ':') {
        lemma_hex_groups(g);
        law_ipv6_of_eight_groups(hex_groups(g), g);
    } else {
        let tf = hex_groups(tg).push(ipv4_text(bits));
        let two = seq![(bits / 65536) as u16, (bits % 65536) as u16];
        let all = tg + two;
        lemma_hex_groups(hg);
        lemma_hex_groups(tg);
        assert(tf.drop_last() =~= hex_groups(tg));
        assert(all.take(tf.len() - 1) =~= tg);
        assert(all[tf.len() - 1] == two[0] && all[tf.len() as int] == two[1]);
        assert((bits / 65536) * 65536 + bits % 65536 == bits);
        law_ipv6_with_zeros_left_out(hex_groups(hg), hg, tf, all);
        assert(hg + zero_groups((8 - hg.len() - all.len()) as nat) + all =~= g);
    }
}

} // verus!
