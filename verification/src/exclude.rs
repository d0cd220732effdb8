//! The list of destinations that are reached directly.
//!
//! A redirected connection whose destination matches an entry bypasses the
//! upstream proxy. An entry is a plain address, which stands for that one host
//! (`/32` for IPv4, `/128` for IPv6), or a block `address/prefix`. Entries of both
//! families may stand in one list. Host bits of a block are cleared, so that
//! `10.0.0.5/24` and `10.0.0.0/24` behave identically.
use crate::addr::{
    group_octets, hex_groups, ipv4_value, ipv6_value, law_families_are_told_apart,
    law_ipv4_of_octets, law_ipv6_characters, law_ipv6_text_reads_back, lemma_ipv4_chars, read_ipv4,
    read_ipv6, IpAddr, Ipv4Addr, Ipv6Addr,
};
use crate::number::{decimal, law_decimal_reads_back, parse_uint, uint_up_to};
use crate::text::{
    chars_of, find, is_space, joined, law_trimming, lemma_until, lemma_until_is, push_chars,
    push_text, trim, trimmed, until,
};
use vstd::arithmetic::power2::{lemma2_to64, pow2};
use vstd::bits::{lemma_u32_shr_is_div, lemma_u8_shr_is_div};
use vstd::prelude::*;
use vstd::slice::slice_subrange;

verus! {

/// Bit `i` of an IPv4 address, counted from the most significant.
pub open spec fn bit_v4(bits: u32, i: int) -> bool {
    (bits >> ((31 - i) as u32)) & 1 == 1
}

/// Whether two IPv4 addresses agree in their first `prefix` bits.
pub open spec fn agree_v4(a: u32, b: u32, prefix: nat) -> bool {
    forall|i: int| 0 <= i < prefix ==> #[trigger] bit_v4(a, i) == bit_v4(b, i)
}

/// Bit `i` of an IPv6 address, counted from the most significant.
pub open spec fn bit_v6(octets: Seq<u8>, i: int) -> bool {
    octet_bit(octets[i / 8], i % 8)
}

/// Bit `i` of an octet, counted from the most significant.
pub open spec fn octet_bit(b: u8, i: int) -> bool {
    (b >> ((7 - i) as u8)) & 1 == 1
}

/// Whether two IPv6 addresses agree in their first `prefix` bits.
pub open spec fn agree_v6(a: Seq<u8>, b: Seq<u8>, prefix: nat) -> bool {
    forall|i: int| 0 <= i < prefix ==> #[trigger] bit_v6(a, i) == bit_v6(b, i)
}

/// The number whose first `prefix` bits are set, and no others.
pub open spec fn mask_v4(prefix: nat) -> u32 {
    if prefix == 0 {
        0
    } else {
        0xffff_ffffu32 << ((32 - prefix) as u32)
    }
}

/// The octet whose first `n` bits are set, and no others.
pub open spec fn octet_mask(n: int) -> u8 {
    0xffu8 << ((8 - n) as u8)
}

/// The octets with every bit behind the first `prefix` cleared.
pub open spec fn masked_v6(octets: Seq<u8>, prefix: nat) -> Seq<u8> {
    Seq::new(
        16,
        |i: int|
            if 8 * i + 8 <= prefix {
                octets[i]
            } else if 8 * i < prefix {
                octets[i] & octet_mask(prefix - 8 * i)
            } else {
                0
            },
    )
}

/// A block of addresses: those that agree with the given one in the first `prefix`
/// bits.
pub enum Block {
    V4 { bits: u32, prefix: nat },
    V6 { octets: Seq<u8>, prefix: nat },
}

/// The block of the IPv4 addresses that agree with `bits` in the first `prefix`
/// bits, with the host bits cleared.
pub open spec fn block_v4(bits: u32, prefix: nat) -> Block {
    Block::V4 { bits: bits & mask_v4(prefix), prefix }
}

/// The block of the IPv6 addresses that agree with `octets` in the first `prefix`
/// bits, with the host bits cleared.
pub open spec fn block_v6(octets: Seq<u8>, prefix: nat) -> Block {
    Block::V6 { octets: masked_v6(octets, prefix), prefix }
}

impl Block {
    /// Whether the address lies in the block. A block holds addresses of its own
    /// family only.
    pub open spec fn covers(self, ip: IpAddr) -> bool {
        match (self, ip) {
            (Block::V4 { bits, prefix }, IpAddr::V4(a)) => agree_v4(a.bits, bits, prefix),
            (Block::V6 { octets, prefix }, IpAddr::V6(a)) => agree_v6(a.octets@, octets, prefix),
            _ => false,
        }
    }
}

/// The prefix length behind the slash at `slash`; `max` where there is no slash.
pub open spec fn prefix_value(s: Seq<char>, slash: int, max: nat) -> Option<nat> {
    if slash >= s.len() {
        Some(max)
    } else {
        uint_up_to(s.skip(slash + 1), max)
    }
}

/// The block that an entry writes: an address, or an address, a slash and the
/// number of leading bits that count.
pub open spec fn entry_block(s: Seq<char>) -> Option<Block> {
    let n = until(s, '/') as int;
    let ip = s.take(n);
    if ipv4_value(ip) is Some {
        match prefix_value(s, n, 32) {
            Some(p) => Some(block_v4(ipv4_value(ip)->0, p)),
            None => None,
        }
    } else if ipv6_value(ip) is Some {
        match prefix_value(s, n, 128) {
            Some(p) => Some(block_v6(group_octets(ipv6_value(ip)->0), p)),
            None => None,
        }
    } else {
        None
    }
}

/// The message about an entry that writes no block.
pub open spec fn invalid_entry(s: Seq<char>) -> Seq<char> {
    "invalid IP address or CIDR: '"@ + s + "'"@
}

/// The blocks that a list of entries writes, in order, or the message about the
/// first entry that writes none. Whitespace around an entry does not count, and
/// blank entries are skipped.
pub open spec fn list_blocks(entries: Seq<Seq<char>>) -> Result<Seq<Block>, Seq<char>>
    decreases entries.len(),
{
    if entries.len() == 0 {
        Ok(seq![])
    } else {
        let t = trimmed(entries[0]);
        let rest = entries.drop_first();
        if t.len() == 0 {
            list_blocks(rest)
        } else if entry_block(t) is None {
            Err(invalid_entry(t))
        } else {
            match list_blocks(rest) {
                Ok(blocks) => Ok(seq![entry_block(t)->0] + blocks),
                Err(e) => Err(e),
            }
        }
    }
}

/// The IPv4 blocks among `blocks`, in order.
pub open spec fn v4_only(blocks: Seq<Block>) -> Seq<Block> {
    blocks.filter(|b: Block| b is V4)
}

/// The IPv6 blocks among `blocks`, in order.
pub open spec fn v6_only(blocks: Seq<Block>) -> Seq<Block> {
    blocks.filter(|b: Block| b is V6)
}

/// Whether one of the blocks holds the address.
pub open spec fn any_covers(blocks: Seq<Block>, ip: IpAddr) -> bool {
    exists|i: int| 0 <= i < blocks.len() && (#[trigger] blocks[i]).covers(ip)
}

/// Destinations that bypass the upstream proxy.
#[derive(Debug)]
pub struct ExcludeList {
    v4: Vec<CidrV4>,
    v6: Vec<CidrV6>,
}

#[derive(Debug, Clone, Copy)]
struct CidrV4 {
    network: u32,
    mask: u32,
}

#[derive(Debug, Clone, Copy)]
struct CidrV6 {
    network: [u8; 16],
    prefix: u8,
}

enum ParsedEntry {
    V4(CidrV4),
    V6(CidrV6),
}

/// The prefix length of a mask.
spec fn mask_prefix(mask: u32) -> nat {
    choose|p: nat| p <= 32 && mask_v4(p) == mask
}

impl CidrV4 {
    spec fn wf(self) -> bool {
        &&& mask_prefix(self.mask) <= 32
        &&& mask_v4(mask_prefix(self.mask)) == self.mask
        &&& self.network & self.mask == self.network
    }

    spec fn block(self) -> Block {
        Block::V4 { bits: self.network, prefix: mask_prefix(self.mask) }
    }
}

impl CidrV6 {
    spec fn wf(self) -> bool {
        self.prefix <= 128
    }

    spec fn block(self) -> Block {
        Block::V6 { octets: self.network@, prefix: self.prefix as nat }
    }
}

impl ParsedEntry {
    spec fn wf(self) -> bool {
        match self {
            ParsedEntry::V4(e) => e.wf(),
            ParsedEntry::V6(e) => e.wf(),
        }
    }

    spec fn block(self) -> Block {
        match self {
            ParsedEntry::V4(e) => e.block(),
            ParsedEntry::V6(e) => e.block(),
        }
    }
}

/// Two masks with the same bits have the same prefix length.
proof fn lemma_mask_prefix(p: nat)
    requires
        p <= 32,
    ensures
        mask_prefix(mask_v4(p)) == p,
{
    let q = mask_prefix(mask_v4(p));
    assert(q <= 32 && mask_v4(q) == mask_v4(p));
    let a = (32 - p) as u32;
    let b = (32 - q) as u32;
    assert(a < 32 && b < 32 && 0xffff_ffffu32 << a == 0xffff_ffffu32 << b ==> a == b)
        by (bit_vector);
    assert(a < 32 ==> 0xffff_ffffu32 << a != 0) by (bit_vector);
    assert(b < 32 ==> 0xffff_ffffu32 << b != 0) by (bit_vector);
}

/// Masking two IPv4 addresses gives the same number exactly where they agree in
/// the first bits.
pub proof fn lemma_masked_v4(a: u32, b: u32, p: nat)
    requires
        p <= 32,
    ensures
        (a & mask_v4(p)) == (b & mask_v4(p)) <==> agree_v4(a, b, p),
    decreases p,
{
    if p == 0 {
        assert(a & 0 == b & 0) by (bit_vector);
    } else {
        let q = (p - 1) as nat;
        lemma_masked_v4(a, b, q);
        let s = (32 - p) as u32;
        let i = q as int;
        assert(bit_v4(a, i) == ((a >> s) & 1 == 1));
        assert(bit_v4(b, i) == ((b >> s) & 1 == 1));
        if q == 0 {
            assert(a & 0 == b & 0) by (bit_vector);
            assert((a & (0xffff_ffffu32 << 31u32)) == (b & (0xffff_ffffu32 << 31u32)) <==> ((a
                >> 31u32) & 1 == 1) == ((b >> 31u32) & 1 == 1)) by (bit_vector);
        } else {
            let m = (s + 1) as u32;
            assert(mask_v4(q) == 0xffff_ffffu32 << m);
            assert((a & (0xffff_ffffu32 << s)) == (b & (0xffff_ffffu32 << s)) <==> ((a & (
            0xffff_ffffu32 << m)) == (b & (0xffff_ffffu32 << m)) && ((a >> s) & 1 == 1) == ((b
                >> s) & 1 == 1))) by (bit_vector)
                requires
                    s < 31,
                    m == s + 1,
            ;
        }
        if agree_v4(a, b, p) {
            assert(agree_v4(a, b, q));
            assert(bit_v4(a, i) == bit_v4(b, i));
        }
        if agree_v4(a, b, q) && bit_v4(a, i) == bit_v4(b, i) {
            assert forall|k: int| 0 <= k < p implies #[trigger] bit_v4(a, k) == bit_v4(b, k) by {
                if k < q {
                }
            }
        }
    }
}

/// Two octets are equal exactly where their bits are.
proof fn lemma_octet_bits(a: u8, b: u8)
    ensures
        a == b <==> (forall|i: int| 0 <= i < 8 ==> #[trigger] octet_bit(a, i) == octet_bit(b, i)),
{
    if forall|i: int| 0 <= i < 8 ==> #[trigger] octet_bit(a, i) == octet_bit(b, i) {
        assert(octet_bit(a, 0) == octet_bit(b, 0));
        assert(octet_bit(a, 1) == octet_bit(b, 1));
        assert(octet_bit(a, 2) == octet_bit(b, 2));
        assert(octet_bit(a, 3) == octet_bit(b, 3));
        assert(octet_bit(a, 4) == octet_bit(b, 4));
        assert(octet_bit(a, 5) == octet_bit(b, 5));
        assert(octet_bit(a, 6) == octet_bit(b, 6));
        assert(octet_bit(a, 7) == octet_bit(b, 7));
        assert(a == b) by (bit_vector)
            requires
                ((a >> 7u8) & 1 == 1) == ((b >> 7u8) & 1 == 1),
                ((a >> 6u8) & 1 == 1) == ((b >> 6u8) & 1 == 1),
                ((a >> 5u8) & 1 == 1) == ((b >> 5u8) & 1 == 1),
                ((a >> 4u8) & 1 == 1) == ((b >> 4u8) & 1 == 1),
                ((a >> 3u8) & 1 == 1) == ((b >> 3u8) & 1 == 1),
                ((a >> 2u8) & 1 == 1) == ((b >> 2u8) & 1 == 1),
                ((a >> 1u8) & 1 == 1) == ((b >> 1u8) & 1 == 1),
                ((a >> 0u8) & 1 == 1) == ((b >> 0u8) & 1 == 1),
        ;
    }
}

/// Masking an octet keeps its first `n` bits and clears the others.
proof fn lemma_octet_mask(a: u8, n: int, i: int)
    requires
        0 < n < 8,
        0 <= i < 8,
    ensures
        octet_bit(a & octet_mask(n), i) == (i < n && octet_bit(a, i)),
{
    let s = (8 - n) as u8;
    let t = (7 - i) as u8;
    assert((((a & (0xffu8 << s)) >> t) & 1 == 1) == (t >= s && (a >> t) & 1 == 1)) by (bit_vector)
        requires
            0 < s < 8,
            t < 8,
    ;
}

/// Masking two octets gives the same octet exactly where their first `n` bits are
/// equal.
proof fn lemma_octet_masked(a: u8, b: u8, n: int)
    requires
        0 < n < 8,
    ensures
        (a & octet_mask(n)) == (b & octet_mask(n)) <==> (forall|i: int|
            0 <= i < n ==> #[trigger] octet_bit(a, i) == octet_bit(b, i)),
{
    let x = a & octet_mask(n);
    let y = b & octet_mask(n);
    lemma_octet_bits(x, y);
    assert forall|i: int| 0 <= i < 8 implies #[trigger] octet_bit(x, i) == (i < n && octet_bit(
        a,
        i,
    )) by {
        lemma_octet_mask(a, n, i);
    }
    assert forall|i: int| 0 <= i < 8 implies #[trigger] octet_bit(y, i) == (i < n && octet_bit(
        b,
        i,
    )) by {
        lemma_octet_mask(b, n, i);
    }
    if x == y {
        assert forall|i: int| 0 <= i < n implies #[trigger] octet_bit(a, i) == octet_bit(b, i) by {
            assert(octet_bit(x, i) == octet_bit(y, i));
        }
    }
}

/// Two IPv6 addresses that agree in their first bits agree in each octet that the
/// prefix holds.
proof fn lemma_agree_octet(a: Seq<u8>, b: Seq<u8>, p: nat, k: int)
    requires
        a.len() == 16,
        b.len() == 16,
        agree_v6(a, b, p),
        0 <= k,
        8 * k + 8 <= p <= 128,
    ensures
        a[k] == b[k],
{
    assert forall|i: int| 0 <= i < 8 implies #[trigger] octet_bit(a[k], i) == octet_bit(
        b[k],
        i,
    ) by {
        assert(bit_v6(a, 8 * k + i) == bit_v6(b, 8 * k + i));
        assert((8 * k + i) / 8 == k && (8 * k + i) % 8 == i);
    }
    lemma_octet_bits(a[k], b[k]);
}

/// Masking two IPv6 addresses gives the same octets exactly where they agree in
/// the first bits.
pub proof fn lemma_masked_v6(a: Seq<u8>, b: Seq<u8>, p: nat)
    requires
        a.len() == 16,
        b.len() == 16,
        p <= 128,
    ensures
        masked_v6(a, p) == masked_v6(b, p) <==> agree_v6(a, b, p),
{
    let x = masked_v6(a, p);
    let y = masked_v6(b, p);
    if agree_v6(a, b, p) {
        assert forall|k: int| 0 <= k < 16 implies x[k] == y[k] by {
            if 8 * k + 8 <= p {
                lemma_agree_octet(a, b, p, k);
            } else if 8 * k < p {
                let n = p - 8 * k;
                assert forall|i: int| 0 <= i < n implies #[trigger] octet_bit(a[k], i)
                    == octet_bit(b[k], i) by {
                    assert(bit_v6(a, 8 * k + i) == bit_v6(b, 8 * k + i));
                    assert((8 * k + i) / 8 == k && (8 * k + i) % 8 == i);
                }
                lemma_octet_masked(a[k], b[k], n);
            }
        }
        assert(x =~= y);
    }
    if x == y {
        assert forall|i: int| 0 <= i < p implies #[trigger] bit_v6(a, i) == bit_v6(b, i) by {
            let k = i / 8;
            assert(x[k] == y[k]);
            if 8 * k + 8 <= p {
                assert(a[k] == b[k]);
            } else {
                let n = p - 8 * k;
                lemma_octet_masked(a[k], b[k], n);
                assert(octet_bit(a[k], i % 8) == octet_bit(b[k], i % 8));
            }
        }
    }
}

/// Clearing host bits twice changes nothing more.
pub proof fn lemma_masked_v6_twice(a: Seq<u8>, p: nat)
    requires
        a.len() == 16,
        p <= 128,
    ensures
        masked_v6(masked_v6(a, p), p) == masked_v6(a, p),
{
    let x = masked_v6(a, p);
    assert forall|k: int| 0 <= k < 16 implies masked_v6(x, p)[k] == x[k] by {
        if 8 * k < p && 8 * k + 8 > p {
            let b = a[k];
            let m = octet_mask(p - 8 * k);
            assert((b & m) & m == b & m) by (bit_vector);
        }
    }
    assert(masked_v6(x, p) =~= x);
}

/// Whether the first `prefix` bits of two IPv6 addresses are equal. The other bits
/// do not count, on either side.
pub fn masked_eq(addr: &[u8; 16], network: &[u8; 16], prefix: u8) -> (r: bool)
    requires
        prefix <= 128,
    ensures
        r == agree_v6(addr@, network@, prefix as nat),
{
    let full_bytes: usize = (prefix / 8) as usize;
    let mut i: usize = 0;
    while i < full_bytes
        invariant
            i <= full_bytes,
            full_bytes == prefix / 8,
            prefix <= 128,
            forall|k: int| 0 <= k < i ==> addr@[k] == network@[k],
        decreases full_bytes - i,
    {
        if addr[i] != network[i] {
            proof {
                if agree_v6(addr@, network@, prefix as nat) {
                    lemma_agree_octet(addr@, network@, prefix as nat, i as int);
                }
            }
            return false;
        }
        i += 1;
    }
    let leftover: u8 = prefix % 8;
    if leftover == 0 {
        assert forall|i: int| 0 <= i < prefix implies #[trigger] bit_v6(addr@, i) == bit_v6(
            network@,
            i,
        ) by {
            assert(i / 8 < full_bytes);
        }
        return true;
    }
    let mask: u8 = 0xffu8 << (8 - leftover);
    proof {
        let a = addr@[full_bytes as int];
        let b = network@[full_bytes as int];
        let base = 8 * full_bytes as int;
        assert(mask == octet_mask(leftover as int));
        lemma_octet_masked(a, b, leftover as int);
        if agree_v6(addr@, network@, prefix as nat) {
            assert forall|i: int| 0 <= i < leftover implies #[trigger] octet_bit(a, i)
                == octet_bit(b, i) by {
                assert(bit_v6(addr@, base + i) == bit_v6(network@, base + i));
                assert((base + i) / 8 == full_bytes && (base + i) % 8 == i);
            }
        }
        if forall|i: int|
            0 <= i < leftover ==> #[trigger] octet_bit(a, i) == octet_bit(b, i) {
            assert forall|i: int| 0 <= i < prefix implies #[trigger] bit_v6(addr@, i) == bit_v6(
                network@,
                i,
            ) by {
                if i >= base {
                    assert(i / 8 == full_bytes);
                    assert(octet_bit(a, i % 8) == octet_bit(b, i % 8));
                } else {
                    assert(i / 8 < full_bytes);
                }
            }
        }
    }
    (addr[full_bytes] & mask) == (network[full_bytes] & mask)
}

/// Parses one entry: `a.b.c.d`, `a.b.c.d/p`, `::1`, `2001:db8::/32`.
fn parse_entry(s: &[char]) -> (r: Option<ParsedEntry>)
    ensures
        r is Some == entry_block(s@) is Some,
        r matches Some(e) ==> e.wf() && entry_block(s@) == Some(e.block()),
{
    let slash = find(s, '/');
    let end: usize = match slash {
        Some(i) => i,
        None => s.len(),
    };
    let ip_text = slice_subrange(s, 0, end);
    assert(ip_text@ =~= s@.take(until(s@, '/') as int));
    if let Some(ip) = read_ipv4(ip_text) {
        let prefix: u32 = match slash {
            Some(i) => {
                assert(i < s.len());
                let p = slice_subrange(s, i + 1, s.len());
                assert(p@ =~= s@.skip(i + 1));
                match parse_uint(p, 32) {
                    Some(n) => n,
                    None => return None,
                }
            },
            None => 32,
        };
        let mask: u32 = if prefix == 0 {
            0
        } else {
            0xffff_ffffu32 << (32 - prefix)
        };
        proof {
            assert(mask == mask_v4(prefix as nat));
            lemma_mask_prefix(prefix as nat);
            let b = ip.bits;
            assert((b & mask) & mask == b & mask) by (bit_vector);
        }
        return Some(ParsedEntry::V4(CidrV4 { network: ip.bits & mask, mask }));
    }
    let ip = match read_ipv6(ip_text) {
        Some(ip) => ip,
        None => return None,
    };
    let prefix: u32 = match slash {
        Some(i) => {
            assert(i < s.len());
            let p = slice_subrange(s, i + 1, s.len());
            assert(p@ =~= s@.skip(i + 1));
            match parse_uint(p, 128) {
                Some(n) => n,
                None => return None,
            }
        },
        None => 128,
    };
    let octets = ip.octets;
    let mut network: [u8; 16] = [0; 16];
    let full_bytes: usize = (prefix / 8) as usize;
    let mut i: usize = 0;
    while i < full_bytes
        invariant
            i <= full_bytes,
            full_bytes == prefix / 8,
            prefix <= 128,
            forall|k: int| 0 <= k < i ==> network@[k] == octets@[k],
            forall|k: int| i <= k < 16 ==> network@[k] == 0,
        decreases full_bytes - i,
    {
        network[i] = octets[i];
        i += 1;
    }
    if full_bytes < 16 {
        let leftover: u32 = prefix % 8;
        if leftover != 0 {
            let mask: u8 = 0xffu8 << ((8 - leftover) as u8);
            assert(mask == octet_mask(prefix - 8 * full_bytes));
            network[full_bytes] = octets[full_bytes] & mask;
        }
    }
    assert(network@ =~= masked_v6(octets@, prefix as nat));
    Some(ParsedEntry::V6(CidrV6 { network, prefix: prefix as u8 }))
}

/// The character sequences of a list of string slices.
pub open spec fn texts(strs: Seq<&str>) -> Seq<Seq<char>> {
    Seq::new(strs.len(), |i: int| strs[i]@)
}

impl ExcludeList {
    #[verifier::type_invariant]
    spec fn wf(self) -> bool {
        &&& self.v4@.len() + self.v6@.len() <= usize::MAX
        &&& forall|i: int| 0 <= i < self.v4@.len() ==> (#[trigger] self.v4@[i]).wf()
        &&& forall|i: int| 0 <= i < self.v6@.len() ==> (#[trigger] self.v6@[i]).wf()
    }

    /// The IPv4 blocks of the list, in the order of their entries.
    pub closed spec fn v4_blocks(self) -> Seq<Block> {
        Seq::new(self.v4@.len(), |i: int| self.v4@[i].block())
    }

    /// The IPv6 blocks of the list, in the order of their entries.
    pub closed spec fn v6_blocks(self) -> Seq<Block> {
        Seq::new(self.v6@.len(), |i: int| self.v6@[i].block())
    }

    /// Whether a block of the list holds the address.
    pub open spec fn covers(self, ip: IpAddr) -> bool {
        match ip {
            IpAddr::V4(_) => any_covers(self.v4_blocks(), ip),
            IpAddr::V6(_) => any_covers(self.v6_blocks(), ip),
        }
    }

    /// Whether the list holds the blocks that the entries write.
    pub open spec fn is_list_of(self, blocks: Seq<Block>) -> bool {
        self.v4_blocks() == v4_only(blocks) && self.v6_blocks() == v6_only(blocks)
    }

    /// Builds the list from entries `address` or `address/prefix`.
    ///
    /// Blank entries are skipped. The first entry that writes no block is
    /// returned as a human-readable message.
    pub fn from_strs(strs: &[&str]) -> (r: Result<Self, String>)
        ensures
            r is Ok == list_blocks(texts(strs@)) is Ok,
            r matches Ok(list) ==> list.is_list_of(list_blocks(texts(strs@))->Ok_0),
            r matches Err(e) ==> e@ == list_blocks(texts(strs@))->Err_0,
    {
        let mut v4: Vec<CidrV4> = Vec::new();
        let mut v6: Vec<CidrV6> = Vec::new();
        let ghost all = texts(strs@);
        let ghost mut done: Seq<Block> = seq![];
        let mut i: usize = 0;
        proof {
            assert(all.skip(0) =~= all);
            assert(forall|b: Seq<Block>| #[trigger] (done + b) =~= b);
            reveal(Seq::filter);
            assert(v4_blocks_of(v4@) =~= v4_only(done));
            assert(v6_blocks_of(v6@) =~= v6_only(done));
        }
        while i < strs.len()
            invariant
                i <= strs.len(),
                all == texts(strs@),
                v4@.len() + v6@.len() <= i,
                forall|k: int| 0 <= k < v4@.len() ==> (#[trigger] v4@[k]).wf(),
                forall|k: int| 0 <= k < v6@.len() ==> (#[trigger] v6@[k]).wf(),
                v4_blocks_of(v4@) == v4_only(done),
                v6_blocks_of(v6@) == v6_only(done),
                list_blocks(all.skip(i as int)) matches Ok(b) ==> list_blocks(all) == Ok::<
                    Seq<Block>,
                    Seq<char>,
                >(done + b),
                list_blocks(all.skip(i as int)) matches Err(e) ==> list_blocks(all) == Err::<
                    Seq<Block>,
                    Seq<char>,
                >(e),
            decreases strs@.len() - i,
        {
            let cs = chars_of(strs[i]);
            let s = trim(cs.as_slice());
            let ghost rest = all.skip(i as int);
            proof {
                assert(rest[0] == strs@[i as int]@);
                assert(rest.drop_first() =~= all.skip(i + 1));
            }
            if s.len() != 0 {
                match parse_entry(s) {
                    Some(e) => {
                        let ghost before = done;
                        proof {
                            done = before.push(e.block());
                            if let Ok(b) = list_blocks(all.skip(i + 1)) {
                                assert(before + (seq![e.block()] + b) =~= done + b);
                            }
                            lemma_only_push(before, e.block());
                        }
                        match e {
                            ParsedEntry::V4(e) => {
                                let ghost old_v4 = v4@;
                                v4.push(e);
                                assert(v4_blocks_of(v4@) =~= v4_blocks_of(old_v4).push(e.block()));
                            },
                            ParsedEntry::V6(e) => {
                                let ghost old_v6 = v6@;
                                v6.push(e);
                                assert(v6_blocks_of(v6@) =~= v6_blocks_of(old_v6).push(e.block()));
                            },
                        }
                    },
                    None => {
                        let mut message = String::new();
                        push_text(&mut message, "invalid IP address or CIDR: '");
                        push_chars(&mut message, s);
                        push_text(&mut message, "'");
                        assert(message@ =~= invalid_entry(s@));
                        return Err(message);
                    },
                }
            }
            i += 1;
        }
        proof {
            assert(all.skip(i as int).len() == 0);
            assert(done + seq![] =~= done);
        }
        let list = ExcludeList { v4, v6 };
        assert(list.v4_blocks() =~= v4_blocks_of(v4@));
        assert(list.v6_blocks() =~= v6_blocks_of(v6@));
        Ok(list)
    }

    /// Whether the address matches an entry of the list.
    pub fn contains(&self, ip: IpAddr) -> (r: bool)
        ensures
            r == self.covers(ip),
    {
        match ip {
            IpAddr::V4(a) => self.contains_v4(a),
            IpAddr::V6(a) => self.contains_v6(a),
        }
    }

    fn contains_v4(&self, ip: Ipv4Addr) -> (r: bool)
        ensures
            r == any_covers(self.v4_blocks(), IpAddr::V4(ip)),
    {
        proof {
            use_type_invariant(self);
        }
        let ghost blocks = self.v4_blocks();
        let mut i: usize = 0;
        while i < self.v4.len()
            invariant
                self.wf(),
                blocks == self.v4_blocks(),
                i <= self.v4@.len(),
                forall|k: int| 0 <= k < i ==> !(#[trigger] blocks[k]).covers(IpAddr::V4(ip)),
            decreases self.v4@.len() - i,
        {
            let e = self.v4[i];
            proof {
                assert(self.v4@[i as int].wf());
                lemma_masked_v4(ip.bits, e.network, mask_prefix(e.mask));
                assert(blocks[i as int] == e.block());
            }
            if (ip.bits & e.mask) == e.network {
                assert(blocks[i as int].covers(IpAddr::V4(ip)));
                return true;
            }
            i += 1;
        }
        false
    }

    fn contains_v6(&self, ip: Ipv6Addr) -> (r: bool)
        ensures
            r == any_covers(self.v6_blocks(), IpAddr::V6(ip)),
    {
        proof {
            use_type_invariant(self);
        }
        let ghost blocks = self.v6_blocks();
        let mut i: usize = 0;
        while i < self.v6.len()
            invariant
                self.wf(),
                blocks == self.v6_blocks(),
                i <= self.v6@.len(),
                forall|k: int| 0 <= k < i ==> !(#[trigger] blocks[k]).covers(IpAddr::V6(ip)),
            decreases self.v6@.len() - i,
        {
            let e = self.v6[i];
            proof {
                assert(self.v6@[i as int].wf());
                assert(blocks[i as int] == e.block());
            }
            if masked_eq(&ip.octets, &e.network, e.prefix) {
                assert(blocks[i as int].covers(IpAddr::V6(ip)));
                return true;
            }
            i += 1;
        }
        false
    }

    /// The number of entries of both families.
    pub fn len(&self) -> (r: usize)
        ensures
            r == self.v4_blocks().len() + self.v6_blocks().len(),
    {
        proof {
            use_type_invariant(self);
        }
        self.v4.len() + self.v6.len()
    }

    /// Whether the list has no entries.
    pub fn is_empty(&self) -> (r: bool)
        ensures
            r == (self.v4_blocks().len() == 0 && self.v6_blocks().len() == 0),
    {
        self.v4.is_empty() && self.v6.is_empty()
    }
}

impl Clone for ExcludeList {
    fn clone(&self) -> (r: Self)
        ensures
            r.v4_blocks() == self.v4_blocks(),
            r.v6_blocks() == self.v6_blocks(),
    {
        proof {
            use_type_invariant(self);
        }
        let v4 = self.v4.clone();
        let v6 = self.v6.clone();
        assert(v4@ =~= self.v4@);
        assert(v6@ =~= self.v6@);
        ExcludeList { v4, v6 }
    }
}

spec fn v4_blocks_of(v: Seq<CidrV4>) -> Seq<Block> {
    Seq::new(v.len(), |i: int| v[i].block())
}

spec fn v6_blocks_of(v: Seq<CidrV6>) -> Seq<Block> {
    Seq::new(v.len(), |i: int| v[i].block())
}

proof fn lemma_only_push(blocks: Seq<Block>, b: Block)
    ensures
        v4_only(blocks.push(b)) == (if b is V4 {
            v4_only(blocks).push(b)
        } else {
            v4_only(blocks)
        }),
        v6_only(blocks.push(b)) == (if b is V6 {
            v6_only(blocks).push(b)
        } else {
            v6_only(blocks)
        }),
{
    reveal(Seq::filter);
    assert(blocks.push(b).drop_last() =~= blocks);
}

/// Law: an address is on the list exactly where some entry's block holds it.
pub proof fn law_contains_some_entry(list: ExcludeList, blocks: Seq<Block>, ip: IpAddr)
    requires
        list.is_list_of(blocks),
    ensures
        list.covers(ip) == any_covers(blocks, ip),
{
    let is_v4 = |b: Block| b is V4;
    let is_v6 = |b: Block| b is V6;
    if list.covers(ip) {
        match ip {
            IpAddr::V4(_) => {
                let i = choose|i: int|
                    0 <= i < list.v4_blocks().len() && (#[trigger] list.v4_blocks()[i]).covers(ip);
                let b = list.v4_blocks()[i];
                assert(blocks.filter(is_v4).contains(b));
                blocks.lemma_filter_contains_rev(is_v4, b);
            },
            IpAddr::V6(_) => {
                let i = choose|i: int|
                    0 <= i < list.v6_blocks().len() && (#[trigger] list.v6_blocks()[i]).covers(ip);
                let b = list.v6_blocks()[i];
                assert(blocks.filter(is_v6).contains(b));
                blocks.lemma_filter_contains_rev(is_v6, b);
            },
        }
    }
    if any_covers(blocks, ip) {
        let i = choose|i: int| 0 <= i < blocks.len() && (#[trigger] blocks[i]).covers(ip);
        let b = blocks[i];
        match ip {
            IpAddr::V4(_) => {
                blocks.lemma_filter_contains(is_v4, i);
            },
            IpAddr::V6(_) => {
                blocks.lemma_filter_contains(is_v6, i);
            },
        }
    }
}

/// Law: the list has one block for each entry that is not blank.
pub proof fn law_len_counts_blocks(blocks: Seq<Block>)
    ensures
        v4_only(blocks).len() + v6_only(blocks).len() == blocks.len(),
    decreases blocks.len(),
{
    reveal(Seq::filter);
    if blocks.len() > 0 {
        law_len_counts_blocks(blocks.drop_last());
        lemma_only_push(blocks.drop_last(), blocks.last());
        assert(blocks.drop_last().push(blocks.last()) =~= blocks);
    }
}

/// Law: the block that an IPv4 entry writes holds the IPv4 addresses that agree
/// with the written address in the first `prefix` bits, host bits or not, and no
/// IPv6 address.
pub proof fn law_block_v4(bits: u32, prefix: nat, ip: IpAddr)
    requires
        prefix <= 32,
    ensures
        block_v4(bits, prefix).covers(ip) == (match ip {
            IpAddr::V4(a) => agree_v4(a.bits, bits, prefix),
            IpAddr::V6(_) => false,
        }),
{
    if let IpAddr::V4(a) = ip {
        let m = mask_v4(prefix);
        assert((bits & m) & m == bits & m) by (bit_vector);
        lemma_masked_v4(a.bits, bits, prefix);
        lemma_masked_v4(a.bits, bits & m, prefix);
    }
}

/// Law: the block that an IPv6 entry writes holds the IPv6 addresses that agree
/// with the written address in the first `prefix` bits, host bits or not, and no
/// IPv4 address.
pub proof fn law_block_v6(octets: Seq<u8>, prefix: nat, ip: IpAddr)
    requires
        octets.len() == 16,
        prefix <= 128,
    ensures
        block_v6(octets, prefix).covers(ip) == (match ip {
            IpAddr::V4(_) => false,
            IpAddr::V6(a) => agree_v6(a.octets@, octets, prefix),
        }),
{
    if let IpAddr::V6(a) = ip {
        let n = masked_v6(octets, prefix);
        lemma_masked_v6_twice(octets, prefix);
        lemma_masked_v6(a.octets@, octets, prefix);
        lemma_masked_v6(a.octets@, n, prefix);
    }
}

/// Law: IPv4 entries that differ in host bits only write the same block.
pub proof fn law_host_bits_v4(a: u32, b: u32, prefix: nat)
    requires
        prefix <= 32,
    ensures
        block_v4(a, prefix) == block_v4(b, prefix) <==> agree_v4(a, b, prefix),
{
    lemma_masked_v4(a, b, prefix);
}

/// Law: IPv6 entries that differ in host bits only write the same block.
pub proof fn law_host_bits_v6(a: Seq<u8>, b: Seq<u8>, prefix: nat)
    requires
        a.len() == 16,
        b.len() == 16,
        prefix <= 128,
    ensures
        block_v6(a, prefix) == block_v6(b, prefix) <==> agree_v6(a, b, prefix),
{
    lemma_masked_v6(a, b, prefix);
}

/// Law: prefix length 0 holds every address of the family, and the full length
/// the written address alone.
pub proof fn law_prefix_bounds_v4(bits: u32, ip: Ipv4Addr)
    ensures
        block_v4(bits, 0).covers(IpAddr::V4(ip)),
        block_v4(bits, 32).covers(IpAddr::V4(ip)) <==> ip.bits == bits,
{
    law_block_v4(bits, 32, IpAddr::V4(ip));
    let x = ip.bits;
    lemma_masked_v4(x, bits, 32);
    assert(x & (0xffff_ffffu32 << 0u32) == x) by (bit_vector);
    assert(bits & (0xffff_ffffu32 << 0u32) == bits) by (bit_vector);
}

/// Law: prefix length 0 holds every address of the family, and the full length
/// the written address alone.
pub proof fn law_prefix_bounds_v6(octets: Seq<u8>, ip: Ipv6Addr)
    requires
        octets.len() == 16,
    ensures
        block_v6(octets, 0).covers(IpAddr::V6(ip)),
        block_v6(octets, 128).covers(IpAddr::V6(ip)) <==> ip.octets@ == octets,
{
    law_block_v6(octets, 128, IpAddr::V6(ip));
    lemma_masked_v6(ip.octets@, octets, 128);
    assert(masked_v6(octets, 128) =~= octets);
    assert(masked_v6(ip.octets@, 128) =~= ip.octets@);
}

/// Law: a shorter prefix holds every address that a longer one holds.
pub proof fn law_shorter_prefix_holds_more_v4(bits: u32, p: nat, q: nat, ip: IpAddr)
    requires
        q <= p <= 32,
        block_v4(bits, p).covers(ip),
    ensures
        block_v4(bits, q).covers(ip),
{
    law_block_v4(bits, p, ip);
    law_block_v4(bits, q, ip);
}

/// Law: a shorter prefix holds every address that a longer one holds.
pub proof fn law_shorter_prefix_holds_more_v6(octets: Seq<u8>, p: nat, q: nat, ip: IpAddr)
    requires
        octets.len() == 16,
        q <= p <= 128,
        block_v6(octets, p).covers(ip),
    ensures
        block_v6(octets, q).covers(ip),
{
    law_block_v6(octets, p, ip);
    law_block_v6(octets, q, ip);
}

proof fn lemma_with_prefix(ip: Seq<char>, slash_prefix: Seq<char>)
    requires
        until(ip, '/') == ip.len(),
        slash_prefix.len() > 0,
        slash_prefix[0] == '/',
    ensures
        until(ip + slash_prefix, '/') == ip.len(),
        (ip + slash_prefix).take(ip.len() as int) == ip,
        (ip + slash_prefix).skip(ip.len() as int + 1) == slash_prefix.skip(1),
        ip.take(ip.len() as int) == ip,
{
    let s = ip + slash_prefix;
    lemma_until(ip, '/');
    assert forall|k: int| 0 <= k < ip.len() implies #[trigger] s[k] != '/' by {
        assert(s[k] == ip[k]);
    }
    lemma_until_is(s, '/', ip.len() as int);
    assert(s.take(ip.len() as int) =~= ip);
    assert(s.skip(ip.len() as int + 1) =~= slash_prefix.skip(1));
    assert(ip.take(ip.len() as int) =~= ip);
}

/// Law: a plain address is a host route, `/32` for IPv4 and `/128` for IPv6.
pub proof fn law_plain_address_is_host_route(ip: Seq<char>)
    requires
        until(ip, '/') == ip.len(),
    ensures
        ipv4_value(ip) is Some ==> entry_block(ip) == Some(block_v4(ipv4_value(ip)->0, 32))
            && entry_block(ip + "/32"@) == entry_block(ip),
        ipv4_value(ip) is None && ipv6_value(ip) is Some ==> entry_block(ip) == Some(
            block_v6(group_octets(ipv6_value(ip)->0), 128),
        ) && entry_block(ip + "/128"@) == entry_block(ip),
{
    reveal_strlit("/32");
    reveal_strlit("/128");
    lemma_with_prefix(ip, "/32"@);
    lemma_with_prefix(ip, "/128"@);
    reveal_with_fuel(decimal, 4);
    assert("/32"@.skip(1) =~= decimal(32));
    assert("/128"@.skip(1) =~= decimal(128));
    law_decimal_reads_back(32);
    law_decimal_reads_back(128);
}

/// Law: an entry `address/prefix` in range writes the block of that address and
/// prefix, and one whose prefix is out of range writes none.
pub proof fn law_entry_with_prefix(ip: Seq<char>, prefix: nat)
    requires
        until(ip, '/') == ip.len(),
    ensures
        ipv4_value(ip) is Some ==> entry_block(ip + seq!['/'] + decimal(prefix)) == (if prefix
            <= 32 {
            Some(block_v4(ipv4_value(ip)->0, prefix))
        } else {
            None
        }),
        ipv4_value(ip) is None && ipv6_value(ip) is Some ==> entry_block(
            ip + seq!['/'] + decimal(prefix),
        ) == (if prefix <= 128 {
            Some(block_v6(group_octets(ipv6_value(ip)->0), prefix))
        } else {
            None
        }),
{
    let tail = seq!['/'] + decimal(prefix);
    lemma_with_prefix(ip, tail);
    assert(ip + seq!['/'] + decimal(prefix) =~= ip + tail);
    assert(tail.skip(1) =~= decimal(prefix));
    law_decimal_reads_back(prefix);
}

/// Law: the entries of two lists, one behind the other, write the blocks of both.
#[verifier::rlimit(40)]
pub proof fn law_lists_concatenate(a: Seq<Seq<char>>, b: Seq<Seq<char>>)
    requires
        list_blocks(a) is Ok,
    ensures
        list_blocks(b) matches Ok(y) ==> list_blocks(a + b) == Ok::<Seq<Block>, Seq<char>>(
            list_blocks(a)->Ok_0 + y,
        ),
        list_blocks(b) matches Err(e) ==> list_blocks(a + b) == Err::<Seq<Block>, Seq<char>>(e),
    decreases a.len(),
{
    if a.len() == 0 {
        assert(a + b =~= b);
        if let Ok(y) = list_blocks(b) {
            assert(list_blocks(a)->Ok_0 + y =~= y);
        }
    } else {
        let rest = a.drop_first();
        law_lists_concatenate(rest, b);
        assert((a + b).drop_first() =~= rest + b);
        assert((a + b)[0] == a[0]);
        let t = trimmed(a[0]);
        if t.len() != 0 {
            if let Ok(y) = list_blocks(b) {
                let first = seq![entry_block(t)->0];
                let x = list_blocks(rest)->Ok_0;
                assert(first + (x + y) =~= (first + x) + y);
            }
        }
    }
}

/// Law: blank entries have no effect.
pub proof fn law_blank_entries_skipped(a: Seq<Seq<char>>, blank: Seq<char>, b: Seq<Seq<char>>)
    requires
        trimmed(blank).len() == 0,
    ensures
        list_blocks(a + seq![blank] + b) == list_blocks(a + b),
    decreases a.len(),
{
    let s = a + seq![blank] + b;
    if a.len() == 0 {
        assert(s.drop_first() =~= a + b);
    } else {
        let rest = a.drop_first();
        law_blank_entries_skipped(rest, blank, b);
        assert(s.drop_first() =~= rest + seq![blank] + b);
        assert((a + b).drop_first() =~= rest + b);
    }
}

/// Law: the first invalid entry is the one that is reported, whatever follows it.
pub proof fn law_first_invalid_reported(a: Seq<Seq<char>>, bad: Seq<char>, b: Seq<Seq<char>>)
    requires
        list_blocks(a) is Ok,
        trimmed(bad).len() > 0,
        entry_block(trimmed(bad)) is None,
    ensures
        list_blocks(a + seq![bad] + b) == Err::<Seq<Block>, Seq<char>>(
            invalid_entry(trimmed(bad)),
        ),
{
    let tail = seq![bad] + b;
    law_lists_concatenate(a, tail);
    assert(tail.drop_first() =~= b);
    assert(a + seq![bad] + b =~= a + tail);
}

/// Law: an IPv4 block with a prefix of `p` bits holds the addresses that are equal to the
/// written one when both are divided by two to the power of `32 - p`: a range of that
/// many addresses.
pub proof fn law_range_of_block_v4(bits: u32, p: nat, a: Ipv4Addr)
    requires
        p <= 32,
    ensures
        block_v4(bits, p).covers(IpAddr::V4(a)) <==> a.bits as nat / pow2((32 - p) as nat)
            == bits as nat / pow2((32 - p) as nat),
{
    let x = a.bits;
    law_block_v4(bits, p, IpAddr::V4(a));
    lemma_masked_v4(x, bits, p);
    if p == 0 {
        lemma2_to64();
        assert(x & 0 == bits & 0) by (bit_vector);
    } else {
        let s = (32 - p) as u32;
        assert((x & (0xffff_ffffu32 << s)) == (bits & (0xffff_ffffu32 << s)) <==> (x >> s) == (bits
            >> s)) by (bit_vector)
            requires
                s < 32,
        ;
        lemma_u32_shr_is_div(x, s);
        lemma_u32_shr_is_div(bits, s);
    }
}

/// How many leading bits of octet `k` a prefix of `p` bits holds.
pub open spec fn bits_in_octet(p: nat, k: int) -> nat {
    if p >= 8 * k + 8 {
        8
    } else if p <= 8 * k {
        0
    } else {
        (p - 8 * k) as nat
    }
}

proof fn lemma_range_of_octet(b: u8, c: u8, r: nat)
    requires
        r <= 8,
    ensures
        b as nat / pow2((8 - r) as nat) == c as nat / pow2((8 - r) as nat) <==> (if r == 8 {
            b == c
        } else if r == 0 {
            true
        } else {
            b & octet_mask(r as int) == c & octet_mask(r as int)
        }),
{
    lemma2_to64();
    if r == 8 {
        assert(pow2(0) == 1);
        assert(b as nat / 1 == b as nat);
        assert(c as nat / 1 == c as nat);
    } else if r == 0 {
        assert(pow2(8) == 256);
        assert(b as nat / 256 == 0);
        assert(c as nat / 256 == 0);
    } else {
        let s = (8 - r) as u8;
        assert((b & (0xffu8 << s)) == (c & (0xffu8 << s)) <==> (b >> s) == (c >> s))
            by (bit_vector)
            requires
                s < 8,
        ;
        lemma_u8_shr_is_div(b, s);
        lemma_u8_shr_is_div(c, s);
        assert(octet_mask(r as int) == 0xffu8 << s);
    }
}

/// Law: an IPv6 block with a prefix of `p` bits holds the addresses whose octets are equal
/// to the written ones, each as far as the prefix reaches into it.
pub proof fn law_range_of_block_v6(octets: Seq<u8>, p: nat, a: Ipv6Addr)
    requires
        octets.len() == 16,
        p <= 128,
    ensures
        block_v6(octets, p).covers(IpAddr::V6(a)) <==> forall|k: int|
            0 <= k < 16 ==> (#[trigger] a.octets@[k]) as nat / pow2(
                (8 - bits_in_octet(p, k)) as nat,
            ) == octets[k] as nat / pow2((8 - bits_in_octet(p, k)) as nat),
{
    let x = a.octets@;
    law_block_v6(octets, p, IpAddr::V6(a));
    lemma_masked_v6(x, octets, p);
    let m = masked_v6(x, p);
    let n = masked_v6(octets, p);
    assert forall|k: int| 0 <= k < 16 implies ((#[trigger] x[k]) as nat / pow2(
        (8 - bits_in_octet(p, k)) as nat,
    ) == octets[k] as nat / pow2((8 - bits_in_octet(p, k)) as nat) <==> m[k] == n[k]) by {
        lemma_range_of_octet(x[k], octets[k], bits_in_octet(p, k));
    }
    if m == n {
        assert forall|k: int| 0 <= k < 16 implies (#[trigger] x[k]) as nat / pow2(
            (8 - bits_in_octet(p, k)) as nat,
        ) == octets[k] as nat / pow2((8 - bits_in_octet(p, k)) as nat) by {
            assert(m[k] == n[k]);
        }
    }
    if forall|k: int|
        0 <= k < 16 ==> (#[trigger] x[k]) as nat / pow2((8 - bits_in_octet(p, k)) as nat)
            == octets[k] as nat / pow2((8 - bits_in_octet(p, k)) as nat) {
        assert forall|k: int| 0 <= k < 16 implies m[k] == n[k] by {
            assert(x[k] as nat / pow2((8 - bits_in_octet(p, k)) as nat) == octets[k] as nat / pow2(
                (8 - bits_in_octet(p, k)) as nat,
            ));
        }
        assert(m =~= n);
    }
}

/// Law: an entry `a.b.c.d/p` holds the IPv4 addresses of that range and no IPv6 address;
/// without a prefix it holds that one address.
pub proof fn law_ipv4_entry(a: nat, b: nat, c: nat, d: nat, p: nat, ip: IpAddr)
    requires
        a <= 255,
        b <= 255,
        c <= 255,
        d <= 255,
        p <= 32,
    ensures
        ({
            let text = joined(seq![decimal(a), decimal(b), decimal(c), decimal(d)], '.');
            let bits = a * 16777216 + b * 65536 + c * 256 + d;
            &&& entry_block(text) matches Some(block) && block.covers(ip) == (ip matches IpAddr::V4(
                x,
            ) && x.bits == bits)
            &&& entry_block(text + seq!['/'] + decimal(p)) matches Some(block) && block.covers(ip)
                == (ip matches IpAddr::V4(x) && x.bits as nat / pow2((32 - p) as nat) == bits
                / pow2((32 - p) as nat))
        }),
{
    let text = joined(seq![decimal(a), decimal(b), decimal(c), decimal(d)], '.');
    let bits = (a * 16777216 + b * 65536 + c * 256 + d) as u32;
    law_ipv4_of_octets(a, b, c, d);
    assert forall|k: int| 0 <= k < text.len() implies #[trigger] text[k] != '/' by {
        lemma_ipv4_chars(text, k);
    }
    lemma_until_is(text, '/', text.len() as int);
    law_plain_address_is_host_route(text);
    law_entry_with_prefix(text, p);
    if let IpAddr::V4(x) = ip {
        law_prefix_bounds_v4(bits, x);
        law_range_of_block_v4(bits, p, x);
    }
}

/// Law: an entry that writes an IPv6 address holds the IPv6 addresses that are equal to it
/// as far as the prefix reaches, and no IPv4 address; without a prefix it holds that one
/// address.
pub proof fn law_ipv6_entry(g: Seq<u16>, i: int, j: int, p: nat, ip: IpAddr)
    requires
        g.len() == 8,
        0 <= i < j <= 8,
        forall|k: int| i <= k < j ==> #[trigger] g[k] == 0,
        p <= 128,
    ensures
        ({
            let text = joined(hex_groups(g.take(i)), ':') + seq![':', ':'] + joined(
                hex_groups(g.skip(j)),
                ':',
            );
            let octets = group_octets(g);
            &&& entry_block(text) matches Some(block) && block.covers(ip) == (ip matches IpAddr::V6(
                x,
            ) && x.octets@ == octets)
            &&& entry_block(text + seq!['/'] + decimal(p)) matches Some(block) && block.covers(ip)
                == (ip matches IpAddr::V6(x) && forall|k: int|
                0 <= k < 16 ==> (#[trigger] x.octets@[k]) as nat / pow2(
                    (8 - bits_in_octet(p, k)) as nat,
                ) == octets[k] as nat / pow2((8 - bits_in_octet(p, k)) as nat))
        }),
{
    let text = joined(hex_groups(g.take(i)), ':') + seq![':', ':'] + joined(
        hex_groups(g.skip(j)),
        ':',
    );
    let octets = group_octets(g);
    law_ipv6_text_reads_back(g, i, j);
    law_families_are_told_apart(text);
    assert forall|k: int| 0 <= k < text.len() implies #[trigger] text[k] != '/' by {
        law_ipv6_characters(text, k);
    }
    lemma_until_is(text, '/', text.len() as int);
    law_plain_address_is_host_route(text);
    law_entry_with_prefix(text, p);
    if let IpAddr::V6(x) = ip {
        law_prefix_bounds_v6(octets, x);
        law_range_of_block_v6(octets, p, x);
    }
}

/// Law: an entry is an address of either family, alone or with a slash and a prefix that
/// is a number in range behind it. Nothing else is.
pub proof fn law_only_addresses_are_entries(ip: Seq<char>, prefix: Seq<char>)
    requires
        !ip.contains('/'),
    ensures
        entry_block(ip) is Some <==> ipv4_value(ip) is Some || ipv6_value(ip) is Some,
        entry_block(ip + seq!['/'] + prefix) is Some <==> (ipv4_value(ip) is Some && uint_up_to(
            prefix,
            32,
        ) is Some) || (ipv6_value(ip) is Some && uint_up_to(prefix, 128) is Some),
{
    assert forall|k: int| 0 <= k < ip.len() implies #[trigger] ip[k] != '/' by {
        assert(ip.contains(ip[k]));
    }
    lemma_until_is(ip, '/', ip.len() as int);
    law_families_are_told_apart(ip);
    let tail = seq!['/'] + prefix;
    lemma_with_prefix(ip, tail);
    assert(ip + seq!['/'] + prefix =~= ip + tail);
    assert(tail.skip(1) =~= prefix);
}

/// Law: whitespace around an entry does not count, on a list of any length. An entry that
/// writes a block adds it to the list, and one that writes none is quoted in the error.
pub proof fn law_space_around_entries(
    before: Seq<Seq<char>>,
    a: Seq<char>,
    entry: Seq<char>,
    b: Seq<char>,
)
    requires
        list_blocks(before) is Ok,
        forall|k: int| 0 <= k < a.len() ==> is_space(#[trigger] a[k]),
        forall|k: int| 0 <= k < b.len() ==> is_space(#[trigger] b[k]),
        entry.len() > 0,
        !is_space(entry[0]),
        !is_space(entry.last()),
    ensures
        list_blocks(before.push(a + entry + b)) == (match entry_block(entry) {
            Some(block) => Ok::<Seq<Block>, Seq<char>>(list_blocks(before)->Ok_0.push(block)),
            None => Err("invalid IP address or CIDR: '"@ + entry + "'"@),
        }),
{
    law_trimming(a, entry, b);
    let one = seq![a + entry + b];
    law_lists_concatenate(before, one);
    assert(before.push(a + entry + b) =~= before + one);
    assert(one.drop_first() =~= seq![]);
    assert(list_blocks(one.drop_first()) == Ok::<Seq<Block>, Seq<char>>(seq![]));
    if let Some(block) = entry_block(entry) {
        assert(list_blocks(one) == Ok::<Seq<Block>, Seq<char>>(seq![block] + seq![]));
        assert(list_blocks(before)->Ok_0 + (seq![block] + seq![]) =~= list_blocks(
            before,
        )->Ok_0.push(block));
    }
}

/// Law: a list is refused exactly where some entry that is not blank writes no block, and
/// otherwise an address is on it exactly where some entry writes a block that holds it,
/// however many entries there are.
pub proof fn law_list_of_entries(entries: Seq<Seq<char>>, ip: IpAddr)
    ensures
        list_blocks(entries) is Err <==> exists|i: int|
            0 <= i < entries.len() && trimmed(#[trigger] entries[i]).len() > 0 && entry_block(
                trimmed(entries[i]),
            ) is None,
        list_blocks(entries) matches Ok(blocks) ==> ((exists|k: int|
            0 <= k < blocks.len() && (#[trigger] blocks[k]).covers(ip)) <==> (exists|i: int|
            0 <= i < entries.len() && trimmed(#[trigger] entries[i]).len() > 0 && entry_block(
                trimmed(entries[i]),
            )->0.covers(ip))),
    decreases entries.len(),
{
    if entries.len() > 0 {
        let rest = entries.drop_first();
        let t = trimmed(entries[0]);
        law_list_of_entries(rest, ip);
        assert forall|i: int| 0 <= i < rest.len() implies #[trigger] rest[i] == entries[i + 1] by {}
        assert forall|i: int| 0 < i < entries.len() implies #[trigger] entries[i] == rest[i - 1] by {}
        if exists|i: int|
            0 <= i < rest.len() && trimmed(#[trigger] rest[i]).len() > 0 && entry_block(
                trimmed(rest[i]),
            ) is None {
            let i = choose|i: int|
                0 <= i < rest.len() && trimmed(#[trigger] rest[i]).len() > 0 && entry_block(
                    trimmed(rest[i]),
                ) is None;
            assert(entries[i + 1] == rest[i]);
        }
        if let Ok(blocks) = list_blocks(entries) {
            let more = list_blocks(rest)->Ok_0;
            if exists|i: int|
                0 <= i < rest.len() && trimmed(#[trigger] rest[i]).len() > 0 && entry_block(
                    trimmed(rest[i]),
                )->0.covers(ip) {
                let i = choose|i: int|
                    0 <= i < rest.len() && trimmed(#[trigger] rest[i]).len() > 0 && entry_block(
                        trimmed(rest[i]),
                    )->0.covers(ip);
                assert(entries[i + 1] == rest[i]);
            }
            if t.len() > 0 {
                let first = entry_block(t)->0;
                assert(blocks == seq![first] + more);
                assert forall|k: int| 0 <= k < more.len() implies #[trigger] more[k] == blocks[k
                    + 1] by {}
                assert forall|k: int| 0 < k < blocks.len() implies #[trigger] blocks[k] == more[k
                    - 1] by {}
                if first.covers(ip) {
                    assert(blocks[0].covers(ip));
                    assert(entries[0] == entries[0]);
                }
                if exists|k: int| 0 <= k < more.len() && (#[trigger] more[k]).covers(ip) {
                    let k = choose|k: int| 0 <= k < more.len() && (#[trigger] more[k]).covers(ip);
                    assert(blocks[k + 1].covers(ip));
                }
            }
        }
    }
}

/// Law: an address is on the list exactly where one of the blocks that it was made of
/// holds it, whatever its place.
pub proof fn law_on_the_list(list: ExcludeList, blocks: Seq<Block>, ip: IpAddr)
    requires
        list.is_list_of(blocks),
    ensures
        list.covers(ip) <==> exists|k: int|
            0 <= k < blocks.len() && (#[trigger] blocks[k]).covers(ip),
{
    law_contains_some_entry(list, blocks, ip);
}

/// Whether the entry is refused: it is not blank and writes no block.
pub open spec fn is_refused(entry: Seq<char>) -> bool {
    trimmed(entry).len() > 0 && entry_block(trimmed(entry)) is None
}

/// Whether the entry writes a block that holds the address.
pub open spec fn entry_holds(entry: Seq<char>, ip: IpAddr) -> bool {
    trimmed(entry).len() > 0 && entry_block(trimmed(entry)) is Some && entry_block(
        trimmed(entry),
    )->0.covers(ip)
}

proof fn lemma_refused_entries(entries: Seq<Seq<char>>)
    ensures
        list_blocks(entries) is Err <==> exists|k: int|
            0 <= k < entries.len() && is_refused(#[trigger] entries[k]),
{
    law_list_of_entries(entries, IpAddr::V4(Ipv4Addr { bits: 0 }));
    if list_blocks(entries) is Err {
        let k = choose|k: int|
            0 <= k < entries.len() && trimmed(#[trigger] entries[k]).len() > 0 && entry_block(
                trimmed(entries[k]),
            ) is None;
        assert(is_refused(entries[k]));
    }
    if exists|k: int| 0 <= k < entries.len() && is_refused(#[trigger] entries[k]) {
        let k = choose|k: int| 0 <= k < entries.len() && is_refused(#[trigger] entries[k]);
        assert(trimmed(entries[k]).len() > 0);
    }
}

/// Law: [`ExcludeList::from_strs`] refuses a list exactly where an entry is refused.
pub proof fn law_list_is_refused(strs: &[&str], r: Result<ExcludeList, String>)
    requires
        call_ensures(ExcludeList::from_strs, (strs,), r),
    ensures
        r is Err <==> exists|k: int| 0 <= k < strs@.len() && is_refused((#[trigger] strs@[k])@),
{
    let entries = texts(strs@);
    lemma_refused_entries(entries);
    if exists|k: int| 0 <= k < strs@.len() && is_refused((#[trigger] strs@[k])@) {
        let k = choose|k: int| 0 <= k < strs@.len() && is_refused((#[trigger] strs@[k])@);
        assert(is_refused(entries[k]));
    }
    if r is Err {
        let k = choose|k: int| 0 <= k < entries.len() && is_refused(#[trigger] entries[k]);
        assert(is_refused(strs@[k]@));
    }
}

/// Law: the message of [`ExcludeList::from_strs`] quotes the first entry that is refused.
pub proof fn law_first_refused_entry_is_quoted(
    strs: &[&str],
    r: Result<ExcludeList, String>,
    i: int,
)
    requires
        call_ensures(ExcludeList::from_strs, (strs,), r),
        0 <= i < strs@.len(),
        is_refused(strs@[i]@),
        forall|j: int| 0 <= j < i ==> !is_refused((#[trigger] strs@[j])@),
    ensures
        r matches Err(m) && m@ == "invalid IP address or CIDR: '"@ + trimmed(strs@[i]@) + "'"@,
{
    let entries = texts(strs@);
    let before = entries.take(i);
    lemma_refused_entries(before);
    if list_blocks(before) is Err {
        let k = choose|k: int| 0 <= k < before.len() && is_refused(#[trigger] before[k]);
        assert(is_refused(strs@[k]@));
    }
    law_first_invalid_reported(before, entries[i], entries.skip(i + 1));
    assert(before + seq![entries[i]] + entries.skip(i + 1) =~= entries);
}

/// Law: [`ExcludeList::contains`] holds exactly of the addresses that lie in the block of
/// some entry that the list was made of, however many there are and wherever it stands.
pub proof fn law_list_contains_its_entries(
    strs: &[&str],
    list: &ExcludeList,
    ip: IpAddr,
    on: bool,
)
    requires
        call_ensures(ExcludeList::from_strs, (strs,), Ok(*list)),
        call_ensures(ExcludeList::contains, (list, ip), on),
    ensures
        on <==> exists|k: int| 0 <= k < strs@.len() && entry_holds((#[trigger] strs@[k])@, ip),
{
    let entries = texts(strs@);
    law_list_of_entries(entries, ip);
    let blocks = list_blocks(entries)->Ok_0;
    law_on_the_list(*list, blocks, ip);
    if exists|k: int| 0 <= k < strs@.len() && entry_holds((#[trigger] strs@[k])@, ip) {
        let k = choose|k: int| 0 <= k < strs@.len() && entry_holds((#[trigger] strs@[k])@, ip);
        assert(entries[k] == strs@[k]@);
    }
    if on {
        let k = choose|k: int|
            0 <= k < entries.len() && trimmed(#[trigger] entries[k]).len() > 0 && entry_block(
                trimmed(entries[k]),
            )->0.covers(ip);
        if entry_block(trimmed(entries[k])) is None {
            assert(list_blocks(entries) is Err);
        }
        assert(entry_holds(strs@[k]@, ip));
    }
}

/// Law: [`ExcludeList::len`] counts the entries that are not blank.
pub proof fn law_len_counts_entries(
    strs: &[&str],
    list: &ExcludeList,
    len: usize,
    empty: bool,
)
    requires
        call_ensures(ExcludeList::from_strs, (strs,), Ok(*list)),
        call_ensures(ExcludeList::len, (list,), len),
        call_ensures(ExcludeList::is_empty, (list,), empty),
    ensures
        len == texts(strs@).filter(|e: Seq<char>| trimmed(e).len() > 0).len(),
        empty <==> len == 0,
{
    let entries = texts(strs@);
    law_len_counts_blocks(list_blocks(entries)->Ok_0);
    lemma_count_of_blocks(entries);
}

proof fn lemma_count_of_blocks(entries: Seq<Seq<char>>)
    requires
        list_blocks(entries) is Ok,
    ensures
        list_blocks(entries)->Ok_0.len() == entries.filter(
            |e: Seq<char>| trimmed(e).len() > 0,
        ).len(),
    decreases entries.len(),
{
    let pred = |e: Seq<char>| trimmed(e).len() > 0;
    if entries.len() > 0 {
        let rest = entries.drop_first();
        lemma_count_of_blocks(rest);
        rest.lemma_filter_prepend(entries[0], pred);
        assert(entries =~= seq![entries[0]] + rest);
    } else {
        reveal(Seq::filter);
    }
}

/// Law: [`masked_eq`] compares the octets of two addresses, each as far as the prefix
/// reaches into it.
pub proof fn law_masked_eq(a: &[u8; 16], b: &[u8; 16], p: u8, r: bool)
    requires
        p <= 128,
        call_ensures(masked_eq, (a, b, p), r),
    ensures
        r <==> forall|k: int|
            0 <= k < 16 ==> (#[trigger] a@[k]) as nat / pow2(
                (8 - bits_in_octet(p as nat, k)) as nat,
            ) == b@[k] as nat / pow2((8 - bits_in_octet(p as nat, k)) as nat),
{
    let ip = Ipv6Addr { octets: *a };
    law_block_v6(b@, p as nat, IpAddr::V6(ip));
    law_range_of_block_v6(b@, p as nat, ip);
}

} // verus!
