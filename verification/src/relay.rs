//! Relay decisions: where a redirected connection goes, and the HTTP CONNECT
//! handshake with the upstream proxy.
//!
//! A connection whose destination is on the [`ExcludeList`] is relayed directly.
//! Any other is tunneled through the upstream proxy once the proxy has answered
//! the CONNECT request with status 200.
use crate::addr::{
    bits_of, ipv4_text, law_ipv4_of_octets, law_ipv4_text_is_unique, law_ipv4_text_reads_back,
    lemma_ipv4_chars, octet_v4, push_ipv4, IpAddr, Ipv4Addr, SocketAddrV4,
};
use crate::bytes::utf8_text;
use crate::exclude::ExcludeList;
use crate::number::{
    decimal, law_decimal_reads_back, law_only_digits_are_numbers, lemma_decimal, parse_uint,
    push_decimal, uint_up_to,
};
use crate::text::{
    chars_of, find_pair, is_space, is_word, joined, law_last_line, law_newline_ends_line,
    law_space_parts_words, law_word_alone, lemma_until_pair, lemma_until_pair_is, lines, push_text,
    split_lines, split_words, string_of, until_pair, views, words,
};
use vstd::prelude::*;
use vstd::slice::slice_subrange;
use vstd::utf8::{decode_utf8, valid_utf8};

verus! {

/// The most bytes of a CONNECT response that are looked at.
pub const RESPONSE_LIMIT: usize = 4096;

/// Seconds of silence before the first keepalive probe.
pub const KEEPALIVE_IDLE: i32 = 30;

/// Seconds between keepalive probes.
pub const KEEPALIVE_INTERVAL: i32 = 10;

/// Unanswered keepalive probes before a connection is dropped.
pub const KEEPALIVE_COUNT: i32 = 3;

/// Whether a blank line, the end of a header, stands at the start of `buf`.
pub open spec fn blank_line_first(buf: Seq<u8>) -> bool {
    buf.len() >= 4 && buf[0] == 13 && buf[1] == 10 && buf[2] == 13 && buf[3] == 10
}

/// The length of the header that `buf` starts with, up to and with the first blank
/// line; none where there is no blank line.
pub open spec fn header_len(buf: Seq<u8>) -> Option<nat>
    decreases buf.len(),
{
    if buf.len() < 4 {
        None
    } else if blank_line_first(buf) {
        Some(4)
    } else {
        match header_len(buf.drop_first()) {
            Some(n) => Some(n + 1),
            None => None,
        }
    }
}

/// The status code of a response: the second word of the first line, where it is a
/// number that fits in sixteen bits.
pub open spec fn status_code(header: Seq<char>) -> Option<nat> {
    let line = header.take(until_pair(header, '\r', '\n') as int);
    let w = words(line);
    if w.len() >= 2 {
        uint_up_to(w[1], 0xffff)
    } else {
        None
    }
}

/// What the bytes received so far say about a CONNECT request.
pub enum Answer {
    /// The header is not complete.
    Pending,
    /// The header is not complete, and there is no more room for it.
    TooLarge,
    /// The header is not valid UTF-8.
    NotUtf8,
    /// The status is not 200; 0 stands for a status line without a status.
    Rejected(nat),
    /// The tunnel is open, and these bytes have come through it already.
    Established(Seq<u8>),
}

/// What a complete header says, with `rest` received behind it.
pub open spec fn header_answer(header: Seq<u8>, rest: Seq<u8>) -> Answer {
    if !valid_utf8(header) {
        Answer::NotUtf8
    } else {
        match status_code(decode_utf8(header)) {
            Some(n) => if n == 200 {
                Answer::Established(rest)
            } else {
                Answer::Rejected(n)
            },
            None => Answer::Rejected(0),
        }
    }
}

/// What the bytes received so far say.
pub open spec fn answer(received: Seq<u8>) -> Answer {
    match header_len(received) {
        Some(n) => header_answer(received.take(n as int), received.skip(n as int)),
        None => if received.len() >= RESPONSE_LIMIT {
            Answer::TooLarge
        } else {
            Answer::Pending
        },
    }
}

/// The first line of the response, once its header is complete and valid UTF-8.
pub open spec fn first_line(received: Seq<u8>) -> Option<Seq<char>> {
    match header_len(received) {
        Some(n) => if valid_utf8(received.take(n as int)) {
            let ls = lines(decode_utf8(received.take(n as int)));
            Some(
                if ls.len() > 0 {
                    ls[0]
                } else {
                    seq![]
                },
            )
        } else {
            None
        },
        None => None,
    }
}

/// The CONNECT request for a destination.
pub open spec fn request_text(target: SocketAddrV4) -> Seq<char> {
    let to = ipv4_text(target.ip.bits) + ":"@ + decimal(target.port as nat);
    "CONNECT "@ + to + " HTTP/1.1\r\nHost: "@ + to + "\r\n\r\n"@
}

/// The index of the last colon of `s`.
pub open spec fn last_colon(s: Seq<char>) -> Option<int>
    decreases s.len(),
{
    if s.len() == 0 {
        None
    } else if s.last() == ':' {
        Some(s.len() - 1)
    } else {
        last_colon(s.drop_last())
    }
}

/// The host and the port that `s` names: what stands in front of the last colon,
/// which is not empty, and the number behind it, which is not zero.
pub open spec fn host_port(s: Seq<char>) -> Option<(Seq<char>, nat)> {
    match last_colon(s) {
        Some(c) => {
            let host = s.take(c);
            match uint_up_to(s.skip(c + 1), 0xffff) {
                Some(port) => if host.len() > 0 && port != 0 {
                    Some((host, port))
                } else {
                    None
                },
                None => None,
            }
        },
        None => None,
    }
}

/// The end of the header in `buf`: the index behind the first blank line.
pub fn find_header_end(buf: &[u8]) -> (r: Option<usize>)
    ensures
        r is Some == header_len(buf@) is Some,
        r matches Some(n) ==> header_len(buf@) == Some(n as nat) && n <= buf@.len(),
{
    let mut i: usize = 0;
    assert(buf@.skip(0) =~= buf@);
    while i < buf.len() && buf.len() - i >= 4
        invariant
            i <= buf.len(),
            header_len(buf@.skip(i as int)) is Some == header_len(buf@) is Some,
            header_len(buf@.skip(i as int)) matches Some(n) ==> header_len(buf@) == Some(
                (n + i) as nat,
            ),
        decreases buf.len() - i,
    {
        let ghost rest = buf@.skip(i as int);
        assert(rest[0] == buf@[i as int] && rest[1] == buf@[i + 1] && rest[2] == buf@[i + 2]
            && rest[3] == buf@[i + 3]);
        if buf[i] == 13 && buf[i + 1] == 10 && buf[i + 2] == 13 && buf[i + 3] == 10 {
            return Some(i + 4);
        }
        assert(rest.drop_first() =~= buf@.skip(i + 1));
        i += 1;
    }
    None
}

/// The status code of a response header. The reason phrase may be missing.
pub fn parse_status_code(header: &str) -> (r: Option<u16>)
    ensures
        r is Some == status_code(header@) is Some,
        r matches Some(n) ==> status_code(header@) == Some(n as nat),
{
    let cs = chars_of(header);
    let s = cs.as_slice();
    let end: usize = match find_pair(s, '\r', '\n') {
        Some(i) => i,
        None => s.len(),
    };
    let line = slice_subrange(s, 0, end);
    assert(line@ =~= header@.take(until_pair(header@, '\r', '\n') as int));
    let w = split_words(line);
    assert(views(w@).len() == w@.len());
    if w.len() < 2 {
        return None;
    }
    assert(views(w@)[1] == w@[1]@);
    match parse_uint(w[1], 0xffff) {
        Some(n) => Some(n as u16),
        None => None,
    }
}

/// Splits `host:port` into its components. A bracketed IPv6 host keeps its
/// brackets. The host is not resolved.
pub fn parse_host_port(s: &str) -> (r: Option<(String, u16)>)
    ensures
        r is Some == host_port(s@) is Some,
        r matches Some(hp) ==> host_port(s@) == Some((hp.0@, hp.1 as nat)),
{
    let cs = chars_of(s);
    let t = cs.as_slice();
    let mut i: usize = t.len();
    assert(t@.take(t@.len() as int) =~= t@);
    while i > 0
        invariant
            i <= t.len(),
            t@ == s@,
            last_colon(s@) == last_colon(t@.take(i as int)),
        decreases i,
    {
        let ghost front = t@.take(i as int);
        assert(front.last() == t@[i - 1]);
        assert(front.drop_last() =~= t@.take(i - 1));
        if t[i - 1] == ':' {
            let host = slice_subrange(t, 0, i - 1);
            let port_text = slice_subrange(t, i, t.len());
            assert(host@ =~= s@.take(i - 1));
            assert(port_text@ =~= s@.skip(i as int));
            let port: u32 = match parse_uint(port_text, 0xffff) {
                Some(n) => n,
                None => return None,
            };
            if host.len() == 0 || port == 0 {
                return None;
            }
            return Some((string_of(host), port as u16));
        }
        i -= 1;
    }
    None
}

/// Why a CONNECT handshake failed.
#[derive(Clone, Copy, Debug, PartialEq, Eq, Structural)]
pub enum HandshakeError {
    /// The header of the response does not fit in [`RESPONSE_LIMIT`] bytes.
    TooLarge,
    /// The proxy closed the connection before the header was complete.
    Eof,
    /// The header of the response is not valid UTF-8.
    NotUtf8,
    /// The proxy answered with another status than 200; 0 where it gave none.
    Rejected(u16),
}

impl HandshakeError {
    /// The text of the error.
    pub open spec fn text(self) -> Seq<char> {
        match self {
            HandshakeError::TooLarge => "CONNECT response too large"@,
            HandshakeError::Eof => "proxy EOF during CONNECT"@,
            HandshakeError::NotUtf8 => "non-UTF8 response"@,
            HandshakeError::Rejected(_) => "proxy rejected CONNECT"@,
        }
    }

    /// The text of the error.
    pub fn message(&self) -> (r: &'static str)
        ensures
            r@ == self.text(),
    {
        match self {
            HandshakeError::TooLarge => "CONNECT response too large",
            HandshakeError::Eof => "proxy EOF during CONNECT",
            HandshakeError::NotUtf8 => "non-UTF8 response",
            HandshakeError::Rejected(_) => "proxy rejected CONNECT",
        }
    }
}

/// What to do next in a CONNECT handshake.
#[derive(Debug, PartialEq, Eq)]
pub enum HandshakeStep {
    /// Read at most this many bytes and hand them in; the number is not zero.
    Read(usize),
    /// Give up.
    Failed(HandshakeError),
    /// The tunnel is open. These bytes came through it behind the header, and go
    /// to the client before anything else.
    Established(Vec<u8>),
}

impl HandshakeStep {
    /// Whether the step is the one for the answer, with `received` bytes received.
    pub open spec fn is_for(self, answer: Answer, received: nat) -> bool {
        match answer {
            Answer::Pending => self == HandshakeStep::Read((RESPONSE_LIMIT - received) as usize),
            Answer::TooLarge => self == HandshakeStep::Failed(HandshakeError::TooLarge),
            Answer::NotUtf8 => self == HandshakeStep::Failed(HandshakeError::NotUtf8),
            Answer::Rejected(n) => self == HandshakeStep::Failed(
                HandshakeError::Rejected(n as u16),
            ),
            Answer::Established(rest) => self matches HandshakeStep::Established(v) && v@ == rest,
        }
    }

    /// Whether the step is the one that follows when `received` had been received and a
    /// read gives `chunk`. A read of no bytes means that the proxy has closed the
    /// connection.
    pub open spec fn follows(self, received: Seq<u8>, chunk: Seq<u8>) -> bool {
        if chunk.len() == 0 {
            self == HandshakeStep::Failed(HandshakeError::Eof)
        } else {
            self.is_for(answer(received + chunk), (received + chunk).len())
        }
    }
}

/// The response to a CONNECT request as it comes in. The first step, once the
/// request is sent, is to read at most [`RESPONSE_LIMIT`] bytes.
pub struct Handshake {
    buf: Vec<u8>,
}

impl Handshake {
    /// The bytes received so far.
    pub closed spec fn received(self) -> Seq<u8> {
        self.buf@
    }

    /// A handshake with nothing received.
    pub fn new() -> (r: Self)
        ensures
            r.received() == Seq::<u8>::empty(),
    {
        Handshake { buf: Vec::new() }
    }

    /// Takes the bytes of one read and says what to do next. A read of no bytes
    /// means that the proxy has closed the connection.
    pub fn on_read(&mut self, chunk: &[u8]) -> (r: HandshakeStep)
        requires
            old(self).received().len() + chunk@.len() <= RESPONSE_LIMIT,
        ensures
            final(self).received() == old(self).received() + chunk@,
            r.follows(old(self).received(), chunk@),
    {
        let mut i: usize = 0;
        while i < chunk.len()
            invariant
                i <= chunk@.len(),
                self.buf@ == old(self).buf@ + chunk@.take(i as int),
            decreases chunk@.len() - i,
        {
            self.buf.push(chunk[i]);
            i += 1;
            assert(chunk@.take(i as int) =~= chunk@.take(i - 1).push(chunk@[i - 1]));
        }
        assert(chunk@.take(i as int) =~= chunk@);
        if chunk.len() == 0 {
            return HandshakeStep::Failed(HandshakeError::Eof);
        }
        let all = self.buf.as_slice();
        match find_header_end(all) {
            Some(end) => {
                let header = slice_subrange(all, 0, end);
                let rest = slice_subrange(all, end, all.len());
                assert(header@ =~= all@.take(end as int));
                assert(rest@ =~= all@.skip(end as int));
                match utf8_text(header) {
                    None => HandshakeStep::Failed(HandshakeError::NotUtf8),
                    Some(text) => {
                        let code: u16 = match parse_status_code(text) {
                            Some(n) => n,
                            None => 0,
                        };
                        if code != 200 {
                            return HandshakeStep::Failed(HandshakeError::Rejected(code));
                        }
                        HandshakeStep::Established(vstd::slice::slice_to_vec(rest))
                    },
                }
            },
            None => {
                if all.len() >= RESPONSE_LIMIT {
                    HandshakeStep::Failed(HandshakeError::TooLarge)
                } else {
                    HandshakeStep::Read(RESPONSE_LIMIT - all.len())
                }
            },
        }
    }

    /// The first line of the response, such as a log shows of a refusal. There is
    /// one once the header is complete and valid UTF-8.
    pub fn response_line(&self) -> (r: Option<String>)
        ensures
            r is Some == first_line(self.received()) is Some,
            r matches Some(line) ==> first_line(self.received()) == Some(line@),
    {
        let all = self.buf.as_slice();
        let end: usize = match find_header_end(all) {
            Some(end) => end,
            None => return None,
        };
        let header = slice_subrange(all, 0, end);
        assert(header@ =~= all@.take(end as int));
        match utf8_text(header) {
            None => None,
            Some(text) => {
                let cs = chars_of(text);
                let ls = split_lines(cs.as_slice());
                assert(views(ls@).len() == ls@.len());
                if ls.len() > 0 {
                    assert(views(ls@)[0] == ls@[0]@);
                    Some(string_of(ls[0]))
                } else {
                    let none = String::new();
                    assert(none@ =~= seq![]);
                    Some(none)
                }
            },
        }
    }
}

/// The CONNECT request for a destination.
pub fn connect_request(target: SocketAddrV4) -> (r: String)
    ensures
        r@ == request_text(target),
{
    let mut out = String::new();
    push_text(&mut out, "CONNECT ");
    push_ipv4(&mut out, target.ip);
    push_text(&mut out, ":");
    push_decimal(&mut out, target.port as u64);
    push_text(&mut out, " HTTP/1.1\r\nHost: ");
    push_ipv4(&mut out, target.ip);
    push_text(&mut out, ":");
    push_decimal(&mut out, target.port as u64);
    push_text(&mut out, "\r\n\r\n");
    assert(out@ =~= request_text(target));
    out
}

/// The destination that a redirected socket was meant for, from the address and
/// the port in network byte order.
pub fn original_dst(ip: [u8; 4], port: [u8; 2]) -> (r: SocketAddrV4)
    ensures
        r.ip.bits == bits_of(ip@[0] as nat, ip@[1] as nat, ip@[2] as nat, ip@[3] as nat),
        r.port == port@[0] * 0x100 + port@[1],
{
    SocketAddrV4::new(
        Ipv4Addr::new(ip[0], ip[1], ip[2], ip[3]),
        port[0] as u16 * 0x100 + port[1] as u16,
    )
}

/// Where a redirected connection goes.
#[derive(Clone, Copy, Debug, PartialEq, Eq, Structural)]
pub enum Route {
    /// The destination is not known; the connection cannot be served.
    Unknown,
    /// Straight to the destination.
    Direct(SocketAddrV4),
    /// To the destination through the upstream proxy.
    Tunnel(SocketAddrV4),
}

/// Decides where a redirected connection goes.
pub fn route(orig_dst: Option<SocketAddrV4>, excludes: &ExcludeList) -> (r: Route)
    ensures
        r == (match orig_dst {
            None => Route::Unknown,
            Some(dst) => if excludes.covers(IpAddr::V4(dst.ip)) {
                Route::Direct(dst)
            } else {
                Route::Tunnel(dst)
            },
        }),
{
    match orig_dst {
        None => Route::Unknown,
        Some(dst) => {
            if excludes.contains(IpAddr::V4(dst.ip)) {
                Route::Direct(dst)
            } else {
                Route::Tunnel(dst)
            }
        },
    }
}

/// Law: what follows a blank line does not move the end of the header.
pub proof fn law_header_end_is_stable(a: Seq<u8>, b: Seq<u8>)
    requires
        header_len(a) is Some,
    ensures
        header_len(a + b) == header_len(a),
        header_len(a)->0 <= a.len(),
    decreases a.len(),
{
    if !blank_line_first(a) {
        law_header_end_is_stable(a.drop_first(), b);
        assert((a + b).drop_first() =~= a.drop_first() + b);
    }
}

/// Law: a header ends with a blank line, and no blank line ends before it.
pub proof fn law_header_end_is_first_blank_line(buf: Seq<u8>, i: int)
    requires
        0 <= i <= buf.len(),
    ensures
        header_len(buf) is None ==> !blank_line_first(buf.skip(i)),
        header_len(buf) matches Some(n) ==> 4 <= n <= buf.len() && blank_line_first(
            buf.skip(n - 4),
        ) && (blank_line_first(buf.skip(i)) ==> n - 4 <= i),
    decreases buf.len(),
{
    assert(buf.skip(0) =~= buf);
    if buf.len() >= 4 && !blank_line_first(buf) {
        let t = buf.drop_first();
        if i > 0 {
            law_header_end_is_first_blank_line(t, i - 1);
            assert(t.skip(i - 1) =~= buf.skip(i));
        } else {
            law_header_end_is_first_blank_line(t, 0);
        }
        if let Some(n) = header_len(t) {
            assert(t.skip(n - 4) =~= buf.skip(n + 1 - 4));
        }
    }
}

/// Law: how a response is cut into reads does not change the answer. Once the
/// header is complete, further bytes change nothing but the data that has come
/// through the tunnel.
pub proof fn law_answer_is_stable(a: Seq<u8>, b: Seq<u8>)
    requires
        header_len(a) is Some,
    ensures
        answer(a + b) == (match answer(a) {
            Answer::Established(rest) => Answer::Established(rest + b),
            other => other,
        }),
{
    law_header_end_is_stable(a, b);
    let n = header_len(a)->0 as int;
    assert((a + b).take(n) =~= a.take(n));
    assert((a + b).skip(n) =~= a.skip(n) + b);
}

/// The answer of a handshake whose reads give `chunks`, with `received` received
/// before them. Reading stops where the answer is known.
pub open spec fn run(received: Seq<u8>, chunks: Seq<Seq<u8>>) -> Answer
    decreases chunks.len(),
{
    if chunks.len() == 0 || !(answer(received) is Pending) {
        answer(received)
    } else {
        run(received + chunks[0], chunks.drop_first())
    }
}

/// The answer without the data that has come through the tunnel.
pub open spec fn verdict(a: Answer) -> Answer {
    match a {
        Answer::Established(_) => Answer::Established(seq![]),
        other => other,
    }
}

/// Law: the verdict on a response depends on its bytes alone, not on the reads
/// that they come in.
pub proof fn law_verdict_ignores_reads(received: Seq<u8>, chunks: Seq<Seq<u8>>)
    requires
        (received + chunks.flatten()).len() <= RESPONSE_LIMIT,
    ensures
        verdict(run(received, chunks)) == verdict(answer(received + chunks.flatten())),
    decreases chunks.len(),
{
    if chunks.len() == 0 {
        assert(received + chunks.flatten() =~= received);
    } else {
        let rest = chunks.drop_first();
        assert(chunks.flatten() =~= chunks[0] + rest.flatten());
        if answer(received) is Pending {
            let more = received + chunks[0];
            assert(more + rest.flatten() =~= received + chunks.flatten());
            law_verdict_ignores_reads(more, rest);
        } else if header_len(received) is Some {
            law_answer_is_stable(received, chunks.flatten());
        } else {
            assert(chunks.flatten().len() == 0);
            assert(received + chunks.flatten() =~= received);
        }
    }
}

/// Law: an open tunnel loses no byte. What was received is the header, which ends
/// with a blank line, and the data behind it.
pub proof fn law_no_byte_is_lost(received: Seq<u8>)
    ensures
        answer(received) matches Answer::Established(rest) ==> {
            let n = header_len(received)->0 as int;
            &&& received.take(n) + rest == received
            &&& blank_line_first(received.skip(n - 4))
        },
{
    if answer(received) is Established {
        let n = header_len(received)->0 as int;
        law_header_end_is_first_blank_line(received, 0);
        assert(received.take(n) + received.skip(n) =~= received);
    }
}

/// Law: the status is read from the first line alone; what the other lines say
/// does not count.
pub proof fn law_status_is_in_first_line(line: Seq<char>, rest: Seq<char>)
    requires
        until_pair(line, '\r', '\n') == line.len(),
    ensures
        status_code(line + "\r\n"@ + rest) == status_code(line),
{
    reveal_strlit("\r\n");
    let s = line + "\r\n"@ + rest;
    let n = line.len() as int;
    lemma_until_pair(line, '\r', '\n');
    assert forall|k: int| 0 <= k < n && k + 1 < s.len() implies !(#[trigger] s[k] == '\r' && s[k
        + 1] == '\n') by {
        assert(s[k] == line[k]);
        if k + 1 < n {
            assert(s[k + 1] == line[k + 1]);
        } else {
            assert(s[k + 1] == "\r\n"@[0]);
        }
    }
    assert(s[n] == "\r\n"@[0] && s[n + 1] == "\r\n"@[1]);
    lemma_until_pair_is(s, '\r', '\n', n);
    assert(s.take(n) =~= line);
    assert(line.take(n) =~= line);
}

proof fn lemma_last_colon(a: Seq<char>, b: Seq<char>)
    requires
        forall|k: int| 0 <= k < b.len() ==> #[trigger] b[k] != ':',
    ensures
        last_colon(a + seq![':'] + b) == Some(a.len() as int),
    decreases b.len(),
{
    let s = a + seq![':'] + b;
    if b.len() > 0 {
        assert(s.last() == b.last());
        assert(b.last() == b[b.len() - 1]);
        lemma_last_colon(a, b.drop_last());
        assert(s.drop_last() =~= a + seq![':'] + b.drop_last());
    }
}

/// Law: a host and a port that are written with a colon between them are read
/// back, whatever the host is made of.
pub proof fn law_host_port_reads_back(host: Seq<char>, port: nat)
    requires
        host.len() > 0,
        0 < port <= 0xffff,
    ensures
        host_port(host + seq![':'] + decimal(port)) == Some((host, port)),
{
    let s = host + seq![':'] + decimal(port);
    lemma_decimal(port);
    lemma_last_colon(host, decimal(port));
    law_decimal_reads_back(port);
    assert(s.take(host.len() as int) =~= host);
    assert(s.skip(host.len() as int + 1) =~= decimal(port));
}

/// Whether `header` is a whole header: it ends with a blank line, and no blank line ends
/// before.
pub open spec fn is_header(header: Seq<u8>) -> bool {
    &&& header.len() >= 4
    &&& header.skip(header.len() - 4) == seq![13u8, 10, 13, 10]
    &&& forall|k: int|
        0 <= k < header.len() - 4 ==> #[trigger] header.subrange(k, k + 4) != seq![13u8, 10, 13, 10]
}

/// Whether `line` holds no carriage return that a newline follows.
pub open spec fn without_crlf(line: Seq<char>) -> bool {
    forall|k: int|
        0 <= k < line.len() - 1 ==> !(#[trigger] line[k] == '\r' && line[k + 1] == '\n')
}

proof fn lemma_blank_line(buf: Seq<u8>, k: int)
    requires
        0 <= k <= buf.len(),
    ensures
        blank_line_first(buf.skip(k)) <==> k + 4 <= buf.len() && buf.subrange(k, k + 4) == seq![
            13u8,
            10,
            13,
            10,
        ],
{
    let t = buf.skip(k);
    if k + 4 <= buf.len() {
        let u = buf.subrange(k, k + 4);
        assert(t[0] == u[0] && t[1] == u[1] && t[2] == u[2] && t[3] == u[3]);
        if blank_line_first(t) {
            assert(u =~= seq![13u8, 10, 13, 10]);
        }
    }
}

proof fn lemma_header_len(header: Seq<u8>, rest: Seq<u8>)
    requires
        is_header(header),
    ensures
        header_len(header + rest) == Some(header.len()),
        (header + rest).take(header.len() as int) == header,
        (header + rest).skip(header.len() as int) == rest,
{
    let n = header.len() as int;
    assert(header.subrange(n - 4, n) =~= header.skip(n - 4));
    lemma_blank_line(header, n - 4);
    law_header_end_is_first_blank_line(header, n - 4);
    let m = header_len(header)->0 as int;
    if m < n {
        lemma_blank_line(header, m - 4);
        assert(header.subrange(m - 4, m - 4 + 4) != seq![13u8, 10, 13, 10]);
    }
    law_header_end_is_stable(header, rest);
    assert((header + rest).take(n) =~= header);
    assert((header + rest).skip(n) =~= rest);
}

proof fn lemma_first_line_text(line: Seq<char>, others: Seq<char>)
    requires
        without_crlf(line),
    ensures
        status_code(line + seq!['\r', '\n'] + others) == status_code(line),
        until_pair(line, '\r', '\n') == line.len(),
{
    lemma_until_pair_is(line, '\r', '\n', line.len() as int);
    law_status_is_in_first_line(line, others);
    reveal_strlit("\r\n");
    assert("\r\n"@ =~= seq!['\r', '\n']);
}

proof fn lemma_words_of_status_line(
    version: Seq<char>,
    gap: Seq<char>,
    code: Seq<char>,
    reason: Seq<char>,
)
    requires
        is_word(version),
        is_word(code),
        gap.len() > 0,
        forall|k: int| 0 <= k < gap.len() ==> is_space(#[trigger] gap[k]),
        reason.len() > 0 ==> is_space(reason[0]),
    ensures
        words(version + gap + code + reason).len() >= 2,
        words(version + gap + code + reason)[1] == code,
{
    let line = version + gap + code + reason;
    let tail = code + reason;
    law_word_alone(version);
    law_word_alone(code);
    let inner = gap.drop_first();
    assert(is_space(gap[0]));
    law_space_parts_words(version, gap[0], inner + tail);
    assert(line =~= version + seq![gap[0]] + (inner + tail));
    assert forall|k: int| 0 <= k < inner.len() implies is_space(#[trigger] inner[k]) by {
        assert(inner[k] == gap[k + 1]);
    }
    lemma_words_behind_space(inner, tail);
    if reason.len() == 0 {
        assert(tail =~= code);
    } else {
        law_space_parts_words(code, reason[0], reason.drop_first());
        assert(tail =~= code + seq![reason[0]] + reason.drop_first());
    }
}

proof fn lemma_words_behind_space(gap: Seq<char>, s: Seq<char>)
    requires
        forall|k: int| 0 <= k < gap.len() ==> is_space(#[trigger] gap[k]),
    ensures
        words(gap + s) == words(s),
    decreases gap.len(),
{
    if gap.len() == 0 {
        assert(gap + s =~= s);
    } else {
        let rest = gap.drop_first();
        assert forall|k: int| 0 <= k < rest.len() implies is_space(#[trigger] rest[k]) by {
            assert(rest[k] == gap[k + 1]);
        }
        assert((gap + s)[0] == gap[0]);
        assert((gap + s).drop_first() =~= rest + s);
        lemma_words_behind_space(rest, s);
    }
}

/// Law: a response opens the tunnel exactly where its status is 200, and any other status
/// is a refusal with that status. The status stands behind the version in the first line,
/// with or without a reason behind it; the other lines do not count. What came behind the
/// header is handed on whole. It does not matter in which reads the bytes came.
pub proof fn law_status_decides(
    received: Seq<u8>,
    chunk: Seq<u8>,
    step: HandshakeStep,
    header: Seq<u8>,
    rest: Seq<u8>,
    version: Seq<char>,
    gap: Seq<char>,
    status: nat,
    reason: Seq<char>,
    others: Seq<char>,
)
    requires
        step.follows(received, chunk),
        chunk.len() > 0,
        received + chunk == header + rest,
        is_header(header),
        valid_utf8(header),
        decode_utf8(header) == version + gap + decimal(status) + reason + seq!['\r', '\n'] + others,
        is_word(version),
        gap.len() > 0,
        forall|k: int| 0 <= k < gap.len() ==> is_space(#[trigger] gap[k]),
        reason.len() > 0 ==> is_space(reason[0]),
        without_crlf(version + gap + decimal(status) + reason),
    ensures
        status == 200 ==> (step matches HandshakeStep::Established(v) && v@ == rest),
        status != 200 && status <= 65535 ==> step == HandshakeStep::Failed(
            HandshakeError::Rejected(status as u16),
        ),
        status > 65535 ==> step == HandshakeStep::Failed(HandshakeError::Rejected(0)),
{
    let line = version + gap + decimal(status) + reason;
    lemma_header_len(header, rest);
    lemma_first_line_text(line, others);
    lemma_decimal(status);
    law_decimal_reads_back(status);
    lemma_words_of_status_line(version, gap, decimal(status), reason);
    assert(line.take(line.len() as int) =~= line);
}

/// Law: a first line without a status, or with a second word that is no number, is a
/// refusal without a status.
pub proof fn law_missing_status_is_a_refusal(
    received: Seq<u8>,
    chunk: Seq<u8>,
    step: HandshakeStep,
    header: Seq<u8>,
    rest: Seq<u8>,
    line: Seq<char>,
    others: Seq<char>,
)
    requires
        step.follows(received, chunk),
        chunk.len() > 0,
        received + chunk == header + rest,
        is_header(header),
        valid_utf8(header),
        decode_utf8(header) == line + seq!['\r', '\n'] + others,
        without_crlf(line),
        words(line).len() < 2 || exists|k: int|
            0 <= k < words(line)[1].len() && !('0' <= #[trigger] words(line)[1][k] <= '9') && (k
                == 0 ==> words(line)[1][k] != '+'),
    ensures
        step == HandshakeStep::Failed(HandshakeError::Rejected(0)),
{
    lemma_header_len(header, rest);
    lemma_first_line_text(line, others);
    assert(line.take(line.len() as int) =~= line);
    if words(line).len() >= 2 {
        let w = words(line)[1];
        law_only_digits_are_numbers(w, 0xffff);
    }
}

/// Law: without a blank line the handshake reads on, as far as there is room, and fails
/// where there is none left.
pub proof fn law_incomplete_header_is_read_on(
    received: Seq<u8>,
    chunk: Seq<u8>,
    step: HandshakeStep,
)
    requires
        step.follows(received, chunk),
        chunk.len() > 0,
        (received + chunk).len() <= 4096,
        forall|k: int|
            0 <= k <= (received + chunk).len() - 4 ==> #[trigger] (received + chunk).subrange(
                k,
                k + 4,
            ) != seq![13u8, 10, 13, 10],
    ensures
        step == (if (received + chunk).len() < 4096 {
            HandshakeStep::Read((4096 - (received + chunk).len()) as usize)
        } else {
            HandshakeStep::Failed(HandshakeError::TooLarge)
        }),
{
    let all = received + chunk;
    law_header_end_is_first_blank_line(all, 0);
    if let Some(n) = header_len(all) {
        lemma_blank_line(all, n - 4);
        assert(all.subrange(n - 4, n - 4 + 4) != seq![13u8, 10, 13, 10]);
    }
}

/// Law: a complete header that is not valid UTF-8 fails the handshake, and so does a
/// connection that is closed in its course.
pub proof fn law_unreadable_response_fails(
    received: Seq<u8>,
    chunk: Seq<u8>,
    step: HandshakeStep,
    header: Seq<u8>,
    rest: Seq<u8>,
)
    requires
        step.follows(received, chunk),
        received + chunk == header + rest,
        is_header(header),
        !valid_utf8(header),
    ensures
        chunk.len() > 0 ==> step == HandshakeStep::Failed(HandshakeError::NotUtf8),
        chunk.len() == 0 ==> step == HandshakeStep::Failed(HandshakeError::Eof),
{
    lemma_header_len(header, rest);
}

/// Law: a connection that is closed in the course of the handshake fails it, whatever was
/// received.
pub proof fn law_closed_connection_fails(received: Seq<u8>, step: HandshakeStep)
    requires
        step.follows(received, seq![]),
    ensures
        step == HandshakeStep::Failed(HandshakeError::Eof),
{
}

/// Law: the line that is kept of a response is its first one.
pub proof fn law_first_line_is_kept(
    header: Seq<u8>,
    rest: Seq<u8>,
    line: Seq<char>,
    others: Seq<char>,
)
    requires
        is_header(header),
        valid_utf8(header),
        decode_utf8(header) == line + seq!['\r', '\n'] + others,
        !line.contains('\n'),
    ensures
        first_line(header + rest) == Some(line),
{
    lemma_header_len(header, rest);
    law_newline_ends_line(line, others);
}

/// Law: a CONNECT request has two lines and a blank one. Both lines name the destination,
/// which reads back as its address and port.
pub proof fn law_request_names_the_destination(target: SocketAddrV4)
    ensures
        ({
            let to = ipv4_text(target.ip.bits) + seq![':'] + decimal(target.port as nat);
            &&& lines(request_text(target)) == seq![
                "CONNECT "@ + to + " HTTP/1.1"@,
                "Host: "@ + to,
                seq![],
            ]
            &&& request_text(target).len() >= 4
            &&& request_text(target).skip(request_text(target).len() - 4) == seq![
                '\r',
                '\n',
                '\r',
                '\n',
            ]
            &&& target.port > 0 ==> host_port(to) == Some(
                (ipv4_text(target.ip.bits), target.port as nat),
            )
        }),
{
    let ip = ipv4_text(target.ip.bits);
    let port = decimal(target.port as nat);
    let to = ip + seq![':'] + port;
    reveal_strlit("CONNECT ");
    reveal_strlit(" HTTP/1.1\r\nHost: ");
    reveal_strlit(" HTTP/1.1");
    reveal_strlit("Host: ");
    reveal_strlit("\r\n\r\n");
    reveal_strlit(":");
    lemma_ipv4_text_is_digits(target.ip.bits);
    lemma_decimal(target.port as nat);
    let a = "CONNECT "@ + to + " HTTP/1.1"@;
    let b = "Host: "@ + to;
    let none = Seq::<char>::empty();
    let tail = none + seq!['\r', '\n'] + none;
    let text = request_text(target);
    assert(ip + ":"@ + port =~= to);
    assert(text =~= a + seq!['\r', '\n'] + (b + seq!['\r', '\n'] + tail));
    assert forall|k: int| 0 <= k < to.len() implies #[trigger] to[k] != '\n' by {
        if k < ip.len() {
            assert(to[k] == ip[k]);
        } else if k > ip.len() {
            assert(to[k] == port[k - ip.len() - 1]);
        }
    }
    assert forall|k: int| 0 <= k < a.len() implies #[trigger] a[k] != '\n' by {
        if k < 8 {
            assert(a[k] == "CONNECT "@[k]);
        } else if k < 8 + to.len() {
            assert(a[k] == to[k - 8]);
        } else {
            assert(a[k] == " HTTP/1.1"@[k - 8 - to.len()]);
        }
    }
    assert forall|k: int| 0 <= k < b.len() implies #[trigger] b[k] != '\n' by {
        if k < 6 {
            assert(b[k] == "Host: "@[k]);
        } else {
            assert(b[k] == to[k - 6]);
        }
    }
    law_newline_ends_line(a, b + seq!['\r', '\n'] + tail);
    law_newline_ends_line(b, tail);
    law_newline_ends_line(none, none);
    law_last_line(none);
    assert(lines(text) =~= seq![a, b, none]);
    assert(text.skip(text.len() - 4) =~= seq!['\r', '\n', '\r', '\n']);
    if target.port > 0 {
        assert(ip.len() > 0);
        law_host_port_reads_back(ip, target.port as nat);
    }
}

proof fn lemma_ipv4_text_is_digits(bits: u32)
    ensures
        ipv4_text(bits).len() > 0,
        forall|k: int|
            0 <= k < ipv4_text(bits).len() ==> #[trigger] ipv4_text(bits)[k] == '.' || '0'
                <= ipv4_text(bits)[k] <= '9',
{
    law_ipv4_text_reads_back(bits);
    let s = ipv4_text(bits);
    assert(s[decimal(octet_v4(bits, 0)).len() as int] == '.');
    assert forall|k: int| 0 <= k < s.len() implies #[trigger] s[k] == '.' || '0' <= s[k] <= '9' by {
        lemma_ipv4_chars(s, k);
    }
}

/// Law: a text without a colon is no host and port, nor is one with nothing in front of
/// its last colon, or with anything but a number from 1 to 65535 behind it.
pub proof fn law_malformed_host_port_is_refused(host: Seq<char>, port: Seq<char>)
    requires
        !port.contains(':'),
    ensures
        host_port(port) is None,
        host.len() == 0 ==> host_port(host + seq![':'] + port) is None,
        uint_up_to(port, 65535) is None || uint_up_to(port, 65535) == Some(0nat) ==> host_port(
            host + seq![':'] + port,
        ) is None,
        host_port(host + seq![':'] + port) matches Some(hp) ==> hp.0 == host && uint_up_to(
            port,
            65535,
        ) == Some(hp.1) && hp.1 > 0,
{
    let s = host + seq![':'] + port;
    assert forall|k: int| 0 <= k < port.len() implies #[trigger] port[k] != ':' by {
        assert(port.contains(port[k]));
    }
    lemma_last_colon(host, port);
    lemma_no_colon(port);
    assert(s.take(host.len() as int) =~= host);
    assert(s.skip(host.len() as int + 1) =~= port);
}

proof fn lemma_no_colon(s: Seq<char>)
    requires
        forall|k: int| 0 <= k < s.len() ==> #[trigger] s[k] != ':',
    ensures
        last_colon(s) is None,
    decreases s.len(),
{
    if s.len() > 0 {
        assert(s.last() == s[s.len() - 1]);
        assert forall|k: int| 0 <= k < s.drop_last().len() implies #[trigger] s.drop_last()[k]
            != ':' by {
            assert(s.drop_last()[k] == s[k]);
        }
        lemma_no_colon(s.drop_last());
    }
}

/// Law: a connection is relayed directly exactly where the list holds its destination, at
/// any port, and through the proxy otherwise; the destination stays the same.
pub proof fn law_route_follows_the_list(
    dst: SocketAddrV4,
    excludes: &ExcludeList,
    r: Route,
    none: Route,
)
    requires
        call_ensures(route, (Some(dst), excludes), r),
        call_ensures(route, (None, excludes), none),
    ensures
        r == Route::Direct(dst) <==> excludes.covers(IpAddr::V4(dst.ip)),
        r == Route::Tunnel(dst) <==> !excludes.covers(IpAddr::V4(dst.ip)),
        none == Route::Unknown,
{
}

/// Law: [`parse_host_port`] gives back a host and a port that are written with a colon
/// between them, and nothing where the port is out of range.
pub proof fn law_parse_host_port(
    s: &str,
    r: Option<(String, u16)>,
    host: Seq<char>,
    port: nat,
)
    requires
        call_ensures(parse_host_port, (s,), r),
        s@ == host + seq![':'] + decimal(port),
    ensures
        host.len() > 0 && 0 < port <= 65535 ==> (r matches Some(hp) && hp.0@ == host && hp.1
            == port),
        host.len() == 0 || port == 0 || port > 65535 ==> r is None,
{
    lemma_decimal(port);
    law_decimal_reads_back(port);
    assert(!decimal(port).contains(':'));
    law_malformed_host_port_is_refused(host, decimal(port));
    if host.len() > 0 && 0 < port <= 65535 {
        law_host_port_reads_back(host, port);
    }
}

/// Law: [`parse_host_port`] gives nothing for a text without a colon, and where anything
/// but digits behind an optional plus sign follows the last one.
pub proof fn law_parse_host_port_refuses(
    s: &str,
    r: Option<(String, u16)>,
    host: Seq<char>,
    port: Seq<char>,
)
    requires
        call_ensures(parse_host_port, (s,), r),
        !port.contains(':'),
        s@ == port || (s@ == host + seq![':'] + port && (port.len() == 0 || exists|k: int|
            0 <= k < port.len() && !('0' <= #[trigger] port[k] <= '9') && (k == 0 ==> port[k]
                != '+'))),
    ensures
        r is None,
{
    law_malformed_host_port_is_refused(host, port);
    law_only_digits_are_numbers(port, 65535);
}

/// Law: [`parse_status_code`] reads the number behind the version in the first line, with
/// or without a reason and further lines behind it.
pub proof fn law_parse_status_code(
    header: &str,
    r: Option<u16>,
    version: Seq<char>,
    gap: Seq<char>,
    status: nat,
    reason: Seq<char>,
    others: Seq<char>,
)
    requires
        call_ensures(parse_status_code, (header,), r),
        ({
            let line = version + gap + decimal(status) + reason;
            without_crlf(line) && (header@ == line || header@ == line + seq!['\r', '\n'] + others)
        }),
        is_word(version),
        gap.len() > 0,
        forall|k: int| 0 <= k < gap.len() ==> is_space(#[trigger] gap[k]),
        reason.len() > 0 ==> is_space(reason[0]),
    ensures
        status <= 65535 ==> r == Some(status as u16),
        status > 65535 ==> r is None,
{
    let line = version + gap + decimal(status) + reason;
    lemma_first_line_text(line, others);
    lemma_decimal(status);
    law_decimal_reads_back(status);
    lemma_words_of_status_line(version, gap, decimal(status), reason);
    assert(line.take(line.len() as int) =~= line);
}

/// Law: [`find_header_end`] gives the length of the header, with its blank line, whatever
/// follows it, and nothing where there is no blank line.
pub proof fn law_find_header_end(buf: &[u8], r: Option<usize>, header: Seq<u8>, rest: Seq<u8>)
    requires
        call_ensures(find_header_end, (buf,), r),
    ensures
        is_header(header) && buf@ == header + rest ==> (r matches Some(n) && n == header.len()),
        (forall|k: int|
            0 <= k <= buf@.len() - 4 ==> #[trigger] buf@.subrange(k, k + 4) != seq![
                13u8,
                10,
                13,
                10,
            ]) ==> r is None,
{
    if is_header(header) && buf@ == header + rest {
        lemma_header_len(header, rest);
    }
    if forall|k: int|
        0 <= k <= buf@.len() - 4 ==> #[trigger] buf@.subrange(k, k + 4) != seq![13u8, 10, 13, 10] {
        law_header_end_is_first_blank_line(buf@, 0);
        if let Some(n) = header_len(buf@) {
            lemma_blank_line(buf@, n - 4);
            assert(buf@.subrange(n - 4, n - 4 + 4) != seq![13u8, 10, 13, 10]);
        }
    }
}

/// Law: [`connect_request`] writes two lines and a blank one, and both lines name the
/// destination.
pub proof fn law_connect_request(target: SocketAddrV4, r: String)
    requires
        call_ensures(connect_request, (target,), r),
    ensures
        ({
            let to = ipv4_text(target.ip.bits) + seq![':'] + decimal(target.port as nat);
            &&& lines(r@) == seq!["CONNECT "@ + to + " HTTP/1.1"@, "Host: "@ + to, seq![]]
            &&& r@.skip(r@.len() - 4) == seq!['\r', '\n', '\r', '\n']
        }),
{
    law_request_names_the_destination(target);
}

/// Law: [`original_dst`] takes the octets of the address and of the port in network order.
pub proof fn law_original_dst(ip: [u8; 4], port: [u8; 2], r: SocketAddrV4)
    requires
        call_ensures(original_dst, (ip, port), r),
    ensures
        r.port == 256 * port@[0] + port@[1],
        ipv4_text(r.ip.bits) == joined(
            seq![
                decimal(ip@[0] as nat),
                decimal(ip@[1] as nat),
                decimal(ip@[2] as nat),
                decimal(ip@[3] as nat),
            ],
            '.',
        ),
{
    law_ipv4_of_octets(ip@[0] as nat, ip@[1] as nat, ip@[2] as nat, ip@[3] as nat);
    law_ipv4_text_is_unique(
        joined(
            seq![
                decimal(ip@[0] as nat),
                decimal(ip@[1] as nat),
                decimal(ip@[2] as nat),
                decimal(ip@[3] as nat),
            ],
            '.',
        ),
        r.ip.bits,
    );
}

/// Law: [`Handshake::response_line`] gives the first line of a complete header, and nothing
/// before a blank line has come.
pub proof fn law_response_line(
    h: &Handshake,
    r: Option<String>,
    header: Seq<u8>,
    rest: Seq<u8>,
    line: Seq<char>,
    others: Seq<char>,
)
    requires
        call_ensures(Handshake::response_line, (h,), r),
    ensures
        h.received() == header + rest && is_header(header) && valid_utf8(header) && decode_utf8(
            header,
        ) == line + seq!['\r', '\n'] + others && !line.contains('\n') ==> (r matches Some(text)
            && text@ == line),
        h.received() == header + rest && is_header(header) && !valid_utf8(header) ==> r is None,
        (forall|k: int|
            0 <= k <= h.received().len() - 4 ==> #[trigger] h.received().subrange(k, k + 4) != seq![
                13u8,
                10,
                13,
                10,
            ]) ==> r is None,
{
    let all = h.received();
    if all == header + rest && is_header(header) {
        lemma_header_len(header, rest);
        if valid_utf8(header) && decode_utf8(header) == line + seq!['\r', '\n'] + others
            && !line.contains('\n') {
            law_first_line_is_kept(header, rest, line, others);
        }
    }
    if forall|k: int|
        0 <= k <= all.len() - 4 ==> #[trigger] all.subrange(k, k + 4) != seq![13u8, 10, 13, 10] {
        law_header_end_is_first_blank_line(all, 0);
        if let Some(n) = header_len(all) {
            lemma_blank_line(all, n - 4);
            assert(all.subrange(n - 4, n - 4 + 4) != seq![13u8, 10, 13, 10]);
        }
    }
}

} // verus!
