//! Connection statistics: counts of total, active and failed connections, and of
//! bytes transferred upstream and downstream.
use crate::number::{decimal, int_text, lemma_decimal, push_decimal, push_int};
use crate::text::{fields, lemma_fields_cons, lemma_fields_one, push_text};
use vstd::arithmetic::div_mod::lemma_mod_multiples_vanish;
use vstd::prelude::*;

verus! {

/// The value of a 32-bit counter that counts modulo its range.
pub open spec fn wrap_u32(n: int) -> u32 {
    (n % 0x1_0000_0000) as u32
}

/// The value of a signed 64-bit counter that counts modulo its range.
pub open spec fn wrap_i64(n: int) -> i64 {
    let m = n % 0x1_0000_0000_0000_0000;
    if m >= 0x8000_0000_0000_0000 {
        (m - 0x1_0000_0000_0000_0000) as i64
    } else {
        m as i64
    }
}

/// Whole kilobytes, rounded toward zero.
pub open spec fn kilobytes(bytes: i64) -> int {
    if bytes >= 0 {
        bytes as int / 1024
    } else {
        -((-bytes) / 1024)
    }
}

/// Connection statistics. The counters wrap around at the end of their range.
#[derive(Clone, Copy, Debug, PartialEq, Eq, Structural)]
pub struct Stats {
    total: u32,
    active: u32,
    failed: u32,
    bytes_up: i64,
    bytes_down: i64,
}

/// The counters.
pub struct Counters {
    pub total: u32,
    pub active: u32,
    pub failed: u32,
    pub bytes_up: i64,
    pub bytes_down: i64,
}

impl View for Stats {
    type V = Counters;

    closed spec fn view(&self) -> Counters {
        Counters {
            total: self.total,
            active: self.active,
            failed: self.failed,
            bytes_up: self.bytes_up,
            bytes_down: self.bytes_down,
        }
    }
}

/// What happens on a connection, as far as the counters are concerned.
pub enum Event {
    /// A connection was accepted.
    Open,
    /// A connection ended, well or not.
    Close { ok: bool },
    /// Bytes were sent upstream.
    Up(u64),
    /// Bytes were received downstream.
    Down(u64),
}

/// Counters at zero.
pub open spec fn zero() -> Counters {
    Counters { total: 0, active: 0, failed: 0, bytes_up: 0, bytes_down: 0 }
}

/// The counters after an event.
pub open spec fn count(c: Counters, e: Event) -> Counters {
    match e {
        Event::Open => Counters {
            total: wrap_u32(c.total + 1),
            active: wrap_u32(c.active + 1),
            ..c
        },
        Event::Close { ok } => Counters {
            failed: if ok {
                c.failed
            } else {
                wrap_u32(c.failed + 1)
            },
            active: wrap_u32(c.active - 1),
            ..c
        },
        Event::Up(n) => Counters { bytes_up: wrap_i64(c.bytes_up + n), ..c },
        Event::Down(n) => Counters { bytes_down: wrap_i64(c.bytes_down + n), ..c },
    }
}

/// The counters after a transfer whose two directions ended with these byte
/// counts, or failed.
pub open spec fn count_transfer(c: Counters, up: Option<u64>, down: Option<u64>) -> Counters {
    let d = match up {
        Some(n) => count(c, Event::Up(n)),
        None => c,
    };
    match down {
        Some(n) => count(d, Event::Down(n)),
        None => d,
    }
}

/// The one-line summary of the counters.
pub open spec fn summary(c: Counters) -> Seq<char> {
    "conns="@ + decimal(c.total as nat) + ", active="@ + decimal(c.active as nat) + ", failed="@
        + decimal(c.failed as nat) + ", up="@ + int_text(kilobytes(c.bytes_up)) + "KB, down="@
        + int_text(kilobytes(c.bytes_down)) + "KB"@
}

impl Stats {
    /// Statistics with every counter at zero.
    pub fn new() -> (r: Self)
        ensures
            r@ == zero(),
    {
        Stats { total: 0, active: 0, failed: 0, bytes_up: 0, bytes_down: 0 }
    }

    /// Records that a connection was opened.
    pub fn conn_open(&mut self)
        ensures
            final(self)@ == count(old(self)@, Event::Open),
    {
        self.total = self.total.wrapping_add(1);
        self.active = self.active.wrapping_add(1);
    }

    /// Records that a connection was closed, and that it failed where `ok` is
    /// false.
    pub fn conn_close(&mut self, ok: bool)
        ensures
            final(self)@ == count(old(self)@, Event::Close { ok }),
    {
        if !ok {
            self.failed = self.failed.wrapping_add(1);
        }
        self.active = self.active.wrapping_sub(1);
    }

    /// Records bytes sent upstream.
    pub fn add_up(&mut self, n: u64)
        ensures
            final(self)@ == count(old(self)@, Event::Up(n)),
    {
        self.bytes_up = self.bytes_up.wrapping_add_unsigned(n);
    }

    /// Records bytes received downstream.
    pub fn add_down(&mut self, n: u64)
        ensures
            final(self)@ == count(old(self)@, Event::Down(n)),
    {
        self.bytes_down = self.bytes_down.wrapping_add_unsigned(n);
    }

    /// Records the end of a relayed connection: the bytes copied in each direction
    /// where the copy succeeded.
    pub fn add_transfer(&mut self, up: Option<u64>, down: Option<u64>)
        ensures
            final(self)@ == count_transfer(old(self)@, up, down),
    {
        if let Some(n) = up {
            self.add_up(n);
        }
        if let Some(n) = down {
            self.add_down(n);
        }
    }

    /// Connections accepted.
    pub fn total(&self) -> (r: u32)
        ensures
            r == self@.total,
    {
        self.total
    }

    /// Connections that are active now.
    pub fn active(&self) -> (r: u32)
        ensures
            r == self@.active,
    {
        self.active
    }

    /// Connections that failed.
    pub fn failed(&self) -> (r: u32)
        ensures
            r == self@.failed,
    {
        self.failed
    }

    /// Kilobytes sent upstream.
    pub fn bytes_up_kb(&self) -> (r: i64)
        ensures
            r == kilobytes(self@.bytes_up),
    {
        self.bytes_up / 1024
    }

    /// Kilobytes received downstream.
    pub fn bytes_down_kb(&self) -> (r: i64)
        ensures
            r == kilobytes(self@.bytes_down),
    {
        self.bytes_down / 1024
    }

    /// The one-line summary.
    pub fn summary_line(&self) -> (r: String)
        ensures
            r@ == summary(self@),
    {
        let mut out = String::new();
        push_text(&mut out, "conns=");
        push_decimal(&mut out, self.total() as u64);
        push_text(&mut out, ", active=");
        push_decimal(&mut out, self.active() as u64);
        push_text(&mut out, ", failed=");
        push_decimal(&mut out, self.failed() as u64);
        push_text(&mut out, ", up=");
        push_int(&mut out, self.bytes_up_kb());
        push_text(&mut out, "KB, down=");
        push_int(&mut out, self.bytes_down_kb());
        push_text(&mut out, "KB");
        assert(out@ =~= summary(self@));
        out
    }
}

/// The counters after a history of events.
pub open spec fn count_all(c: Counters, events: Seq<Event>) -> Counters
    decreases events.len(),
{
    if events.len() == 0 {
        c
    } else {
        count(count_all(c, events.drop_last()), events.last())
    }
}

/// The sum over a history of what each event contributes.
pub open spec fn sum(events: Seq<Event>, f: spec_fn(Event) -> int) -> int
    decreases events.len(),
{
    if events.len() == 0 {
        0
    } else {
        sum(events.drop_last(), f) + f(events.last())
    }
}

/// Connections opened by a history.
pub open spec fn opened(events: Seq<Event>) -> int {
    sum(events, |e: Event| if e is Open { 1int } else { 0int })
}

/// Connections closed by a history.
pub open spec fn closed(events: Seq<Event>) -> int {
    sum(events, |e: Event| if e is Close { 1int } else { 0int })
}

/// Connections that a history closed as failed.
pub open spec fn closed_as_failed(events: Seq<Event>) -> int {
    sum(events, |e: Event| if e matches Event::Close { ok } && !ok { 1int } else { 0int })
}

/// Bytes that a history sent upstream.
pub open spec fn sent_up(events: Seq<Event>) -> int {
    sum(events, |e: Event| if let Event::Up(n) = e { n as int } else { 0int })
}

/// Bytes that a history received downstream.
pub open spec fn received_down(events: Seq<Event>) -> int {
    sum(events, |e: Event| if let Event::Down(n) = e { n as int } else { 0int })
}

proof fn lemma_wrap_u32(n: int, k: int)
    requires
        -1 <= k <= 1,
    ensures
        wrap_u32(wrap_u32(n) + k) == wrap_u32(n + k),
{
}

proof fn lemma_wrap_i64(n: int, k: int)
    requires
        0 <= k <= 0xffff_ffff_ffff_ffff,
    ensures
        wrap_i64(wrap_i64(n) + k) == wrap_i64(n + k),
{
}

/// Law: after any history the counters hold what happened, modulo their range:
/// the connections opened, those opened and not closed, those closed as failed,
/// and the bytes of each direction.
pub proof fn law_counters_follow_history(events: Seq<Event>)
    ensures
        count_all(zero(), events) == (Counters {
            total: wrap_u32(opened(events)),
            active: wrap_u32(opened(events) - closed(events)),
            failed: wrap_u32(closed_as_failed(events)),
            bytes_up: wrap_i64(sent_up(events)),
            bytes_down: wrap_i64(received_down(events)),
        }),
    decreases events.len(),
{
    if events.len() > 0 {
        let before = events.drop_last();
        law_counters_follow_history(before);
        match events.last() {
            Event::Open => {
                lemma_wrap_u32(opened(before), 1);
                lemma_wrap_u32(opened(before) - closed(before), 1);
            },
            Event::Close { ok } => {
                lemma_wrap_u32(closed_as_failed(before), 1);
                lemma_wrap_u32(opened(before) - closed(before), -1);
            },
            Event::Up(n) => {
                lemma_wrap_i64(sent_up(before), n as int);
            },
            Event::Down(n) => {
                lemma_wrap_i64(received_down(before), n as int);
            },
        }
    }
}

/// Law: a connection that was opened and closed leaves the active count as it was,
/// adds one to the total, and one to the failures exactly where it failed.
pub proof fn law_open_and_close(c: Counters, ok: bool)
    ensures
        count(count(c, Event::Open), Event::Close { ok }) == (Counters {
            total: wrap_u32(c.total + 1),
            failed: if ok {
                c.failed
            } else {
                wrap_u32(c.failed + 1)
            },
            ..c
        }),
{
}

/// Law: as long as a counter stays in its range, it counts exactly: an opened connection
/// adds one to the total and to the active ones, a closed one takes one from the active
/// ones and adds one to the failures where it failed, and bytes are added to their own
/// direction. Nothing else changes.
pub proof fn law_counting_is_exact(c: Counters, ok: bool, n: u64)
    ensures
        c.total < 0xffff_ffff && c.active < 0xffff_ffff ==> count(c, Event::Open) == (Counters {
            total: (c.total + 1) as u32,
            active: (c.active + 1) as u32,
            ..c
        }),
        c.active > 0 && c.failed < 0xffff_ffff ==> count(c, Event::Close { ok }) == (Counters {
            active: (c.active - 1) as u32,
            failed: (c.failed + if ok {
                0int
            } else {
                1int
            }) as u32,
            ..c
        }),
        c.bytes_up + n <= i64::MAX ==> count(c, Event::Up(n)) == (Counters {
            bytes_up: (c.bytes_up + n) as i64,
            ..c
        }),
        c.bytes_down + n <= i64::MAX ==> count(c, Event::Down(n)) == (Counters {
            bytes_down: (c.bytes_down + n) as i64,
            ..c
        }),
{
}

/// Law: past its range a counter goes on at the other end.
pub proof fn law_counters_wrap(n: int, k: int)
    ensures
        wrap_u32(n + k * 0x1_0000_0000) == wrap_u32(n),
        0 <= n <= 0xffff_ffff ==> wrap_u32(n) == n,
        wrap_i64(n + k * 0x1_0000_0000_0000_0000) == wrap_i64(n),
        -0x8000_0000_0000_0000 <= n <= 0x7fff_ffff_ffff_ffff ==> wrap_i64(n) == n,
{
    lemma_mod_multiples_vanish(k, n, 0x1_0000_0000);
    lemma_mod_multiples_vanish(k, n, 0x1_0000_0000_0000_0000);
}

/// Law: a transfer counts the bytes of each direction that succeeded, whichever order they
/// are counted in, and nothing of one that failed.
pub proof fn law_transfer_counts_both_directions(c: Counters, up: u64, down: u64)
    ensures
        count_transfer(c, Some(up), Some(down)) == count(count(c, Event::Up(up)), Event::Down(down)),
        count_transfer(c, Some(up), Some(down)) == count(count(c, Event::Down(down)), Event::Up(up)),
        count_transfer(c, Some(up), None) == count(c, Event::Up(up)),
        count_transfer(c, None, Some(down)) == count(c, Event::Down(down)),
        count_transfer(c, None, None) == c,
{
}

/// Law: the kilobytes shown are whole, 1024 bytes each, and cut off toward zero.
pub proof fn law_kilobytes_are_whole(bytes: i64)
    ensures
        bytes >= 0 ==> 1024 * kilobytes(bytes) <= bytes < 1024 * kilobytes(bytes) + 1024,
        bytes <= 0 ==> 1024 * kilobytes(bytes) - 1024 < bytes <= 1024 * kilobytes(bytes),
{
}

/// Law: the parts of the summary between its commas are the counters, each behind its
/// name.
pub proof fn law_parts_of_the_summary(c: Counters)
    ensures
        fields(summary(c), ',') == seq![
            "conns="@ + decimal(c.total as nat),
            " active="@ + decimal(c.active as nat),
            " failed="@ + decimal(c.failed as nat),
            " up="@ + int_text(kilobytes(c.bytes_up)) + "KB"@,
            " down="@ + int_text(kilobytes(c.bytes_down)) + "KB"@,
        ],
{
    let total = decimal(c.total as nat);
    let active = decimal(c.active as nat);
    let failed = decimal(c.failed as nat);
    let up = int_text(kilobytes(c.bytes_up));
    let down = int_text(kilobytes(c.bytes_down));
    let none = Seq::<char>::empty();
    lemma_decimal(c.total as nat);
    lemma_decimal(c.active as nat);
    lemma_decimal(c.failed as nat);
    lemma_int_text(kilobytes(c.bytes_up));
    lemma_int_text(kilobytes(c.bytes_down));
    lemma_labels();
    lemma_label("conns="@, total, none);
    lemma_label(" active="@, active, none);
    lemma_label(" failed="@, failed, none);
    lemma_label(" up="@, up, "KB"@);
    lemma_label(" down="@, down, "KB"@);
    let p0 = "conns="@ + total;
    let p1 = " active="@ + active;
    let p2 = " failed="@ + failed;
    let p3 = " up="@ + up + "KB"@;
    let p4 = " down="@ + down + "KB"@;
    assert(p0 + none =~= p0);
    assert(p1 + none =~= p1);
    assert(p2 + none =~= p2);
    lemma_regroup(
        "conns="@ + total,
        " active="@,
        active,
        " failed="@,
        failed,
        " up="@,
        up,
        "KB"@,
        " down="@,
        down,
    );
    lemma_five_fields(p0, p1, p2, p3, p4);
}

proof fn lemma_labels()
    ensures
        ", active="@ == seq![','] + " active="@,
        ", failed="@ == seq![','] + " failed="@,
        ", up="@ == seq![','] + " up="@,
        "KB, down="@ == "KB"@ + (seq![','] + " down="@),
        !"conns="@.contains(','),
        !" active="@.contains(','),
        !" failed="@.contains(','),
        !" up="@.contains(','),
        !" down="@.contains(','),
        !"KB"@.contains(','),
{
    reveal_strlit("conns=");
    reveal_strlit(" active=");
    reveal_strlit(" failed=");
    reveal_strlit(" up=");
    reveal_strlit(" down=");
    reveal_strlit("KB");
    reveal_strlit(", active=");
    reveal_strlit(", failed=");
    reveal_strlit(", up=");
    reveal_strlit("KB, down=");
    assert(", active="@ =~= seq![','] + " active="@);
    assert(", failed="@ =~= seq![','] + " failed="@);
    assert(", up="@ =~= seq![','] + " up="@);
    assert("KB, down="@ =~= "KB"@ + (seq![','] + " down="@));
}

proof fn lemma_regroup(
    p0: Seq<char>,
    l1: Seq<char>,
    n1: Seq<char>,
    l2: Seq<char>,
    n2: Seq<char>,
    l3: Seq<char>,
    n3: Seq<char>,
    u: Seq<char>,
    l4: Seq<char>,
    n4: Seq<char>,
)
    ensures
        p0 + (seq![','] + l1) + n1 + (seq![','] + l2) + n2 + (seq![','] + l3) + n3 + (u + (seq![',']
            + l4)) + n4 + u == p0 + seq![','] + ((l1 + n1) + seq![','] + ((l2 + n2) + seq![','] + ((
        l3 + n3 + u) + seq![','] + (l4 + n4 + u)))),
{
    let c = seq![','];
    let a4 = l4 + n4 + u;
    let a3 = (l3 + n3 + u) + c + a4;
    let a2 = (l2 + n2) + c + a3;
    let a1 = (l1 + n1) + c + a2;
    assert(l3 + n3 + (u + (c + l4)) + n4 + u =~= a3);
    assert(l2 + n2 + (c + l3) + n3 + (u + (c + l4)) + n4 + u =~= l2 + n2 + c + (l3 + n3 + (u + (c
        + l4)) + n4 + u));
    assert(l1 + n1 + (c + l2) + n2 + (c + l3) + n3 + (u + (c + l4)) + n4 + u =~= l1 + n1 + c + (l2
        + n2 + (c + l3) + n3 + (u + (c + l4)) + n4 + u));
    assert(p0 + (c + l1) + n1 + (c + l2) + n2 + (c + l3) + n3 + (u + (c + l4)) + n4 + u =~= p0 + c
        + (l1 + n1 + (c + l2) + n2 + (c + l3) + n3 + (u + (c + l4)) + n4 + u));
}

proof fn lemma_five_fields(
    p0: Seq<char>,
    p1: Seq<char>,
    p2: Seq<char>,
    p3: Seq<char>,
    p4: Seq<char>,
)
    requires
        forall|k: int| 0 <= k < p0.len() ==> #[trigger] p0[k] != ',',
        forall|k: int| 0 <= k < p1.len() ==> #[trigger] p1[k] != ',',
        forall|k: int| 0 <= k < p2.len() ==> #[trigger] p2[k] != ',',
        forall|k: int| 0 <= k < p3.len() ==> #[trigger] p3[k] != ',',
        forall|k: int| 0 <= k < p4.len() ==> #[trigger] p4[k] != ',',
    ensures
        fields(p0 + seq![','] + (p1 + seq![','] + (p2 + seq![','] + (p3 + seq![','] + p4))), ',')
            == seq![p0, p1, p2, p3, p4],
{
    let t3 = p3 + seq![','] + p4;
    let t2 = p2 + seq![','] + t3;
    let t1 = p1 + seq![','] + t2;
    lemma_fields_one(p4, ',');
    lemma_fields_cons(p3, ',', p4);
    lemma_fields_cons(p2, ',', t3);
    lemma_fields_cons(p1, ',', t2);
    lemma_fields_cons(p0, ',', t1);
    assert(fields(p0 + seq![','] + t1, ',') =~= seq![p0, p1, p2, p3, p4]);
}

proof fn lemma_int_text(n: int)
    ensures
        forall|k: int| 0 <= k < int_text(n).len() ==> #[trigger] int_text(n)[k] != ',',
{
    if n < 0 {
        lemma_decimal((-n) as nat);
    } else {
        lemma_decimal(n as nat);
    }
}

proof fn lemma_label(label: Seq<char>, number: Seq<char>, unit: Seq<char>)
    requires
        !label.contains(','),
        forall|k: int| 0 <= k < number.len() ==> #[trigger] number[k] != ',',
        !unit.contains(','),
    ensures
        forall|k: int|
            0 <= k < (label + number + unit).len() ==> #[trigger] (label + number + unit)[k] != ',',
{
    let s = label + number + unit;
    let n = label.len() as int;
    assert forall|k: int| 0 <= k < s.len() implies #[trigger] s[k] != ',' by {
        if k < n {
            assert(s[k] == label[k]);
            assert(label.contains(label[k]));
        } else if k < n + number.len() {
            assert(s[k] == number[k - n]);
        } else {
            assert(s[k] == unit[k - n - number.len()]);
            assert(unit.contains(unit[k - n - number.len()]));
        }
    }
}

/// Law: [`Stats::summary_line`] shows every counter behind its name, and the bytes of each
/// direction in whole kilobytes, as [`Stats::bytes_up_kb`] and [`Stats::bytes_down_kb`]
/// give them.
pub proof fn law_summary_line(stats: &Stats, r: String, up: i64, down: i64)
    requires
        call_ensures(Stats::summary_line, (stats,), r),
        call_ensures(Stats::bytes_up_kb, (stats,), up),
        call_ensures(Stats::bytes_down_kb, (stats,), down),
    ensures
        fields(r@, ',') == seq![
            "conns="@ + decimal(stats@.total as nat),
            " active="@ + decimal(stats@.active as nat),
            " failed="@ + decimal(stats@.failed as nat),
            " up="@ + int_text(up as int) + "KB"@,
            " down="@ + int_text(down as int) + "KB"@,
        ],
        stats@.bytes_up >= 0 ==> 1024 * up <= stats@.bytes_up < 1024 * up + 1024,
        stats@.bytes_down >= 0 ==> 1024 * down <= stats@.bytes_down < 1024 * down + 1024,
{
    law_parts_of_the_summary(stats@);
    law_kilobytes_are_whole(stats@.bytes_up);
    law_kilobytes_are_whole(stats@.bytes_down);
}

} // verus!
