//! Numbers in text: digits to values and values to digits.
use vstd::prelude::*;
use vstd::slice::slice_subrange;

verus! {

/// The value of `c` as a digit of a number of radix up to sixteen; a character
/// that is no such digit has the value 99.
pub open spec fn digit_of(c: char) -> nat {
    if '0' <= c <= '9' {
        (c as int - '0' as int) as nat
    } else if 'a' <= c <= 'f' {
        (c as int - 'a' as int + 10) as nat
    } else if 'A' <= c <= 'F' {
        (c as int - 'A' as int + 10) as nat
    } else {
        99
    }
}

/// Whether `s` is a non-empty run of digits of the radix.
pub open spec fn is_number(s: Seq<char>, radix: nat) -> bool {
    &&& s.len() > 0
    &&& forall|i: int| 0 <= i < s.len() ==> #[trigger] digit_of(s[i]) < radix
}

/// The number that a run of digits writes, most significant digit first.
pub open spec fn number_value(s: Seq<char>, radix: nat) -> nat
    decreases s.len(),
{
    if s.len() == 0 {
        0
    } else {
        number_value(s.drop_last(), radix) * radix + digit_of(s.last())
    }
}

/// `s` without one leading plus sign.
pub open spec fn without_plus(s: Seq<char>) -> Seq<char> {
    if s.len() > 0 && s[0] == '+' {
        s.drop_first()
    } else {
        s
    }
}

/// The number that `s` writes in decimal: digits behind an optional plus sign,
/// and nothing else.
pub open spec fn uint_value(s: Seq<char>) -> Option<nat> {
    let digits = without_plus(s);
    if is_number(digits, 10) {
        Some(number_value(digits, 10))
    } else {
        None
    }
}

/// The number that `s` writes in decimal, if it is at most `max`.
pub open spec fn uint_up_to(s: Seq<char>, max: nat) -> Option<nat> {
    match uint_value(s) {
        Some(n) => if n <= max {
            Some(n)
        } else {
            None
        },
        None => None,
    }
}

/// The number in an option.
pub open spec fn opt_nat(o: Option<u32>) -> Option<nat> {
    match o {
        Some(n) => Some(n as nat),
        None => None,
    }
}

/// The decimal digit with value `d`.
pub open spec fn digit_char(d: nat) -> char {
    (d + '0' as nat) as char
}

/// The decimal text of `n`, without sign or leading zeros.
pub open spec fn decimal(n: nat) -> Seq<char>
    decreases n,
{
    if n < 10 {
        seq![digit_char(n)]
    } else {
        decimal(n / 10).push(digit_char(n % 10))
    }
}

/// The decimal text of an integer, with a minus sign where it is negative.
pub open spec fn int_text(n: int) -> Seq<char> {
    if n < 0 {
        seq!['-'] + decimal((-n) as nat)
    } else {
        decimal(n as nat)
    }
}

/// A longer run of digits writes a number at least as large.
pub proof fn lemma_number_value_monotone(s: Seq<char>, n: int, radix: nat)
    requires
        0 <= n <= s.len(),
        radix > 0,
    ensures
        number_value(s.take(n), radix) <= number_value(s, radix),
    decreases s.len(),
{
    if n == s.len() {
        assert(s.take(n) =~= s);
    } else {
        lemma_number_value_monotone(s.drop_last(), n, radix);
        assert(s.drop_last().take(n) =~= s.take(n));
        let v = number_value(s.drop_last(), radix);
        assert(v <= v * radix) by (nonlinear_arith)
            requires
                radix > 0,
        ;
    }
}

/// The decimal text of a number is a run of digits, with no leading plus sign,
/// that writes the number.
pub proof fn lemma_decimal(n: nat)
    ensures
        is_number(decimal(n), 10),
        number_value(decimal(n), 10) == n,
        decimal(n)[0] != '+',
        forall|i: int| 0 <= i < decimal(n).len() ==> '0' <= #[trigger] decimal(n)[i] <= '9',
        n > 0 ==> decimal(n)[0] != '0',
    decreases n,
{
    if n < 10 {
        assert(digit_of(digit_char(n)) == n);
        let d = decimal(n);
        assert(d.drop_last() =~= seq![]);
        assert(number_value(d.drop_last(), 10) == 0);
    } else {
        lemma_decimal(n / 10);
        let d = decimal(n);
        let e = decimal(n / 10);
        assert(d.drop_last() =~= e);
        assert(digit_of(digit_char(n % 10)) == n % 10);
        assert forall|i: int| 0 <= i < d.len() implies #[trigger] digit_of(d[i]) < 10 by {
            if i < e.len() {
                assert(d[i] == e[i]);
                assert(digit_of(e[i]) < 10);
            }
        }
    }
}

/// Law: reading the decimal text of a number gives the number back.
pub proof fn law_decimal_reads_back(n: nat)
    ensures
        uint_value(decimal(n)) == Some(n),
{
    lemma_decimal(n);
}

/// Law: two numbers with the same decimal text are the same number.
pub proof fn law_decimal_injective(a: nat, b: nat)
    requires
        decimal(a) == decimal(b),
    ensures
        a == b,
{
    lemma_decimal(a);
    lemma_decimal(b);
}

/// The value of `c` as a digit, and 99 where it is none.
pub fn digit(c: char) -> (r: u32)
    ensures
        r == digit_of(c),
{
    if '0' <= c && c <= '9' {
        c as u32 - 48
    } else if 'a' <= c && c <= 'f' {
        c as u32 - 87
    } else if 'A' <= c && c <= 'F' {
        c as u32 - 55
    } else {
        99
    }
}

/// The number that the digits write, where they are digits of the radix and the
/// number is at most `max`.
pub fn parse_number(s: &[char], radix: u32, max: u32) -> (r: Option<u32>)
    requires
        2 <= radix <= 16,
    ensures
        r matches Some(n) ==> is_number(s@, radix as nat) && number_value(s@, radix as nat) == n
            && n <= max,
        r is None ==> !(is_number(s@, radix as nat) && number_value(s@, radix as nat) <= max),
{
    if s.len() == 0 {
        return None;
    }
    let mut value: u32 = 0;
    let mut i: usize = 0;
    while i < s.len()
        invariant
            2 <= radix <= 16,
            i <= s@.len(),
            value <= max,
            value == number_value(s@.take(i as int), radix as nat),
            forall|k: int| 0 <= k < i ==> #[trigger] digit_of(s@[k]) < radix,
        decreases s@.len() - i,
    {
        let d = digit(s[i]);
        if d >= radix {
            assert(digit_of(s@[i as int]) >= radix);
            return None;
        }
        assert(value as u64 * radix as u64 <= 0xffff_ffff * 16) by (nonlinear_arith)
            requires
                value <= 0xffff_ffff,
                radix <= 16,
        ;
        let next: u64 = value as u64 * radix as u64 + d as u64;
        proof {
            assert(s@.take(i + 1).drop_last() =~= s@.take(i as int));
            assert(next == number_value(s@.take(i + 1), radix as nat));
        }
        if next > max as u64 {
            proof {
                lemma_number_value_monotone(s@, i + 1, radix as nat);
            }
            return None;
        }
        value = next as u32;
        i += 1;
    }
    assert(s@.take(i as int) =~= s@);
    Some(value)
}

/// The number that `s` writes in decimal behind an optional plus sign, where it
/// is at most `max`.
pub fn parse_uint(s: &[char], max: u32) -> (r: Option<u32>)
    ensures
        opt_nat(r) == uint_up_to(s@, max as nat),
{
    let digits = if s.len() > 0 && s[0] == '+' {
        slice_subrange(s, 1, s.len())
    } else {
        s
    };
    assert(digits@ =~= without_plus(s@));
    parse_number(digits, 10, max)
}

/// Appends the decimal text of `n`.
pub fn push_decimal(out: &mut String, n: u64)
    ensures
        final(out)@ == old(out)@ + decimal(n as nat),
    decreases n,
{
    if n >= 10 {
        push_decimal(out, n / 10);
    }
    let d: u8 = (n % 10) as u8;
    out.push((48 + d) as char);
    assert(out@ =~= old(out)@ + decimal(n as nat));
}

/// The decimal text of `n`.
pub fn decimal_string(n: u64) -> (r: String)
    ensures
        r@ == decimal(n as nat),
{
    let mut out = String::new();
    push_decimal(&mut out, n);
    assert(out@ =~= decimal(n as nat));
    out
}

/// Appends the decimal text of a signed number.
pub fn push_int(out: &mut String, n: i64)
    ensures
        final(out)@ == old(out)@ + int_text(n as int),
{
    if n < 0 {
        out.push('-');
        let magnitude: u64 = (-(n + 1)) as u64 + 1;
        push_decimal(out, magnitude);
        assert(out@ =~= old(out)@ + int_text(n as int));
    } else {
        push_decimal(out, n as u64);
    }
}

/// Law: a number is read up to the given limit and refused above it.
pub proof fn law_limit_of_numbers(n: nat, max: nat)
    ensures
        uint_up_to(decimal(n), max) == (if n <= max {
            Some(n)
        } else {
            None
        }),
{
    law_decimal_reads_back(n);
}

proof fn lemma_leading_zero(s: Seq<char>, radix: nat)
    ensures
        number_value(seq!['0'] + s, radix) == number_value(s, radix),
    decreases s.len(),
{
    let t = seq!['0'] + s;
    if s.len() == 0 {
        assert(t.drop_last() =~= s);
        assert(number_value(t.drop_last(), radix) == 0);
        assert(0 * radix == 0);
    } else {
        assert(t.drop_last() =~= seq!['0'] + s.drop_last());
        assert(t.last() == s.last());
        lemma_leading_zero(s.drop_last(), radix);
    }
}

/// Law: a plus sign in front of a number, and zeros in front of its digits, do not
/// change it.
pub proof fn law_plus_and_zeros(n: nat, zeros: nat, max: nat)
    ensures
        uint_up_to(Seq::new(zeros, |k: int| '0') + decimal(n), max) == uint_up_to(decimal(n), max),
        uint_up_to(seq!['+'] + Seq::new(zeros, |k: int| '0') + decimal(n), max) == uint_up_to(
            decimal(n),
            max,
        ),
    decreases zeros,
{
    lemma_decimal(n);
    let z = Seq::new(zeros, |k: int| '0');
    let s = z + decimal(n);
    let p = seq!['+'] + z + decimal(n);
    assert(p.drop_first() =~= s);
    if zeros == 0 {
        assert(s =~= decimal(n));
    } else {
        let fewer = (zeros - 1) as nat;
        let t = Seq::new(fewer, |k: int| '0') + decimal(n);
        law_plus_and_zeros(n, fewer, max);
        assert(s =~= seq!['0'] + t);
        lemma_leading_zero(t, 10);
        lemma_zeros_are_digits(n, zeros);
        lemma_zeros_are_digits(n, fewer);
    }
    lemma_zeros_are_digits(n, zeros);
}

proof fn lemma_zeros_are_digits(n: nat, zeros: nat)
    ensures
        is_number(Seq::new(zeros, |k: int| '0') + decimal(n), 10),
        (Seq::new(zeros, |k: int| '0') + decimal(n))[0] != '+',
{
    lemma_decimal(n);
    let s = Seq::new(zeros, |k: int| '0') + decimal(n);
    assert forall|i: int| 0 <= i < s.len() implies #[trigger] digit_of(s[i]) < 10 by {
        if i >= zeros {
            assert(s[i] == decimal(n)[i - zeros]);
        }
    }
    if zeros == 0 {
        assert(s[0] == decimal(n)[0]);
    }
}

/// Law: a text with anything but decimal digits behind an optional plus sign is no
/// number, nor is one without a digit.
pub proof fn law_only_digits_are_numbers(s: Seq<char>, max: nat)
    ensures
        uint_up_to(s, max) is Some ==> {
            &&& s.len() > 0
            &&& s[0] == '+' ==> s.len() > 1
            &&& forall|k: int|
                0 <= k < s.len() ==> '0' <= #[trigger] s[k] <= '9' || (k == 0 && s[k] == '+')
            &&& uint_up_to(s, max)->0 <= max
        },
{
    if uint_up_to(s, max) is Some {
        let d = without_plus(s);
        assert forall|k: int| 0 <= k < s.len() implies '0' <= #[trigger] s[k] <= '9' || (k == 0
            && s[k] == '+') by {
            if s[0] != '+' {
                assert(digit_of(d[k]) < 10);
            } else if k > 0 {
                assert(d[k - 1] == s[k]);
                assert(digit_of(d[k - 1]) < 10);
            }
        }
    }
}

/// A run of decimal digits without a leading zero is the decimal text of the number
/// that it writes.
pub proof fn lemma_digits_are_decimal(s: Seq<char>)
    requires
        is_number(s, 10),
        s.len() == 1 || s[0] != '0',
    ensures
        s == decimal(number_value(s, 10)),
    decreases s.len(),
{
    let front = s.drop_last();
    let c = s.last();
    assert(digit_of(s[s.len() - 1]) < 10);
    assert('0' <= c <= '9');
    assert(digit_char(digit_of(c)) == c);
    if s.len() == 1 {
        assert(number_value(front, 10) == 0);
        assert(s =~= seq![c]);
    } else {
        assert forall|i: int| 0 <= i < front.len() implies #[trigger] digit_of(front[i]) < 10 by {
            assert(front[i] == s[i]);
            assert(digit_of(s[i]) < 10);
        }
        assert(front[0] == s[0]);
        lemma_digits_are_decimal(front);
        let u = number_value(front, 10);
        if u == 0 {
            assert(decimal(0)[0] == digit_char(0));
            assert(digit_char(0) == '0');
        }
        let v = number_value(s, 10);
        assert(v == u * 10 + digit_of(c));
        assert(v / 10 == u && v % 10 == digit_of(c));
        assert(s =~= front.push(c));
    }
}

/// The hexadecimal digit with value `d`, in lower case.
pub open spec fn hex_char(d: nat) -> char {
    if d < 10 {
        (d + '0' as nat) as char
    } else {
        (d - 10 + 'a' as nat) as char
    }
}

/// The hexadecimal text of `n`, in lower case and without leading zeros.
pub open spec fn hex_text(n: nat) -> Seq<char>
    decreases n,
{
    if n < 16 {
        seq![hex_char(n)]
    } else {
        hex_text(n / 16).push(hex_char(n % 16))
    }
}

/// Law: reading the hexadecimal text of a number gives the number back. The text of
/// a number below 65536 has at most four digits.
pub proof fn law_hex_reads_back(n: nat)
    ensures
        is_number(hex_text(n), 16),
        number_value(hex_text(n), 16) == n,
        n < 0x10 ==> hex_text(n).len() == 1,
        n < 0x100 ==> hex_text(n).len() <= 2,
        n < 0x1000 ==> hex_text(n).len() <= 3,
        n < 0x1_0000 ==> hex_text(n).len() <= 4,
    decreases n,
{
    if n < 16 {
        let d = hex_text(n);
        assert(digit_of(hex_char(n)) == n);
        assert(d.drop_last() =~= seq![]);
        assert(number_value(d.drop_last(), 16) == 0);
    } else {
        law_hex_reads_back(n / 16);
        let d = hex_text(n);
        let e = hex_text(n / 16);
        assert(d.drop_last() =~= e);
        assert(digit_of(hex_char(n % 16)) == n % 16);
        assert forall|i: int| 0 <= i < d.len() implies #[trigger] digit_of(d[i]) < 16 by {
            if i < e.len() {
                assert(d[i] == e[i]);
                assert(digit_of(e[i]) < 16);
            }
        }
    }
}

/// Law: upper and lower case make no difference to a hexadecimal digit.
pub proof fn law_case_of_hex_digits(d: nat)
    requires
        10 <= d < 16,
    ensures
        digit_of((d - 10 + 'A' as nat) as char) == d,
        digit_of((d - 10 + 'a' as nat) as char) == d,
{
}

/// Law: the digits of a decimal text, one by one, are those of the number: the last
/// one is the number modulo ten, and what stands in front of it is the text of the
/// tenth. An integer below zero is written as its negative behind a minus sign.
pub proof fn law_decimal_digits(n: nat, d: nat)
    requires
        d < 10,
    ensures
        decimal(d).len() == 1,
        decimal(d)[0] as int == '0' as int + d,
        n > 0 ==> decimal(10 * n + d) == decimal(n) + decimal(d),
        int_text(n as int) == decimal(n),
        n > 0 ==> int_text(-n) == seq!['-'] + decimal(n),
{
    if n > 0 {
        let v = 10 * n + d;
        assert(v / 10 == n && v % 10 == d);
        assert(decimal(v) =~= decimal(n) + decimal(d));
    }
}

/// Law: [`parse_uint`] reads back what [`decimal_string`] writes, up to the limit, and
/// nothing of a text that holds anything but digits behind an optional plus sign.
pub proof fn law_parse_uint(n: u64, text: String, s: &[char], max: u32, r: Option<u32>)
    requires
        call_ensures(decimal_string, (n,), text),
        call_ensures(parse_uint, (s, max), r),
    ensures
        s@ == text@ && n <= max ==> r == Some(n as u32),
        s@ == text@ && n > max ==> r is None,
        s@.len() == 0 ==> r is None,
        (exists|k: int|
            0 <= k < s@.len() && !('0' <= #[trigger] s@[k] <= '9') && (k == 0 ==> s@[k] != '+'))
            ==> r is None,
{
    law_decimal_reads_back(n as nat);
    law_only_digits_are_numbers(s@, max as nat);
}

} // verus!
