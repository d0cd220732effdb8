use atproxy::addr::{parse_ipv4, parse_ipv6, push_ipv4};
use atproxy::number::{decimal_string, parse_number, parse_uint, push_int};
use atproxy::text::{
    chars_of, find, find_pair, is_whitespace, split, split_lines, split_words, string_of,
    strip_prefix, trim,
};

const TEXTS: [&str; 14] = [
    "",
    " ",
    "a",
    "a b",
    "  a\t b\u{3000}c ",
    "a,b,,c",
    ",",
    "a\nb\r\nc",
    "a\r\r\nb\n",
    "\n\n",
    "\r\n",
    "a\r",
    "\u{85}x\u{a0}",
    "\u{200b}x\u{1f600}",
];

fn strings(parts: Vec<&[char]>) -> Vec<String> {
    parts.iter().map(|p| string_of(p)).collect()
}

#[test]
fn whitespace_is_what_unicode_says() {
    for n in 0..=0x10ffffu32 {
        if let Some(c) = char::from_u32(n) {
            assert_eq!(is_whitespace(c), c.is_whitespace());
        }
    }
}

#[test]
fn splitting_agrees_with_std() {
    for text in TEXTS {
        let cs = chars_of(text);
        assert_eq!(string_of(&cs), text);
        assert_eq!(strings(split_words(&cs)), text.split_whitespace().collect::<Vec<_>>());
        assert_eq!(strings(split_lines(&cs)), text.lines().collect::<Vec<_>>());
        assert_eq!(strings(split(&cs, ',')), text.split(',').collect::<Vec<_>>());
        assert_eq!(string_of(trim(&cs)), text.trim());
    }
}

#[test]
fn searching_agrees_with_std() {
    for text in TEXTS {
        let cs = chars_of(text);
        assert_eq!(find(&cs, 'b'), text.chars().position(|c| c == 'b'));
        assert_eq!(find_pair(&cs, '\r', '\n').is_some(), text.contains("\r\n"));
        assert_eq!(
            strip_prefix(&cs, "a").map(string_of),
            text.strip_prefix("a").map(String::from)
        );
    }
    assert_eq!(find_pair(&chars_of("a\r\r\nb\r\n"), '\r', '\n'), Some(2));
}

#[test]
fn numbers_are_read_as_std_reads_them() {
    let texts = [
        "0", "7", "007", "+7", "-7", "++7", "+", "", " 7", "7 ", "4294967295", "4294967296",
        "99999999999999999999", "1a", "\u{661}",
    ];
    for text in texts {
        assert_eq!(parse_uint(&chars_of(text), u32::MAX), text.parse::<u32>().ok());
        assert_eq!(
            parse_uint(&chars_of(text), 0xffff),
            text.parse::<u16>().ok().map(u32::from)
        );
        assert_eq!(parse_uint(&chars_of(text), 0xff), text.parse::<u8>().ok().map(u32::from));
    }
    assert_eq!(parse_number(&chars_of("fF0"), 16, 0xffff), Some(0xff0));
}

#[test]
fn numbers_are_written_as_std_writes_them() {
    for n in [0, 1, 9, 10, 99, 100, 12345, u64::MAX] {
        assert_eq!(decimal_string(n), n.to_string());
    }
    for n in [0, -1, 1, i64::MIN, i64::MAX, -10, 10] {
        let mut out = String::from("n=");
        push_int(&mut out, n);
        assert_eq!(out, format!("n={}", n));
    }
}

#[test]
fn decimal_numbers_read_back() {
    for n in [0u32, 5, 10, 65535, u32::MAX] {
        let text = decimal_string(n as u64);
        assert_eq!(parse_uint(&chars_of(&text), u32::MAX), Some(n));
    }
}

#[test]
fn ipv4_forms() {
    assert_eq!(parse_ipv4("1.2.3.4").unwrap().bits, 0x01020304);
    assert_eq!(parse_ipv4("255.255.255.255").unwrap().bits, u32::MAX);
    assert_eq!(parse_ipv4("0.0.0.0").unwrap().bits, 0);
    for bad in ["", "1.2.3", "1.2.3.", ".1.2.3", "1.2.3.4.", "01.2.3.4", "1.2.3.256", "1.2.3.+4",
        "1.2.3.4 ", "1.2.3.0x4", "1..2.3", "1.2.3.0004", "a.b.c.d"]
    {
        assert!(parse_ipv4(bad).is_none(), "{}", bad);
    }
}

#[test]
fn ipv4_text_reads_back() {
    for text in ["0.0.0.0", "10.20.30.40", "255.0.255.1", "127.0.0.1"] {
        let mut out = String::new();
        push_ipv4(&mut out, parse_ipv4(text).unwrap());
        assert_eq!(out, text);
    }
}

fn octets(groups: [u16; 8]) -> [u8; 16] {
    let mut out = [0u8; 16];
    for i in 0..8 {
        out[2 * i] = (groups[i] >> 8) as u8;
        out[2 * i + 1] = groups[i] as u8;
    }
    out
}

#[test]
fn ipv6_forms() {
    let cases = [
        ("::", [0; 8]),
        ("::1", [0, 0, 0, 0, 0, 0, 0, 1]),
        ("1::", [1, 0, 0, 0, 0, 0, 0, 0]),
        ("1:2:3:4:5:6:7:8", [1, 2, 3, 4, 5, 6, 7, 8]),
        ("1:2:3:4:5:6:7::", [1, 2, 3, 4, 5, 6, 7, 0]),
        ("::2:3:4:5:6:7:8", [0, 2, 3, 4, 5, 6, 7, 8]),
        ("fe80::AbCd", [0xfe80, 0, 0, 0, 0, 0, 0, 0xabcd]),
        ("2001:db8::7:8", [0x2001, 0xdb8, 0, 0, 0, 0, 7, 8]),
        ("::ffff:1.2.3.4", [0, 0, 0, 0, 0, 0xffff, 0x102, 0x304]),
        ("::1.2.3.4", [0, 0, 0, 0, 0, 0, 0x102, 0x304]),
        ("1:2:3:4:5:6:7.8.9.10", [1, 2, 3, 4, 5, 6, 0x708, 0x90a]),
        ("0001::0", [1, 0, 0, 0, 0, 0, 0, 0]),
    ];
    for (text, groups) in cases {
        let got = parse_ipv6(text).map(|a| a.octets);
        assert_eq!(got, Some(octets(groups)), "{}", text);
    }
    for bad in ["", ":", ":::", "1", "1:2:3:4:5:6:7", "1:2:3:4:5:6:7:8:9", "1::2::3", "12345::",
        "::g", "::1.2.3", "1.2.3.4", "1.2.3.4::", "1:2:3:4:5:6:7:1.2.3.4", "::1:", ":1::", "::1%0",
        "[::1]", " ::1", "1:2:3:4::5:6:7:8", "::1:2:3:4:5:6:7:8", "00001::"]
    {
        assert!(parse_ipv6(bad).is_none(), "{}", bad);
    }
}
