use vram_map::text::{is_whitespace, parse_u32, parse_u64, trimmed};

#[test]
fn whitespace_matches_std_for_every_char() {
    for u in 0u32..=0x10ffff {
        if let Some(c) = char::from_u32(u) {
            assert_eq!(is_whitespace(c), c.is_whitespace(), "code point {:#x}", u);
        }
    }
}

#[test]
fn trimmed_matches_std() {
    let samples = [
        "",
        "   ",
        "abc",
        "  abc  ",
        "\t\n 12345 KiB\r\n",
        "\u{3000}x\u{2028}",
        "\u{a0}a b\u{85}",
        " mixed\u{200b}inner ",
    ];
    for s in samples {
        assert_eq!(trimmed(s), s.trim(), "{:?}", s);
    }
}

#[test]
fn parse_u64_matches_std() {
    let samples = [
        "0",
        "42",
        "+42",
        "+",
        "-1",
        "",
        " 1",
        "1 ",
        "00017",
        "18446744073709551615",
        "18446744073709551616",
        "99999999999999999999999",
        "12a",
        "١٢",
        "+-1",
        "++1",
    ];
    for s in samples {
        assert_eq!(parse_u64(s), s.parse::<u64>().ok(), "{:?}", s);
    }
}

#[test]
fn parse_u32_matches_std() {
    let samples = ["0", "4294967295", "4294967296", "1234", "+7", "x", "", "12 "];
    for s in samples {
        assert_eq!(parse_u32(s), s.parse::<u32>().ok(), "{:?}", s);
    }
}
