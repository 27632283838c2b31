use pet_records::text::{decimal, eq_ignore_ascii_case, parse_u8, trim};

#[test]
fn trim_removes_surrounding_whitespace() {
    assert_eq!(trim("  Rex  "), "Rex");
    assert_eq!(trim("Rex\n"), "Rex");
    assert_eq!(trim("Rex\r\n"), "Rex");
    assert_eq!(trim("\t Rex"), "Rex");
}

#[test]
fn trim_keeps_inner_whitespace() {
    assert_eq!(trim("  Guinea  pig \n"), "Guinea  pig");
}

#[test]
fn trim_of_whitespace_only_is_empty() {
    assert_eq!(trim("   "), "");
    assert_eq!(trim("\n"), "");
    assert_eq!(trim(" \t\r\n\u{3000}"), "");
    assert_eq!(trim(""), "");
}

#[test]
fn trim_leaves_trimmed_text_alone() {
    assert_eq!(trim("Rex"), "Rex");
    assert_eq!(trim("x"), "x");
}

#[test]
fn trim_is_idempotent() {
    for s in ["  Rex  ", "", " ", "a b", "\u{2003}Zo\u{eb} \u{85}"] {
        assert_eq!(trim(trim(s)), trim(s));
    }
}

#[test]
fn trim_handles_text_beyond_ascii() {
    assert_eq!(trim("\u{a0}\u{2003}Zo\u{eb}\u{2028}"), "Zo\u{eb}");
    assert_eq!(trim(" \u{1f408} "), "\u{1f408}");
}

#[test]
fn trim_does_not_take_lookalikes_for_whitespace() {
    // A zero-width space, a byte-order mark and a Mongolian vowel separator
    // are not whitespace.
    assert_eq!(trim("\u{200b}a"), "\u{200b}a");
    assert_eq!(trim("a\u{feff}"), "a\u{feff}");
    assert_eq!(trim("\u{180e}"), "\u{180e}");
}

#[test]
fn trim_agrees_with_std_on_every_character() {
    let mut c = '\0';
    loop {
        let s = format!("{}x {}", c, c);
        assert_eq!(trim(&s), s.trim(), "character {:?}", c);
        let alone = c.to_string();
        assert_eq!(trim(&alone).is_empty(), c.is_whitespace(), "character {:?}", c);
        if c == char::MAX {
            break;
        }
        c = match char::from_u32(c as u32 + 1) {
            Some(next) => next,
            None => '\u{e000}',
        };
    }
}

#[test]
fn eq_ignore_ascii_case_examples() {
    assert!(eq_ignore_ascii_case("no", "NO"));
    assert!(eq_ignore_ascii_case("Ferris", "FERRIS"));
    assert!(eq_ignore_ascii_case("", ""));
    assert!(!eq_ignore_ascii_case("no", "nope"));
    assert!(!eq_ignore_ascii_case("no", "on"));
    assert!(!eq_ignore_ascii_case("no", ""));
}

#[test]
fn eq_ignore_ascii_case_only_folds_letters() {
    // These pairs lie 32 apart as the two cases of a letter do.
    assert!(!eq_ignore_ascii_case("@", "`"));
    assert!(!eq_ignore_ascii_case("[", "{"));
    assert!(!eq_ignore_ascii_case("0", "P"));
    assert!(!eq_ignore_ascii_case("\u{e9}", "\u{c9}"));
    // The Kelvin sign is no ASCII letter.
    assert!(!eq_ignore_ascii_case("\u{212a}", "k"));
    assert!(eq_ignore_ascii_case("\u{e9}t\u{e9}", "\u{e9}T\u{e9}"));
}

#[test]
fn eq_ignore_ascii_case_agrees_with_std_on_ascii_pairs() {
    for a in 0u8..128 {
        for b in 0u8..128 {
            let x = (a as char).to_string();
            let y = (b as char).to_string();
            assert_eq!(eq_ignore_ascii_case(&x, &y), x.eq_ignore_ascii_case(&y), "{:?} {:?}", x, y);
        }
    }
}

#[test]
fn parse_u8_reads_numbers() {
    assert_eq!(parse_u8("7"), Some(7));
    assert_eq!(parse_u8("0"), Some(0));
    assert_eq!(parse_u8("255"), Some(255));
    assert_eq!(parse_u8("42"), Some(42));
}

#[test]
fn parse_u8_allows_a_plus_sign_and_zeros_in_front() {
    assert_eq!(parse_u8("+7"), Some(7));
    assert_eq!(parse_u8("007"), Some(7));
    assert_eq!(parse_u8("+000255"), Some(255));
    assert_eq!(parse_u8("0000000000000000000000000000000000000001"), Some(1));
}

#[test]
fn parse_u8_refuses_numbers_above_255() {
    assert_eq!(parse_u8("256"), None);
    assert_eq!(parse_u8("260"), None);
    assert_eq!(parse_u8("1000"), None);
    assert_eq!(parse_u8("99999999999999999999999999999999999999"), None);
}

#[test]
fn parse_u8_refuses_what_is_no_whole_number() {
    assert_eq!(parse_u8("7.0"), None);
    assert_eq!(parse_u8("7x"), None);
    assert_eq!(parse_u8("x7"), None);
    assert_eq!(parse_u8("-1"), None);
    assert_eq!(parse_u8("-0"), None);
    assert_eq!(parse_u8(""), None);
    assert_eq!(parse_u8("+"), None);
    assert_eq!(parse_u8("++7"), None);
    assert_eq!(parse_u8("7+"), None);
    assert_eq!(parse_u8("1_0"), None);
    assert_eq!(parse_u8(" 7"), None);
    assert_eq!(parse_u8("7 "), None);
    assert_eq!(parse_u8("0x7"), None);
    assert_eq!(parse_u8("\u{663}"), None);
    assert_eq!(parse_u8("\u{ff17}"), None);
}

#[test]
fn parse_u8_agrees_with_std() {
    let samples = [
        "", "+", "-", "0", "+0", "-0", "7", "+7", "-7", "07", "255", "256", "0255", "2550", "300",
        "999", "1e2", "12a", "a12", " 12", "12 ", "1 2", "١٢", "٣", "+-1", "25\u{0}", "0000",
    ];
    for s in samples {
        assert_eq!(parse_u8(s), s.parse::<u8>().ok(), "text {:?}", s);
    }
    for n in 0u32..2000 {
        let s = n.to_string();
        assert_eq!(parse_u8(&s), s.parse::<u8>().ok(), "text {:?}", s);
    }
}

#[test]
fn decimal_writes_numbers() {
    assert_eq!(decimal(0), "0");
    assert_eq!(decimal(3), "3");
    assert_eq!(decimal(9), "9");
    assert_eq!(decimal(10), "10");
    assert_eq!(decimal(99), "99");
    assert_eq!(decimal(100), "100");
    assert_eq!(decimal(105), "105");
    assert_eq!(decimal(255), "255");
}

#[test]
fn decimal_agrees_with_std_and_reads_back() {
    for n in 0u8..=255 {
        let s = decimal(n);
        assert_eq!(s, n.to_string());
        assert_eq!(parse_u8(&s), Some(n));
    }
}
