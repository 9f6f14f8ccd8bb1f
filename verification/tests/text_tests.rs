use game_slave::text::{chars_contain, decimal_chars, hex_address, is_white_space, parse_u64, trim_chars};

fn chars(s: &str) -> Vec<char> {
    s.chars().collect()
}

#[test]
fn hex_address_is_zero_padded_lower_case() {
    assert_eq!(hex_address(0), "0x0000000000000000");
    assert_eq!(hex_address(0xDEAD_BEEF), "0x00000000deadbeef");
    assert_eq!(hex_address(u64::MAX), "0xffffffffffffffff");
    assert_eq!(hex_address(0x1234), format!("{:#018x}", 0x1234u64));
}

#[test]
fn decimal_digits() {
    assert_eq!(decimal_chars(0), chars("0"));
    assert_eq!(decimal_chars(1234), chars("1234"));
    assert_eq!(decimal_chars(u64::MAX), chars("18446744073709551615"));
}

#[test]
fn parse_accepts_what_std_accepts() {
    for s in ["0", "42", "+7", "007", "18446744073709551615", "", "+", "-1", "-0", "1a", " 1", "18446744073709551616", "٣"] {
        assert_eq!(parse_u64(&chars(s)), s.parse::<u64>().ok(), "input {:?}", s);
    }
}

#[test]
fn trim_removes_white_space_at_both_ends() {
    for s in ["  12 ", "\t\n x y \u{3000}", "", "   ", "abc"] {
        assert_eq!(trim_chars(s), chars(s.trim()));
    }
}

#[test]
fn contain_finds_substrings() {
    assert!(chars_contain(&chars("notepad.exe"), &chars("pad")));
    assert!(chars_contain(&chars("abc"), &chars("")));
    assert!(!chars_contain(&chars("abc"), &chars("abcd")));
    assert!(!chars_contain(&chars("abc"), &chars("bd")));
}

#[test]
fn white_space_is_exactly_the_listed_code_points() {
    let listed = |n: u32| {
        (0x09..=0x0D).contains(&n)
            || n == 0x20
            || n == 0x85
            || n == 0xA0
            || n == 0x1680
            || (0x2000..=0x200A).contains(&n)
            || n == 0x2028
            || n == 0x2029
            || n == 0x202F
            || n == 0x205F
            || n == 0x3000
    };
    for n in 0..=0x10FFFFu32 {
        if let Some(c) = char::from_u32(n) {
            assert_eq!(is_white_space(c), listed(n), "code point {:#x}", n);
        }
    }
}
