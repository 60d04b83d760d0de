use osu_tourney_data_reader::text::{
    chars_of, contains, int_to_string, is_whitespace, parse_hex_u8, parse_i32, parse_usize,
    split_whitespace, starts_with, trim, usize_to_string,
};

fn cs(s: &str) -> Vec<char> {
    s.chars().collect()
}

#[test]
fn whitespace_matches_std() {
    for c in [' ', '\t', '\n', '\u{85}', '\u{a0}', '\u{2003}', '\u{3000}', 'a', '0', '\u{200b}'] {
        assert_eq!(is_whitespace(c), c.is_whitespace(), "{:?}", c);
    }
}

#[test]
fn split_whitespace_matches_std() {
    for s in ["", "  ", "a", " 8B  0D\t?? \n", "x\u{3000}y", "ab cd ef"] {
        let got: Vec<String> = split_whitespace(&cs(s)).into_iter().map(|w| w.into_iter().collect()).collect();
        let want: Vec<String> = s.split_whitespace().map(|w| w.to_string()).collect();
        assert_eq!(got, want, "{:?}", s);
    }
}

#[test]
fn trim_matches_std() {
    for s in ["", "   ", " a b ", "\u{a0}x\t", "x"] {
        let got: String = trim(&cs(s)).into_iter().collect();
        assert_eq!(got, s.trim());
    }
}

#[test]
fn contains_and_starts_with() {
    assert!(contains(&cs("Tournament Client 3"), &cs("Client")));
    assert!(!contains(&cs("Tourney"), &cs("Tournament")));
    assert!(contains(&cs("abc"), &cs("")));
    assert!(!contains(&cs("ab"), &cs("abc")));
    assert!(starts_with(&cs("GDI+ Window (osu!)"), &cs("GDI+ Window")));
    assert!(!starts_with(&cs("GDI"), &cs("GDI+ Window")));
}

#[test]
fn hex_bytes_parse_like_from_str_radix() {
    for s in ["8B", "0d", "ff", "+ff", "100", "", "+", "-1", "zz", "00ff", "1g"] {
        assert_eq!(parse_hex_u8(&cs(s)), u8::from_str_radix(s, 16).ok(), "{:?}", s);
    }
}

#[test]
fn i32_parse_like_std() {
    for s in ["0", "12", "-12", "+7", "-", "+", "", "2147483647", "2147483648", "-2147483648", "-2147483649", "1 2", "٣"] {
        assert_eq!(parse_i32(&cs(s)), s.parse::<i32>().ok(), "{:?}", s);
    }
}

#[test]
fn usize_parse_like_std() {
    for s in ["0", "1024", "+5", "", "-1", "18446744073709551615", "18446744073709551616"] {
        assert_eq!(parse_usize(&cs(s), 10), s.parse::<usize>().ok(), "{:?}", s);
    }
    for s in ["400", "FF", "+a", "ffffffffffffffff", "10000000000000000", "g"] {
        assert_eq!(parse_usize(&cs(s), 16), usize::from_str_radix(s, 16).ok(), "{:?}", s);
    }
}

#[test]
fn decimal_rendering() {
    assert_eq!(int_to_string(0), "0");
    assert_eq!(int_to_string(-45), "-45");
    assert_eq!(int_to_string(i64::MIN), i64::MIN.to_string());
    assert_eq!(usize_to_string(1024), "1024");
}

#[test]
fn chars_of_keeps_order() {
    assert_eq!(chars_of("héllo"), vec!['h', 'é', 'l', 'l', 'o']);
}
