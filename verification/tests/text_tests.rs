use rlibs::text::{chars_of, parse_i32_chars, push_decimal, push_signed_decimal, trim, white_space};

#[test]
fn chars_of_keeps_every_character() {
    assert_eq!(chars_of("añ b"), vec!['a', 'ñ', ' ', 'b']);
    assert_eq!(chars_of(""), Vec::<char>::new());
}

#[test]
fn white_space_matches_std() {
    for code in 0u32..0x3100 {
        if let Some(c) = char::from_u32(code) {
            assert_eq!(white_space(c), c.is_whitespace(), "code point {:x}", code);
        }
    }
}

#[test]
fn trim_matches_std() {
    let samples = ["", "   ", " a ", "\t\nab c\r\n", "x", "\u{2003}y\u{2029}", "a  b"];
    for s in samples.iter() {
        let t: String = trim(&chars_of(s)).into_iter().collect();
        assert_eq!(t, s.trim());
    }
}

#[test]
fn decimal_rendering() {
    let mut s = String::from("n=");
    push_decimal(&mut s, 0);
    assert_eq!(s, "n=0");
    let mut s = String::new();
    push_decimal(&mut s, 18446744073709551615);
    assert_eq!(s, "18446744073709551615");
    for v in [-2147483648i32, -1, 0, 7, 1833, 2147483647].iter() {
        let mut s = String::new();
        push_signed_decimal(&mut s, *v);
        assert_eq!(s, v.to_string());
    }
}

#[test]
fn parse_i32_matches_std() {
    let samples = [
        "0", "+0", "-0", "123", "-123", "+", "-", "", "2147483647", "2147483648", "-2147483648",
        "-2147483649", "12345678901234567890", "1a", "a1", " 1",
    ];
    for s in samples.iter() {
        assert_eq!(parse_i32_chars(&chars_of(s)), s.parse::<i32>().ok(), "input {:?}", s);
    }
}
