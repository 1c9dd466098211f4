use binsubst::decimal::{parse_field, parse_unsigned, trim_end, trim_start};

#[test]
fn a_padded_size_field_gives_its_number() {
    assert_eq!(parse_field(b"123       "), Some(123));
    assert_eq!(parse_field(b"1234567890"), Some(1234567890));
    assert_eq!(parse_field(b"0         "), Some(0));
    assert_eq!(parse_field(b"   42     "), Some(42));
    assert_eq!(parse_field(b"\t7\n"), Some(7));
    assert_eq!(parse_field(b"007"), Some(7));
}

#[test]
fn a_plus_sign_may_lead() {
    assert_eq!(parse_field(b"+15       "), Some(15));
    assert_eq!(parse_unsigned(b"+0"), Some(0));
    assert_eq!(parse_unsigned(b"+"), None);
    assert_eq!(parse_unsigned(b"++1"), None);
    assert_eq!(parse_unsigned(b"1+"), None);
}

#[test]
fn what_is_no_number_gives_nothing() {
    assert_eq!(parse_field(b"          "), None);
    assert_eq!(parse_field(b""), None);
    assert_eq!(parse_field(b"12 34     "), None);
    assert_eq!(parse_field(b"12a       "), None);
    assert_eq!(parse_field(b"-5        "), None);
    assert_eq!(parse_field(b"0x10      "), None);
    assert_eq!(parse_field(b"1.5       "), None);
    assert_eq!(parse_field(b"\xff\xfe12      "), None);
}

#[test]
fn a_number_too_large_for_the_machine_gives_nothing() {
    assert_eq!(parse_unsigned(b"99999999999999999999999999"), None);
    assert_eq!(parse_unsigned(usize::MAX.to_string().as_bytes()), Some(usize::MAX));
    let mut over = usize::MAX.to_string().into_bytes();
    let last = over.len() - 1;
    over[last] += 1;
    assert_eq!(parse_unsigned(&over), None);
}

#[test]
fn white_space_is_what_the_standard_library_trims() {
    let spaces = [
        '\u{9}', '\u{a}', '\u{b}', '\u{c}', '\u{d}', ' ', '\u{85}', '\u{a0}', '\u{1680}', '\u{2000}',
        '\u{2005}', '\u{200a}', '\u{2028}', '\u{2029}', '\u{202f}', '\u{205f}', '\u{3000}',
    ];
    for c in spaces {
        assert!(c.is_whitespace());
        let text = format!("{}12{}", c, c);
        assert_eq!(trim_start(text.as_bytes()), text.trim_start().as_bytes());
        assert_eq!(trim_end(text.as_bytes()), text.trim_end().as_bytes());
        assert_eq!(parse_field(text.as_bytes()), Some(12));
    }
    let others = ['\u{200b}', '\u{84}', '\u{a1}', '\u{180e}', '\u{2007}', '\u{feff}', 'x'];
    for c in others {
        let text = format!("{}12{}", c, c);
        assert_eq!(trim_start(text.as_bytes()), text.trim_start().as_bytes());
        assert_eq!(trim_end(text.as_bytes()), text.trim_end().as_bytes());
        assert_eq!(parse_field(text.as_bytes()), text.trim().parse::<usize>().ok());
    }
}

#[test]
fn trimming_agrees_with_the_standard_library_on_every_short_text() {
    let alphabet = [' ', '\n', '1', '+', 'a', '\u{a0}', '\u{2003}', '\u{e9}'];
    let mut texts = vec![String::new()];
    for _ in 0..4 {
        let mut longer = Vec::new();
        for t in &texts {
            for c in alphabet {
                let mut u = t.clone();
                u.push(c);
                longer.push(u);
            }
        }
        for t in &longer {
            assert_eq!(trim_start(t.as_bytes()), t.trim_start().as_bytes());
            assert_eq!(trim_end(t.as_bytes()), t.trim_end().as_bytes());
            assert_eq!(parse_field(t.as_bytes()), t.trim().parse::<usize>().ok());
        }
        texts = longer;
    }
}
