use calculator::literal::is_number_literal;
use calculator::trim::trim;

fn accepts(text: &str) -> bool {
    is_number_literal(text.as_bytes())
}

#[test]
fn decimal_numbers_are_literals() {
    for text in ["0", "42", "007", "3.14", "5.", ".5", "0.5", "123456789012345678901234567890"] {
        assert!(accepts(text), "{text}");
    }
}

#[test]
fn a_sign_may_lead() {
    for text in ["-3.5", "+3.5", "-.5", "+5.", "-0", "-inf", "+infinity", "-nan", "+NaN"] {
        assert!(accepts(text), "{text}");
    }
}

#[test]
fn an_exponent_may_follow() {
    for text in ["1e3", "1E3", "2.5e10", "2.5e-10", "2.5E+10", "1.e5", ".5e5", "1e0005"] {
        assert!(accepts(text), "{text}");
    }
}

#[test]
fn the_words_are_taken_in_any_case() {
    for text in ["inf", "INF", "Inf", "infinity", "Infinity", "INFINITY", "nan", "NaN", "NAN"] {
        assert!(accepts(text), "{text}");
    }
}

#[test]
fn a_number_needs_a_digit() {
    for text in ["", ".", "-", "+", "-.", "e5", ".e5", "-e5", "+.e1"] {
        assert!(!accepts(text), "{text}");
    }
}

#[test]
fn an_exponent_needs_a_digit() {
    for text in ["1e", "1e+", "1e-", "1E", "1.5e", "1ee5", "1e5e5", "1e5.5", "1e 5"] {
        assert!(!accepts(text), "{text}");
    }
}

#[test]
fn what_is_no_number_is_no_literal() {
    for text in [
        "1.2.3", "1..2", "--1", "+-1", "1-", "1+1", "0x10", "1_000", "1,5", "１", "in", "infinit",
        "infinityy", "na", "nann", "in f", "ｎan",
    ] {
        assert!(!accepts(text), "{text}");
    }
}

#[test]
fn whitespace_is_no_part_of_a_literal() {
    for text in [" 1", "1 ", "1 2", "\t1", "1\n", " inf", "nan "] {
        assert!(!accepts(text), "{text}");
    }
}

fn check_against_the_standard_parser(text: &[u8]) {
    let standard = match std::str::from_utf8(text) {
        Ok(text) => text.parse::<f64>().is_ok(),
        Err(_) => false,
    };
    assert_eq!(
        is_number_literal(text),
        standard,
        "{:?}",
        String::from_utf8_lossy(text)
    );
}

fn check_all(alphabet: &[u8], length: usize, text: &mut Vec<u8>) {
    check_against_the_standard_parser(text);
    if text.len() < length {
        for &byte in alphabet {
            text.push(byte);
            check_all(alphabet, length, text);
            text.pop();
        }
    }
}

#[test]
fn short_numbers_are_literals_as_the_standard_parser_has_them() {
    check_all(b"019.eE+-_ x", 5, &mut Vec::new());
}

#[test]
fn short_words_are_literals_as_the_standard_parser_has_them() {
    check_all(b"infaIN+-1.", 5, &mut Vec::new());
}

#[test]
fn the_long_word_is_a_literal_as_the_standard_parser_has_it() {
    let word = b"infinity";
    for case in 0..256u32 {
        let mut text: Vec<u8> = Vec::new();
        for (i, &letter) in word.iter().enumerate() {
            text.push(if case >> i & 1 == 1 {
                letter.to_ascii_uppercase()
            } else {
                letter
            });
        }
        check_against_the_standard_parser(&text);
        for sign in [b'+', b'-', b' ', b'1'] {
            let mut signed = vec![sign];
            signed.extend_from_slice(&text);
            check_against_the_standard_parser(&signed);
            let mut trailed = text.clone();
            trailed.push(sign);
            check_against_the_standard_parser(&trailed);
        }
        for i in 0..word.len() {
            let mut changed = text.clone();
            changed[i] = b'x';
            check_against_the_standard_parser(&changed);
            let mut shorter = text.clone();
            shorter.remove(i);
            check_against_the_standard_parser(&shorter);
        }
    }
}

#[test]
fn bytes_beyond_ascii_are_no_part_of_a_literal() {
    for byte in 0x80..=0xffu8 {
        assert!(!is_number_literal(&[byte]));
        assert!(!is_number_literal(&[b'1', byte]));
        assert!(!is_number_literal(&[byte, b'1']));
    }
}

#[test]
fn every_single_byte_is_judged_as_the_standard_parser_judges_it() {
    for byte in 0..=0x7fu8 {
        check_against_the_standard_parser(&[byte]);
        check_against_the_standard_parser(&[b'1', byte]);
        check_against_the_standard_parser(&[byte, b'1']);
        check_against_the_standard_parser(&[b'1', byte, b'1']);
        check_against_the_standard_parser(&[b'1', b'e', byte, b'1']);
    }
}

#[test]
fn trimming_takes_whitespace_off_both_ends() {
    assert_eq!(trim(b"  1 + 2\t\r\n"), b"1 + 2");
    assert_eq!(trim(b"\n\n42"), b"42");
    assert_eq!(trim(b"42 "), b"42");
}

#[test]
fn trimming_leaves_other_text_alone() {
    assert_eq!(trim(b"1 + 2"), b"1 + 2");
    assert_eq!(trim(b"x"), b"x");
    assert_eq!(trim(b"\x0c1\x0b"), b"\x0c1\x0b");
}

#[test]
fn trimming_whitespace_leaves_nothing() {
    assert_eq!(trim(b""), b"");
    assert_eq!(trim(b" "), b"");
    assert_eq!(trim(b" \t\r\n "), b"");
}
