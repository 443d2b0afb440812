use vortex_vm::instruction::Instruction;
use vortex_vm::spliter::split_instructions;
use vortex_vm::text::{
    chars_of, is_address, is_whitespace, parse_i32_chars, push_decimal, split_lines, split_words,
    target_address, trimmed,
};

fn chars(s: &str) -> Vec<char> {
    s.chars().collect()
}

#[test]
fn unicode_white_space_is_recognised() {
    for c in ['\t', '\n', '\u{0B}', '\u{0C}', '\r', ' ', '\u{85}', '\u{A0}', '\u{1680}', '\u{2000}', '\u{200A}', '\u{2028}', '\u{2029}', '\u{202F}', '\u{205F}', '\u{3000}'] {
        assert!(is_whitespace(c), "{:?}", c);
        assert_eq!(is_whitespace(c), c.is_whitespace());
    }
    for c in ['a', '0', ';', '\u{200B}', '\u{180E}', '\0'] {
        assert!(!is_whitespace(c), "{:?}", c);
        assert_eq!(is_whitespace(c), c.is_whitespace());
    }
}

#[test]
fn trimming_drops_white_space_at_both_ends() {
    let s = chars("\u{3000} a b \t");
    assert_eq!(trimmed(&s, 0, s.len()), chars("a b"));
    assert_eq!(trimmed(&s, 1, 3), chars("a"));
    assert_eq!(trimmed(&s, 0, 1), Vec::<char>::new());
}

#[test]
fn lines_split_at_line_feeds() {
    let lines = split_lines(&chars("a\r\n\nb"));
    assert_eq!(lines, vec![chars("a\r"), chars(""), chars("b")]);
    assert_eq!(split_lines(&chars("")), vec![chars("")]);
    assert_eq!(split_lines(&chars("x\n")), vec![chars("x"), chars("")]);
}

#[test]
fn words_are_runs_without_white_space() {
    assert_eq!(
        split_words(&chars("  MEMWRITE\t0 \u{A0}7  ")),
        vec![chars("MEMWRITE"), chars("0"), chars("7")]
    );
    assert!(split_words(&chars(" \t ")).is_empty());
}

#[test]
fn integers_read_like_from_str() {
    for text in ["0", "-0", "+7", "007", "-2147483648", "2147483647", "12a", "", "-", "+", "2147483648", "-2147483649", "1 2", "٣"] {
        assert_eq!(parse_i32_chars(&chars(text)), text.parse::<i32>().ok(), "{:?}", text);
    }
}

#[test]
fn addresses_read_like_from_str() {
    for text in ["0", "+3", "-1", "-0", "", "+", "3x", "18446744073709551615", "18446744073709551616"] {
        assert_eq!(is_address(&chars(text)), text.parse::<usize>().is_ok(), "{:?}", text);
    }
    assert_eq!(target_address(&chars("+4"), 5), Some(4));
    assert_eq!(target_address(&chars("5"), 5), None);
    assert_eq!(target_address(&chars("99999999999999999999999"), 5), None);
}

#[test]
fn decimal_writing_has_no_leading_zeros() {
    let mut out = chars("#");
    push_decimal(0, &mut out);
    push_decimal(1204, &mut out);
    assert_eq!(out, chars("#01204"));
}

#[test]
fn characters_of_text_keep_order() {
    assert_eq!(chars_of("é;x"), vec!['é', ';', 'x']);
}

#[test]
fn mnemonics_follow_unicode_upper_casing() {
    assert_eq!(split_instructions("pu\u{17F}h 1\n\u{3000}ret\u{3000}"), vec![Instruction::Push(1), Instruction::Ret]);
}
