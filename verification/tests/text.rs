use witgen::field::FieldElement;
use witgen::text::{decimal, hexadecimal, indent, join, numeral, quote, replace_char};

#[test]
fn decimal_of_zero_and_of_the_largest_number() {
    assert_eq!(decimal(0), "0");
    assert_eq!(decimal(9), "9");
    assert_eq!(decimal(10), "10");
    assert_eq!(decimal(1234567890), "1234567890");
    assert_eq!(decimal(u64::MAX), "18446744073709551615");
}

#[test]
fn numerals_in_other_bases() {
    assert_eq!(hexadecimal(0), "0");
    assert_eq!(hexadecimal(255), "ff");
    assert_eq!(hexadecimal(0xdeadbeef), "deadbeef");
    assert_eq!(numeral(5, 2), "101");
    assert_eq!(numeral(35, 6), "55");
}

#[test]
fn replace_char_replaces_every_occurrence() {
    assert_eq!(replace_char("a\nb\n", '\n', "\n  "), "a\n  b\n  ");
    assert_eq!(replace_char("", 'a', "b"), "");
    assert_eq!(replace_char("aaa", 'a', ""), "");
    assert_eq!(replace_char("xyz", 'a', "b"), "xyz");
    assert_eq!(replace_char("héllo", 'é', "e"), "hello");
}

#[test]
fn join_puts_the_separator_between_neighbours() {
    let parts = vec!["a".to_string(), "b".to_string(), "c".to_string()];
    assert_eq!(join(&parts, ", "), "a, b, c");
    assert_eq!(join(&vec![], ", "), "");
    assert_eq!(join(&vec!["x".to_string()], ", "), "x");
    assert_eq!(join(&vec!["".to_string(), "".to_string()], "-"), "-");
}

#[test]
fn indent_indents_every_line() {
    assert_eq!(indent("a\nb", "    "), "    a\n    b");
    assert_eq!(indent("", "    "), "");
    assert_eq!(indent("a", "  "), "  a");
    assert_eq!(indent("a\n", "  "), "  a\n  ");
}

#[test]
fn quote_escapes_backslashes_and_double_quotes() {
    assert_eq!(quote("in"), "\"in\"");
    assert_eq!(quote(""), "\"\"");
    assert_eq!(quote("a\"b"), "\"a\\\"b\"");
    assert_eq!(quote("a\\b"), "\"a\\\\b\"");
    assert_eq!(quote("\\\""), "\"\\\\\\\"\"");
}

/// Reads a quoted text back: the reverse of `quote`.
fn unquote(text: &str) -> Option<String> {
    let inner = text.strip_prefix('"')?.strip_suffix('"')?;
    let mut out = String::new();
    let mut chars = inner.chars();
    while let Some(c) = chars.next() {
        if c == '\\' {
            out.push(chars.next()?);
        } else {
            out.push(c);
        }
    }
    Some(out)
}

#[test]
fn quoted_text_reads_back_as_it_was() {
    for text in ["", "in", "a\"b", "\\", "\"", "\\\"", "a\\\\b\"\"c", "ends with \\"] {
        assert_eq!(unquote(&quote(text)), Some(text.to_string()));
    }
}

#[test]
fn field_elements_are_reduced() {
    let p = 18446744069414584321u64;
    assert_eq!(FieldElement::new(p), FieldElement::new(0));
    assert_eq!(FieldElement::new(p).value(), 0);
    assert_eq!(FieldElement::new(p + 5).value(), 5);
    assert_eq!(FieldElement::new(u64::MAX).value(), 4294967294);
    assert_eq!(FieldElement::new(p - 1).value(), p - 1);
    assert_eq!(FieldElement::zero().value(), 0);
    assert_eq!(FieldElement::one().value(), 1);
    assert!(FieldElement::new(0).is_zero());
    assert!(!FieldElement::new(1).is_zero());
    assert!(FieldElement::new(1).is_one());
    assert!(FieldElement::new(p + 1).equals(&FieldElement::one()));
    assert!(!FieldElement::new(2).equals(&FieldElement::one()));
}

#[test]
fn field_arithmetic_is_modular() {
    let p = 18446744069414584321u64;
    let f = FieldElement::new;
    assert_eq!(f(p - 1).add(f(2)), f(1));
    assert_eq!(f(3).add(f(4)), f(7));
    assert_eq!(f(3).sub(f(5)).value(), p - 2);
    assert_eq!(f(5).sub(f(3)), f(2));
    assert_eq!(f(0).neg(), f(0));
    assert_eq!(f(1).neg().value(), p - 1);
    assert_eq!(f(p - 1).mul(f(p - 1)), f(1));
    assert_eq!(f(1 << 32).mul(f(1 << 32)).value(), 4294967295);
    assert_eq!(f(6).mul(f(7)), f(42));
}

#[test]
fn field_inverse_and_division() {
    let f = FieldElement::new;
    assert_eq!(f(0).inverse(), None);
    assert_eq!(f(1).inverse(), Some(f(1)));
    assert_eq!(f(2).inverse(), Some(f(9223372034707292161)));
    for value in [2u64, 3, 5, 1 << 40, 18446744069414584320, 123456789123456789] {
        let inverse = f(value).inverse().unwrap();
        assert_eq!(f(value).mul(inverse), f(1));
    }
    assert_eq!(f(6).div(f(3)), Some(f(2)));
    assert_eq!(f(1).div(f(0)), None);
    let third = f(1).div(f(3)).unwrap();
    assert_eq!(third.mul(f(3)), f(1));
}

#[test]
fn field_elements_read_in_decimal() {
    assert_eq!(FieldElement::new(0).to_string(), "0");
    assert_eq!(FieldElement::new(18446744069414584320).to_string(), "18446744069414584320");
    assert_eq!(FieldElement::new(18446744069414584321).to_string(), "0");
}
