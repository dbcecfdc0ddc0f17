//! The words of the grammar are those of chumsky's text parsers, so that
//! files written for tools built on them read the same here.

use chumsky::error::Simple;
use chumsky::primitive::choice;
use chumsky::primitive::end;
use chumsky::text;
use chumsky::text::TextParser;
use chumsky::Parser;
use whkd::parser::parser;

fn candidates() -> Vec<String> {
    let alphabet = ['a', 'Z', '_', '0', '1', '9', '-', ' ', '+', '\u{e9}'];
    let mut all = vec![String::new()];
    let mut last = vec![String::new()];
    for _ in 0..4 {
        let mut next = Vec::new();
        for prefix in &last {
            for c in alphabet {
                let mut longer = prefix.clone();
                longer.push(c);
                next.push(longer);
            }
        }
        all.extend(next.iter().cloned());
        last = next;
    }
    all
}

fn sampled_chars() -> Vec<char> {
    let mut chars: Vec<char> = (0..=0x3100u32).filter_map(char::from_u32).collect();
    chars.extend((0x3101..=0x10FFFFu32).step_by(257).filter_map(char::from_u32));
    chars
}

#[test]
fn a_key_is_an_identifier_or_an_integer() {
    let key = choice((text::ident::<char, Simple<char>>(), text::int(10))).then_ignore(end());
    for candidate in candidates() {
        let theirs = key.parse(candidate.as_str()).is_ok();
        let ours = match parser(&format!(".shell cmd\n{candidate}: x")) {
            Ok(config) => config.bindings[0].keys == vec![candidate.clone()],
            Err(_) => false,
        };
        assert_eq!(ours, theirs, "{candidate:?}");
    }
}

#[test]
fn a_process_name_is_a_row_of_identifiers() {
    let name = text::ident::<char, Simple<char>>()
        .padded()
        .repeated()
        .at_least(1)
        .map(|words| words.join(" "))
        .then_ignore(end());
    for candidate in candidates() {
        let theirs = name.parse(candidate.as_str()).ok();
        let ours = match parser(&format!(".shell cmd\nf1 [\n{candidate}: x\n]\nf2 : y")) {
            Ok(config) => config.app_bindings[0].1[0].process_name.clone(),
            Err(_) => None,
        };
        assert_eq!(ours, theirs, "{candidate:?}");
    }
}

#[test]
fn a_line_ends_where_chumsky_sees_a_newline() {
    let newline = text::newline::<char, Simple<char>>().then_ignore(end());
    for c in sampled_chars() {
        if c == '#' {
            continue;
        }
        let theirs = newline.parse(c.to_string().as_str()).is_ok();
        let config = parser(&format!(".shell cmd\na : x{c}y : z")).unwrap();
        assert_eq!(config.bindings.len() == 2, theirs, "U+{:04X}", c as u32);
    }
}

#[test]
fn padding_is_what_chumsky_pads_with() {
    let padding = text::whitespace::<char, Simple<char>>().then_ignore(end());
    for c in sampled_chars() {
        let theirs = padding.parse(c.to_string().as_str()).is_ok();
        let config = parser(&format!(".shell cmd\n{c}a{c}+{c}b{c}:{c}x"));
        let ours = match config {
            Ok(config) => {
                config.bindings[0].keys == vec![String::from("a"), String::from("b")]
                    && config.bindings[0].command == "x"
            }
            Err(_) => false,
        };
        assert_eq!(ours, theirs, "U+{:04X}", c as u32);
    }
}
