use yek::{count_size, measure, trim};

#[test]
fn count_size_counts_bytes() {
    assert_eq!(count_size("hello world", false), 11);
    assert_eq!(count_size("", false), 0);
    assert_eq!(count_size("größe", false), 7);
}

#[test]
fn count_size_counts_tokens() {
    assert_eq!(count_size("hello world", true), 2);
    assert_eq!(count_size("  hello \t world\n", true), 2);
    assert_eq!(count_size("", true), 0);
    assert_eq!(count_size(" \n\t ", true), 0);
    assert_eq!(count_size("one", true), 1);
}

#[test]
fn count_size_knows_unicode_white_space() {
    assert_eq!(count_size("a\u{2003}b\u{00A0}c\u{3000}d", true), 4);
    assert_eq!(count_size("a\u{0085}b\u{1680}c\u{2028}d\u{2029}e\u{202F}f\u{205F}g", true), 7);
    assert_eq!(count_size("a\u{200B}b", true), 1);
    assert_eq!(count_size("a\u{180E}b", true), 1);
}

#[test]
fn count_size_agrees_with_split_whitespace() {
    let samples = [
        "",
        " ",
        "a",
        " a ",
        "a  b",
        "fn main() {\n    println!(\"hi\");\n}\n",
        "tab\tseparated\tvalues",
        "crlf\r\nlines\r\n",
        "\u{2000}\u{2001}\u{2002}x\u{2004}\u{2005}\u{2006}y\u{2007}\u{2008}\u{2009}\u{200A}z",
        "é è\u{00A0}ê",
        "日本語 テキスト\u{3000}です",
        "\u{000B}\u{000C}v\u{000B}f",
    ];
    for s in samples {
        assert_eq!(count_size(s, true), s.split_whitespace().count());
        assert_eq!(count_size(s, false), s.len());
        assert_eq!(measure(s.as_bytes(), true), s.split_whitespace().count());
    }
}

#[test]
fn every_white_space_character_separates() {
    let mut spaces = 0;
    let mut code: u32 = 0;
    while code <= 0x10FFFF {
        if let Some(c) = char::from_u32(code) {
            let mut text = String::with_capacity(8);
            text.push('a');
            text.push(c);
            text.push('b');
            let expected = if c.is_whitespace() { 2 } else { 1 };
            assert_eq!(count_size(&text, true), expected);
            if c.is_whitespace() {
                spaces += 1;
            }
        }
        code += 1;
    }
    assert_eq!(spaces, 25);
}

#[test]
fn every_white_space_character_is_trimmed() {
    let mut code: u32 = 0;
    while code <= 0x10FFFF {
        if let Some(c) = char::from_u32(code) {
            let mut text = String::with_capacity(16);
            text.push(c);
            text.push('x');
            text.push(c);
            text.push('y');
            text.push(c);
            assert_eq!(trim(text.as_bytes()), text.trim().as_bytes());
        }
        code += 1;
    }
}

#[test]
fn trim_agrees_with_str_trim() {
    let samples = [
        "",
        "   ",
        "a",
        "  a  ",
        "\t\na b\r\n",
        "\u{00A0}x\u{00A0}",
        "\u{3000}\u{2003}wide\u{2003}\u{3000}",
        "é",
        " é ",
        "x\u{0085}",
    ];
    for s in samples {
        assert_eq!(trim(s.as_bytes()), s.trim().as_bytes());
    }
}
