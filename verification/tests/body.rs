use astrolabe_core::body::{extract_lines, prefix_width, symbol_body};
use astrolabe_core::text::{chars_of, split_lines, string_of};
use astrolabe_core::types::{CodeSymbol, FileId, SymbolId, SymbolKind};

fn lines(text: &str) -> Vec<String> {
    split_lines(&chars_of(text))
        .iter()
        .map(|l| string_of(l))
        .collect()
}

fn symbol(start_line: u32, end_line: u32) -> CodeSymbol {
    CodeSymbol {
        id: SymbolId(0),
        file: FileId(0),
        name: "greet".to_string(),
        kind: SymbolKind::Function,
        signature: "fn greet()".to_string(),
        start_line,
        end_line,
        exported: true,
    }
}

#[test]
fn middle_range_is_prefixed_line_by_line() {
    let got = extract_lines(&lines("one\ntwo\nthree\nfour\nfive\nsix\n"), 2, 4);
    let want = "    2 | two\n    3 | three\n    4 | four\n";
    assert_eq!(got, want);
    assert!(got.starts_with("    2 | two\n"), "prefix format: {got:?}");
}

#[test]
fn first_line_only() {
    let got = extract_lines(&lines("alpha\nbeta\ngamma\n"), 1, 1);
    assert_eq!(got, "    1 | alpha\n");
}

#[test]
fn end_line_clamps_to_eof() {
    let got = extract_lines(&lines("l1\nl2\nl3"), 2, 99);
    assert_eq!(got, "    2 | l2\n    3 | l3\n");
}

#[test]
fn start_past_eof_returns_empty() {
    let only = lines("only\n");
    assert_eq!(extract_lines(&only, 10, 12), "");
    assert_eq!(extract_lines(&only, 3, 1), "");
}

#[test]
fn symbol_body_extracts_symbol_range() {
    let source = lines("mod m {\n    fn greet() {\n        todo!()\n    }\n}\n");
    let got = symbol_body(&source, &symbol(2, 3));
    assert_eq!(got, "    2 |     fn greet() {\n    3 |         todo!()\n");
}

#[test]
fn prefix_width_stays_five_until_five_digit_lines() {
    let got = extract_lines(&lines("solo\n"), 1, 1);
    assert_eq!(got, "    1 | solo\n");
    assert!(got.starts_with("    1 | "), "width 5: {got:?}");

    let big: Vec<String> = (0..10_000).map(|i| format!("line-{i}")).collect();
    let got = extract_lines(&big, 9_999, 10_000);
    assert_eq!(got, "  9999 | line-9998\n 10000 | line-9999\n");
    assert_eq!(prefix_width(9_999), 5);
    assert_eq!(prefix_width(10_000), 6);
}
