use implicit::formats::{
    parse_count, parse_field, parse_lines, tokenize, write_field, write_lines, Token,
};

fn numbers(text: &str) -> Vec<(f32, f32, f32, f32)> {
    parse_lines(text)
        .unwrap()
        .into_iter()
        .map(|(a, b, c, d)| {
            (a.parse().unwrap(), b.parse().unwrap(), c.parse().unwrap(), d.parse().unwrap())
        })
        .collect()
}

#[test]
fn test_text_to_vec() {
    let s = "(line 1 2 3 4) (line 5 6 7 8)";
    assert_eq!(numbers(s), vec![(1.0, 2.0, 3.0, 4.0), (5.0, 6.0, 7.0, 8.0)]);
}

#[test]
fn tokens_of_a_dump() {
    let toks = tokenize(" (size\t2 1)\n(row -0.5)");
    let shown: Vec<String> = toks
        .iter()
        .map(|t| match t {
            Token::Open => "(".to_string(),
            Token::Close => ")".to_string(),
            Token::Atom(a) => format!("<{}>", a),
        })
        .collect();
    assert_eq!(shown, vec!["(", "<size>", "<2>", "<1>", ")", "(", "<row>", "<-0.5>", ")"]);
    assert!(tokenize(" \n\t ").is_empty());
}

#[test]
fn lines_format() {
    let text = "(line 0.000000 1.000000 2.500000 -3.000000)\n(line 1 1 1 1)\n";
    let lines = parse_lines(text).unwrap();
    assert_eq!(lines.len(), 2);
    assert_eq!(lines[0], ("0.000000".to_string(), "1.000000".to_string(), "2.500000".to_string(), "-3.000000".to_string()));
    assert_eq!(parse_lines("").unwrap(), vec![]);
    assert!(parse_lines("(line 1 2 3)").is_none());
    assert!(parse_lines("(line 1 2 3 4 5)").is_none());
    assert!(parse_lines("(lines 1 2 3 4)").is_none());
    assert!(parse_lines("(line 1 2 (3) 4)").is_none());
    assert!(parse_lines("(line 1 2 3 4").is_none());
}

#[test]
fn field_format() {
    let text = "(size 2 2)\n(row 0.500000 1.000000)\n(row 2.000000 -1.250000)\n";
    let (w, h, values) = parse_field(text).unwrap();
    assert_eq!((w, h), (2, 2));
    assert_eq!(values, vec!["0.500000", "1.000000", "2.000000", "-1.250000"]);
    assert_eq!(parse_field("(size 0 0)"), Some((0, 0, vec![])));
    assert!(parse_field("").is_none());
    assert!(parse_field("(size 2 1)\n(row 1)\n").is_none());
    assert!(parse_field("(size 1 2)\n(row 1)\n").is_none());
    assert!(parse_field("(size x 1)\n(row 1)\n").is_none());
    assert!(parse_field("(size 1 1)\n(col 1)\n").is_none());
}

#[test]
fn counts() {
    assert_eq!(parse_count("0"), Some(0));
    assert_eq!(parse_count("0042"), Some(42));
    assert_eq!(parse_count("18446744073709551615"), Some(usize::MAX));
    assert_eq!(parse_count("18446744073709551616"), None);
    assert_eq!(parse_count(""), None);
    assert_eq!(parse_count("-1"), None);
    assert_eq!(parse_count("1.5"), None);
}

#[test]
fn written_lines_read_back() {
    let lines = vec![
        ("1.000000".to_string(), "2.000000".to_string(), "3.000000".to_string(), "4.000000".to_string()),
        ("-5.5".to_string(), "6".to_string(), "7".to_string(), "8e3".to_string()),
    ];
    let text = write_lines(&lines);
    assert_eq!(text, "(line 1.000000 2.000000 3.000000 4.000000)\n(line -5.5 6 7 8e3)\n");
    assert_eq!(parse_lines(&text).unwrap(), lines);
    assert_eq!(write_lines(&vec![]), "");
}

#[test]
fn written_fields_read_back() {
    let values: Vec<String> = ["0.5", "1", "2", "3", "4", "5"].iter().map(|s| s.to_string()).collect();
    let text = write_field(3, 2, &values);
    assert_eq!(text, "(size 3 2)\n(row 0.5 1 2)\n(row 3 4 5)\n");
    assert_eq!(parse_field(&text), Some((3, 2, values)));
    assert_eq!(write_field(0, 2, &vec![]), "(size 0 2)\n(row)\n(row)\n");
    assert_eq!(parse_field("(size 0 2)\n(row)\n(row)\n"), Some((0, 2, vec![])));
    assert_eq!(write_field(12, 0, &vec![]), "(size 12 0)\n");
}
