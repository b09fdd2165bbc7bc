use gedcom_parser::{
    node_from_groups, nodes_from_matches, parse_into_nodes, Node, ParseError, LINE_PATTERN,
};

const HEAD: &str = "0 HEAD\n1 NAME William Jefferson\n1 SEX M\n1 OCCU US President No. 42\n1 @SUB1@ SUBM\n";

fn some(text: &str) -> Option<String> {
    Some(text.to_string())
}

#[test]
fn head_document_gives_five_records() {
    let nodes = parse_into_nodes(HEAD.to_string()).unwrap();
    assert_eq!(
        nodes,
        vec![
            Node::new(0, "HEAD", "", ""),
            Node::new(1, "NAME", "William Jefferson", ""),
            Node::new(1, "SEX", "M", ""),
            Node::new(1, "OCCU", "US President No. 42", ""),
            Node::new(1, "SUBM", "", "@SUB1@"),
        ]
    );
}

#[test]
fn pointer_keeps_its_delimiters() {
    let nodes = parse_into_nodes("0 @I1@ INDI".to_string()).unwrap();
    assert_eq!(nodes.len(), 1);
    assert_eq!(nodes[0].pointer, "@I1@");
    assert_eq!(nodes[0].tag, "INDI");
    assert_eq!(nodes[0].data, "");
    assert_eq!(nodes[0].level, 0);
}

#[test]
fn pointer_is_empty_when_absent() {
    let nodes = parse_into_nodes("1 NAME John /Doe/".to_string()).unwrap();
    assert_eq!(nodes, vec![Node::new(1, "NAME", "John /Doe/", "")]);
}

#[test]
fn blank_data_is_the_empty_string() {
    let nodes = parse_into_nodes("1 NOTE ".to_string()).unwrap();
    assert_eq!(nodes, vec![Node::new(1, "NOTE", "", "")]);
}

#[test]
fn data_is_trimmed_on_both_sides() {
    let nodes = parse_into_nodes("1 NOTE    spaced out  \t ".to_string()).unwrap();
    assert_eq!(nodes, vec![Node::new(1, "NOTE", "spaced out", "")]);
}

#[test]
fn data_is_trimmed_of_unicode_white_space() {
    let nodes = parse_into_nodes("1 NOTE \u{3000}\u{a0}hello\u{2003}world\u{2028}".to_string()).unwrap();
    assert_eq!(nodes, vec![Node::new(1, "NOTE", "hello\u{2003}world", "")]);
}

#[test]
fn level_too_large_fails_the_document() {
    let text = "0 HEAD\n99999999999 NOTE x\n1 SEX M\n";
    assert_eq!(parse_into_nodes(text.to_string()), Err(ParseError::Level));
}

#[test]
fn largest_level_is_read() {
    let nodes = parse_into_nodes("2147483647 DEEP".to_string()).unwrap();
    assert_eq!(nodes, vec![Node::new(2147483647, "DEEP", "", "")]);
}

#[test]
fn level_one_above_the_largest_fails() {
    assert_eq!(parse_into_nodes("2147483648 DEEP".to_string()), Err(ParseError::Level));
}

#[test]
fn lines_without_a_record_are_skipped() {
    let text = "\n# comment\n0 HEAD\n\nnot a record\n1 SOUR x\n";
    let nodes = parse_into_nodes(text.to_string()).unwrap();
    assert_eq!(nodes, vec![Node::new(0, "HEAD", "", ""), Node::new(1, "SOUR", "x", "")]);
}

#[test]
fn empty_text_has_no_records() {
    assert_eq!(parse_into_nodes(String::new()), Ok(vec![]));
}

#[test]
fn text_without_a_record_has_no_records() {
    assert_eq!(parse_into_nodes("hello\nworld\n\n".to_string()), Ok(vec![]));
}

#[test]
fn carriage_returns_stay_out_of_the_records() {
    let text = "0 HEAD\r\n1 NAME John\r\n1 NOTE\r\n";
    let nodes = parse_into_nodes(text.to_string()).unwrap();
    assert_eq!(
        nodes,
        vec![
            Node::new(0, "HEAD", "", ""),
            Node::new(1, "NAME", "John", ""),
            Node::new(1, "NOTE", "", ""),
        ]
    );
}

#[test]
fn leading_white_space_is_allowed() {
    let nodes = parse_into_nodes("   2 DATE 1 JAN 1900".to_string()).unwrap();
    assert_eq!(nodes, vec![Node::new(2, "DATE", "1 JAN 1900", "")]);
}

#[test]
fn records_come_in_document_order() {
    let text = "0 A\n1 B\n2 C\n1 D\n0 E\n";
    let tags: Vec<String> = parse_into_nodes(text.to_string())
        .unwrap()
        .into_iter()
        .map(|node| node.tag)
        .collect();
    assert_eq!(tags, vec!["A", "B", "C", "D", "E"]);
}

#[test]
fn a_record_never_spans_two_lines() {
    let nodes = parse_into_nodes("1 NOTE first\nsecond".to_string()).unwrap();
    assert_eq!(nodes, vec![Node::new(1, "NOTE", "first", "")]);
}

#[test]
fn tokenizing_twice_gives_the_same_records() {
    let text = "0 @I1@ INDI\n1 NAME Ada /Lovelace/\n2 GIVN Ada\nnoise\n1 SEX F\n";
    let first = parse_into_nodes(text.to_string());
    let second = parse_into_nodes(text.to_string());
    assert_eq!(first, second);
    assert_eq!(first.unwrap().len(), 4);
}

#[test]
fn fresh_records_have_no_children() {
    let nodes = parse_into_nodes(HEAD.to_string()).unwrap();
    assert!(nodes.iter().all(|node| node.children.is_empty() && node.level >= 0));
}

#[test]
fn line_pattern_is_accepted_by_the_engine() {
    assert!(regex::Regex::new(LINE_PATTERN).is_ok());
}

#[test]
fn tokenizer_agrees_with_the_engine_run_by_hand() {
    let text = "0 HEAD\n 1 @X Y@ TAG_1  data with  spaces \nbad line\n10 DEEP\u{e9}\n3 OK\u{e9} x\n1 A-2 B\n";
    let re = regex::Regex::new(LINE_PATTERN).unwrap();
    let mut expected = Vec::new();
    for line in text.split('\n') {
        for cap in re.captures_iter(line) {
            let level: i32 = cap.get(1).unwrap().as_str().parse().unwrap();
            let pointer = cap.get(2).map_or("", |m| m.as_str());
            let tag = cap.get(3).map_or("", |m| m.as_str());
            let data = cap.get(4).map_or("", |m| m.as_str()).trim();
            expected.push(Node::new(level, tag, data, pointer.strip_suffix(' ').unwrap_or(pointer)));
        }
    }
    assert!(expected.len() >= 4);
    assert_eq!(parse_into_nodes(text.to_string()), Ok(expected));
}

#[test]
fn groups_become_a_record() {
    let groups = vec![some("1 @I1@ NAME  John "), some("1"), some("@I1@ "), some("NAME"), some("  John ")];
    assert_eq!(node_from_groups(&groups), Ok(Node::new(1, "NAME", "John", "@I1@")));
}

#[test]
fn missing_groups_are_empty_texts() {
    let groups = vec![some("7 TAG"), some("7"), None, some("TAG"), None];
    assert_eq!(node_from_groups(&groups), Ok(Node::new(7, "TAG", "", "")));
    let short = vec![some("7"), some("7")];
    assert_eq!(node_from_groups(&short), Ok(Node::new(7, "", "", "")));
}

#[test]
fn groups_without_a_level_are_refused() {
    assert_eq!(node_from_groups(&vec![]), Err(ParseError::Level));
    assert_eq!(node_from_groups(&vec![some("x"), None, None, some("TAG"), None]), Err(ParseError::Level));
    assert_eq!(node_from_groups(&vec![some("x"), some(""), None, some("TAG"), None]), Err(ParseError::Level));
    assert_eq!(node_from_groups(&vec![some("x"), some("1a"), None, some("TAG"), None]), Err(ParseError::Level));
    assert_eq!(node_from_groups(&vec![some("x"), some("-1"), None, some("TAG"), None]), Err(ParseError::Level));
}

#[test]
fn matches_become_records_in_order() {
    let found = vec![
        vec![some("0 HEAD"), some("0"), some(""), some("HEAD"), some("")],
        vec![some("1 @A@ B c"), some("1"), some("@A@ "), some("B"), some(" c")],
    ];
    assert_eq!(
        nodes_from_matches(&found),
        Ok(vec![Node::new(0, "HEAD", "", ""), Node::new(1, "B", "c", "@A@")])
    );
    assert_eq!(nodes_from_matches(&vec![]), Ok(vec![]));
}

#[test]
fn one_unreadable_level_fails_all_matches() {
    let found = vec![
        vec![some("0 HEAD"), some("0"), some(""), some("HEAD"), some("")],
        vec![some("x"), some("3000000000"), some(""), some("B"), some("")],
        vec![some("1 C"), some("1"), some(""), some("C"), some("")],
    ];
    assert_eq!(nodes_from_matches(&found), Err(ParseError::Level));
}

#[test]
fn no_record_holds_a_line_feed() {
    let text = "0 @I\n1@ INDI\n1 NOTE a\n b\n2 CONT c\r\n";
    for node in parse_into_nodes(text.to_string()).unwrap() {
        assert!(!node.data.contains('\n'));
        assert!(!node.tag.contains('\n'));
        assert!(!node.pointer.contains('\n'));
    }
}

struct Dice(u64);

impl Dice {
    fn roll(&mut self, sides: usize) -> usize {
        self.0 ^= self.0 << 13;
        self.0 ^= self.0 >> 7;
        self.0 ^= self.0 << 17;
        (self.0 % sides as u64) as usize
    }
}

fn by_hand(text: &str) -> Result<Vec<Node>, ParseError> {
    let re = regex::Regex::new(LINE_PATTERN).unwrap();
    let mut nodes = Vec::new();
    for line in text.split('\n') {
        for cap in re.captures_iter(line) {
            let level = match cap.get(1).unwrap().as_str().parse::<i32>() {
                Ok(level) => level,
                Err(_) => return Err(ParseError::Level),
            };
            let pointer = cap.get(2).map_or("", |m| m.as_str());
            let tag = cap.get(3).map_or("", |m| m.as_str());
            let data = cap.get(4).map_or("", |m| m.as_str()).trim();
            nodes.push(Node::new(level, tag, data, pointer.strip_suffix(' ').unwrap_or(pointer)));
        }
    }
    Ok(nodes)
}

#[test]
fn tokenizer_agrees_with_the_engine_on_many_texts() {
    let alphabet = [
        '0', '1', '2', '7', '9', ' ', ' ', ' ', '@', 'A', 'b', 'Z', '_', '\n', '\n', '\r', '\t',
        '\u{e9}', '-', '\u{3000}', '\u{a0}', '/',
    ];
    let mut dice = Dice(0x2545F4914F6CDD1D);
    let mut with_records = 0;
    for _ in 0..400 {
        let length = dice.roll(48);
        let text: String = (0..length).map(|_| alphabet[dice.roll(alphabet.len())]).collect();
        let expected = by_hand(&text);
        if let Ok(nodes) = &expected {
            if !nodes.is_empty() {
                with_records += 1;
            }
        }
        assert_eq!(parse_into_nodes(text.clone()), expected, "{:?}", text);
    }
    assert!(with_records > 50);
    let long_level = "0 A\n1 B\n12345678901 C\n";
    assert_eq!(parse_into_nodes(long_level.to_string()), by_hand(long_level));
}
