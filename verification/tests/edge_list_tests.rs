use shortest_path::dijkstra::dijkstra;
use shortest_path::edge_list::{get_adjacency_nodes_from_file, is_whitespace, parse_edge_list};
use shortest_path::error::RouteError;
use shortest_path::graph::Edge;

fn chars(s: &str) -> Vec<char> {
    s.chars().collect()
}

fn edge(from: i32, to: i32, weight: i32) -> Edge {
    Edge { weight, from, to }
}

#[test]
fn each_line_of_three_numbers_is_an_edge() {
    let text = chars("0 1 4\n0 2 1\n2 1 2\n1 3 5\n");
    assert_eq!(
        parse_edge_list(&text),
        Ok(vec![edge(0, 1, 4), edge(0, 2, 1), edge(2, 1, 2), edge(1, 3, 5)])
    );
}

#[test]
fn last_line_needs_no_line_feed() {
    assert_eq!(parse_edge_list(&chars("1 2 3\n4 5 6")), Ok(vec![edge(1, 2, 3), edge(4, 5, 6)]));
}

#[test]
fn empty_text_holds_no_edge() {
    assert_eq!(parse_edge_list(&chars("")), Ok(Vec::new()));
    assert_eq!(parse_edge_list(&chars("\n\n")), Ok(Vec::new()));
}

#[test]
fn lines_of_another_count_of_words_are_passed_over() {
    let text = chars("1 2\n\n3 4 5\n6 7 8 9\n   \n10 11 12 13 14\n");
    assert_eq!(parse_edge_list(&text), Ok(vec![edge(3, 4, 5)]));
}

#[test]
fn any_white_space_separates_words() {
    let text = chars("  1\t2\u{a0}3 \r\n\u{3000}4\u{2003}5\u{b}6\u{c}\n");
    assert_eq!(parse_edge_list(&text), Ok(vec![edge(1, 2, 3), edge(4, 5, 6)]));
    assert!(is_whitespace(' '));
    assert!(is_whitespace('\u{85}'));
    assert!(is_whitespace('\u{1680}'));
    assert!(is_whitespace('\u{2028}'));
    assert!(is_whitespace('\u{2029}'));
    assert!(is_whitespace('\u{202f}'));
    assert!(is_whitespace('\u{205f}'));
    assert!(!is_whitespace('\u{200b}'));
    assert!(!is_whitespace('0'));
    for c in ['\u{8}', '\u{e}', '\u{1f}', '\u{21}', '\u{1fff}', '\u{200b}', '\u{feff}'] {
        assert_eq!(is_whitespace(c), c.is_whitespace());
    }
}

#[test]
fn white_space_agrees_with_the_standard_library_on_every_character() {
    let mut u: u32 = 0;
    while u <= 0x10FFFF {
        if let Some(c) = char::from_u32(u) {
            assert_eq!(is_whitespace(c), c.is_whitespace(), "U+{:X}", u);
        }
        u += 1;
    }
}

#[test]
fn signs_and_leading_zeros_are_read() {
    let text = chars("+1 -2 003\n-0 +0 0\n");
    assert_eq!(parse_edge_list(&text), Ok(vec![edge(1, -2, 3), edge(0, 0, 0)]));
}

#[test]
fn numbers_at_the_ends_of_the_range_are_read() {
    let text = chars("2147483647 -2147483648 0000000000000000000002147483647\n");
    assert_eq!(parse_edge_list(&text), Ok(vec![edge(i32::MAX, i32::MIN, i32::MAX)]));
}

#[test]
fn numbers_beyond_the_range_are_malformed() {
    assert_eq!(
        parse_edge_list(&chars("1 2 2147483648\n")),
        Err(RouteError::MalformedLine { line: 0 })
    );
    assert_eq!(
        parse_edge_list(&chars("1 2 3\n-2147483649 2 3\n")),
        Err(RouteError::MalformedLine { line: 1 })
    );
    assert_eq!(
        parse_edge_list(&chars("99999999999999999999999999999999999999 2 3")),
        Err(RouteError::MalformedLine { line: 0 })
    );
}

#[test]
fn words_that_are_no_numbers_are_malformed() {
    for bad in ["a", "1a", "+", "-", "1.5", "--1", "1-", "0x10", "\u{661}"] {
        let text = chars(&format!("1 2 3\n\n4 {} 6\n7 8 9\n", bad));
        assert_eq!(
            parse_edge_list(&text),
            Err(RouteError::MalformedLine { line: 2 }),
            "{}",
            bad
        );
    }
}

#[test]
fn a_bad_word_is_malformed_whatever_the_count_of_words() {
    assert_eq!(parse_edge_list(&chars("1 x\n")), Err(RouteError::MalformedLine { line: 0 }));
    assert_eq!(
        parse_edge_list(&chars("1 2 3 4 5 x\n")),
        Err(RouteError::MalformedLine { line: 0 })
    );
}

#[test]
fn the_first_malformed_line_is_named() {
    assert_eq!(
        parse_edge_list(&chars("1 2 3\nx\ny\n")),
        Err(RouteError::MalformedLine { line: 1 })
    );
}

#[test]
fn adjacency_is_read_straight_from_the_text() {
    let text = chars("1 2 10\n3 1 20\n2 3 30\n");
    assert_eq!(
        get_adjacency_nodes_from_file(&text, 1),
        Ok(vec![edge(1, 2, 10), edge(1, 3, 20)])
    );
    assert_eq!(get_adjacency_nodes_from_file(&text, 7), Ok(Vec::new()));
    assert_eq!(
        get_adjacency_nodes_from_file(&chars("1 2 z"), 1),
        Err(RouteError::MalformedLine { line: 0 })
    );
}

#[test]
fn parsed_edges_can_be_searched() {
    let text = chars("0 1 4\n0 2 1\n2 1 2\n1 3 5\n");
    let edges = parse_edge_list(&text).unwrap();
    let route = dijkstra(&edges, 0, 3);
    assert_eq!(route.path, vec![0, 2, 1, 3]);
    assert_eq!(route.distance, 8);
}
