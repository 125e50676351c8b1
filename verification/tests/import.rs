use oboete::models::Flashcard;
use oboete::utils::parse_import_content;

fn parse(line_delimiter: &str, term_delimiter: &str, content: &str) -> Vec<Flashcard> {
    parse_import_content(
        &String::from(line_delimiter),
        &String::from(term_delimiter),
        content,
    )
}

fn join(cards: &[Flashcard], line_delimiter: &str, term_delimiter: &str) -> String {
    let lines: Vec<String> = cards
        .iter()
        .map(|c| format!("{}{}{}", c.front, term_delimiter, c.back))
        .collect();
    lines.join(line_delimiter)
}

fn assert_cards_eq(a: &[Flashcard], b: &[Flashcard]) {
    assert_eq!(a.len(), b.len());
    for (x, y) in a.iter().zip(b.iter()) {
        assert_eq!(x.id, y.id);
        assert_eq!(x.front, y.front);
        assert_eq!(x.back, y.back);
        assert_eq!(x.status, y.status);
    }
}

#[test]
fn parses_two_lines_and_drops_bad_line() {
    let cards = parse(";", ",", "front1,back1;front2,back2;badline");
    assert_eq!(cards.len(), 2);
    assert_eq!(cards[0].front, "front1");
    assert_eq!(cards[0].back, "back1");
    assert_eq!(cards[0].id, None);
    assert_eq!(cards[0].status, 0);
    assert_eq!(cards[1].front, "front2");
    assert_eq!(cards[1].back, "back2");
    assert_eq!(cards[1].id, None);
    assert_eq!(cards[1].status, 0);
}

#[test]
fn empty_content_yields_no_cards() {
    let cards = parse(";", ",", "");
    assert!(cards.is_empty());
}

#[test]
fn extra_segments_are_ignored() {
    let cards = parse(";", ",", "a,b,c");
    assert_eq!(cards.len(), 1);
    assert_eq!(cards[0].front, "a");
    assert_eq!(cards[0].back, "b");
}

#[test]
fn multi_character_delimiters() {
    let cards = parse("\r\n", " - ", "dog - perro\r\ncat - gato");
    assert_eq!(cards.len(), 2);
    assert_eq!(cards[0].front, "dog");
    assert_eq!(cards[0].back, "perro");
    assert_eq!(cards[1].front, "cat");
    assert_eq!(cards[1].back, "gato");
}

#[test]
fn delimiters_are_literal_not_patterns() {
    // '.' must match only itself, not any character.
    let cards = parse(".", ",", "a,b.c,d");
    assert_eq!(cards.len(), 2);
    assert_eq!(cards[0].front, "a");
    assert_eq!(cards[1].back, "d");
}

#[test]
fn empty_term_delimiter_splits_at_every_boundary() {
    // An empty delimiter matches at each character boundary, so the first
    // two segments of "ab" are "" and "a".
    let cards = parse(";", "", "ab");
    assert_eq!(cards.len(), 1);
    assert_eq!(cards[0].front, "");
    assert_eq!(cards[0].back, "a");
}

#[test]
fn lines_with_only_front_are_dropped_without_gaps() {
    let cards = parse("\n", "\t", "a\tb\nnodelim\nc\td");
    assert_eq!(cards.len(), 2);
    assert_eq!(cards[0].front, "a");
    assert_eq!(cards[1].front, "c");
}

#[test]
fn round_trip_of_parsed_output() {
    let original = "uno,one;dos,two;tres,three";
    let cards = parse(";", ",", original);
    assert_eq!(cards.len(), 3);
    let rejoined = join(&cards, ";", ",");
    assert_eq!(rejoined, original);
    let reparsed = parse(";", ",", &rejoined);
    assert_cards_eq(&cards, &reparsed);
}

#[test]
fn round_trip_with_multi_character_delimiters() {
    let cards = parse("||", "::", "k1::v1||k2::v2");
    let rejoined = join(&cards, "||", "::");
    let reparsed = parse("||", "::", &rejoined);
    assert_cards_eq(&cards, &reparsed);
}
