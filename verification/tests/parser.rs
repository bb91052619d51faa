use conll_yago::boundary::{Boundary, Split};
use conll_yago::parser::{
    parse_conll, read_line, route_lines, title_part, CorpusParser, Line, ParseError,
    TITLE_PREFIX_LEN,
};
use conll_yago::token::{EntityTag, TaggedToken};

const PREFIX: &str = "http://en.wikipedia.org/wiki/";

fn lines(text: &[&str]) -> Vec<String> {
    text.iter().map(|line| line.to_string()).collect()
}

fn token(document_id: u32, text: &str, tag: EntityTag) -> TaggedToken {
    TaggedToken { document_id, text: text.to_string(), tag }
}

fn candidate(title: &str) -> EntityTag {
    EntityTag::Candidate(title.to_string())
}

#[test]
fn prefix_has_the_stripped_length() {
    assert_eq!(TITLE_PREFIX_LEN, 29);
    assert_eq!(PREFIX.chars().count(), TITLE_PREFIX_LEN);
}

#[test]
fn empty_line_is_blank() {
    assert_eq!(read_line(""), Line::Blank);
}

#[test]
fn boundary_line_is_recognised() {
    assert_eq!(
        read_line("-DOCSTART- (12testb SOCCER)"),
        Line::Boundary(Boundary { document_id: 12, split: Split::Test })
    );
}

#[test]
fn boundary_with_tab_is_a_token() {
    assert_eq!(
        read_line("-DOCSTART- (12 x)\tB"),
        Line::Token("-DOCSTART- (12 x)".to_string(), EntityTag::NoEntity)
    );
}

#[test]
fn malformed_boundary_is_an_untagged_token() {
    assert_eq!(
        read_line("-DOCSTART- (x)"),
        Line::Token("-DOCSTART- (x)".to_string(), EntityTag::NoEntity)
    );
}

#[test]
fn boundary_number_out_of_range_is_bad() {
    assert_eq!(read_line("-DOCSTART- (4294967296 x)"), Line::BadBoundary);
}

#[test]
fn field_count_decides_the_tag() {
    assert_eq!(read_line("EU"), Line::Token("EU".to_string(), EntityTag::NoEntity));
    assert_eq!(read_line("EU\tB"), Line::Token("EU".to_string(), EntityTag::NoEntity));
    assert_eq!(read_line("EU\tB\tx"), Line::Token("EU".to_string(), EntityTag::NoEntity));
    assert_eq!(
        read_line("EU\tB\tEU\t--NME--"),
        Line::Token("EU".to_string(), EntityTag::OutOfMapping)
    );
    let five = format!("German\tB\tGerman\tGermany\t{}Germany", PREFIX);
    assert_eq!(read_line(&five), Line::Token("German".to_string(), candidate("Germany")));
    let seven = format!("German\tB\tGerman\tGermany\t{}Germany\t11867\t/m/0345h", PREFIX);
    assert_eq!(read_line(&seven), Line::Token("German".to_string(), candidate("Germany")));
}

#[test]
fn empty_first_field_gives_an_empty_token() {
    assert_eq!(read_line("\tB\tx\ty"), Line::Token(String::new(), EntityTag::OutOfMapping));
    assert_eq!(read_line("\t"), Line::Token(String::new(), EntityTag::NoEntity));
}

#[test]
fn title_shorter_than_the_prefix_is_empty() {
    assert_eq!(read_line("a\tb\tc\td\tshort"), Line::Token("a".to_string(), candidate("")));
    let exact = format!("a\tb\tc\td\t{}", PREFIX);
    assert_eq!(read_line(&exact), Line::Token("a".to_string(), candidate("")));
}

#[test]
fn prefix_is_counted_in_characters() {
    let field = format!("{}Title", "é".repeat(29));
    let line = format!("a\tb\tc\td\t{}", field);
    assert_eq!(read_line(&line), Line::Token("a".to_string(), candidate("Title")));
}

#[test]
fn thirty_character_field_leaves_one_character() {
    assert_eq!(
        read_line("B\t_\t_\t_\tSOME_PREFIX_29_CHARS_LONGTitle"),
        Line::Token("B".to_string(), candidate("e"))
    );
}

#[test]
fn token_text_is_composed() {
    assert_eq!(
        read_line("Cafe\u{301}\tB"),
        Line::Token("Caf\u{e9}".to_string(), EntityTag::NoEntity)
    );
    assert_ne!("Cafe\u{301}", "Caf\u{e9}");
}

#[test]
fn title_is_composed() {
    let line = format!("x\tb\tc\td\t{}Me\u{301}xico", PREFIX);
    assert_eq!(read_line(&line), Line::Token("x".to_string(), candidate("M\u{e9}xico")));
}

#[test]
fn corpus_without_boundary_goes_to_train_as_document_zero() {
    let ((train, validation, test), titles) =
        parse_conll(&lines(&["EU", "rejects\tB", "", "German\tB\tx\ty"])).unwrap();
    assert_eq!(
        train,
        vec![
            token(0, "EU", EntityTag::NoEntity),
            token(0, "rejects", EntityTag::NoEntity),
            token(0, "German", EntityTag::OutOfMapping),
        ]
    );
    assert!(validation.is_empty());
    assert!(test.is_empty());
    assert_eq!(titles.len(), 0);
}

#[test]
fn empty_corpus_gives_nothing() {
    let ((train, validation, test), titles) = parse_conll(&Vec::new()).unwrap();
    assert!(train.is_empty() && validation.is_empty() && test.is_empty());
    assert_eq!(titles.len(), 0);
}

#[test]
fn tokens_follow_the_last_boundary() {
    let germany = format!("German\tB\tGerman\tGermany\t{}Germany", PREFIX);
    let britain = format!("British\tB\tBritish\tUK\t{}United_Kingdom", PREFIX);
    let ((train, validation, test), titles) = parse_conll(&lines(&[
        "before",
        "-DOCSTART- (1 EU)",
        "EU\tB\tEU\t--NME--",
        germany.as_str(),
        "",
        "-DOCSTART- (947testa CRICKET)",
        "CRICKET",
        "-DOCSTART- (1163testb SOCCER)",
        britain.as_str(),
        "-DOCSTART- (2 again)",
        germany.as_str(),
    ]))
    .unwrap();
    assert_eq!(
        train,
        vec![
            token(0, "before", EntityTag::NoEntity),
            token(1, "EU", EntityTag::OutOfMapping),
            token(1, "German", candidate("Germany")),
            token(2, "German", candidate("Germany")),
        ]
    );
    assert_eq!(validation, vec![token(947, "CRICKET", EntityTag::NoEntity)]);
    assert_eq!(test, vec![token(1163, "British", candidate("United_Kingdom"))]);
    assert_eq!(titles.len(), 2);
    assert!(titles.contains("Germany"));
    assert!(titles.contains("United_Kingdom"));
    assert!(!titles.contains("EU"));
}

#[test]
fn every_token_line_lands_in_one_partition() {
    let corpus = lines(&[
        "a",
        "-DOCSTART- (1testa x)",
        "b",
        "c\t1\t2\t3",
        "-DOCSTART- (2testb x)",
        "",
        "d",
        "-DOCSTART- (3 x)",
        "e",
        "f",
    ]);
    let ((train, validation, test), _) = parse_conll(&corpus).unwrap();
    assert_eq!(train.len() + validation.len() + test.len(), 6);
    let texts = |tokens: &Vec<TaggedToken>| {
        tokens.iter().map(|token| token.text.clone()).collect::<Vec<String>>()
    };
    assert_eq!(texts(&train), vec!["a", "e", "f"]);
    assert_eq!(texts(&validation), vec!["b", "c"]);
    assert_eq!(texts(&test), vec!["d"]);
}

#[test]
fn consecutive_boundaries_leave_no_tokens() {
    let ((train, validation, test), _) = parse_conll(&lines(&[
        "-DOCSTART- (1 a)",
        "-DOCSTART- (2testa b)",
        "-DOCSTART- (3 c)",
        "x",
    ]))
    .unwrap();
    assert_eq!(train, vec![token(3, "x", EntityTag::NoEntity)]);
    assert!(validation.is_empty());
    assert!(test.is_empty());
}

#[test]
fn first_bad_boundary_is_reported() {
    let outcome = parse_conll(&lines(&[
        "a",
        "-DOCSTART- (1 ok)",
        "-DOCSTART- (99999999999 bad)",
        "b",
        "-DOCSTART- (4294967296 bad)",
    ]));
    assert_eq!(outcome.unwrap_err(), ParseError { line: 2 });
}

#[test]
fn unparseable_boundary_is_kept_as_a_token() {
    let ((train, _, _), _) = parse_conll(&lines(&["-DOCSTART- (1testa)", "x"])).unwrap();
    assert_eq!(
        train,
        vec![
            token(0, "-DOCSTART- (1testa)", EntityTag::NoEntity),
            token(0, "x", EntityTag::NoEntity),
        ]
    );
}

#[test]
fn title_part_drops_twenty_nine_characters() {
    assert_eq!(title_part("http://en.wikipedia.org/wiki/Germany"), "Germany");
    assert_eq!(title_part("http://en.wikipedia.org/wiki/"), "");
    assert_eq!(title_part("short"), "");
    assert_eq!(title_part(""), "");
    assert_eq!(title_part("0123456789012345678901234567é9"), "9");
}

#[test]
fn parser_starts_in_train_with_document_zero() {
    let parser = CorpusParser::new();
    assert_eq!(parser.cursor, Boundary { document_id: 0, split: Split::Train });
    assert!(parser.train.is_empty() && parser.validation.is_empty() && parser.test.is_empty());
    assert_eq!(parser.titles.len(), 0);
}

#[test]
fn parser_routes_one_line_at_a_time() {
    let mut parser = CorpusParser::new();
    assert!(parser.accept(Line::Token("a".to_string(), EntityTag::NoEntity)));
    assert!(parser.accept(Line::Blank));
    assert!(parser.accept(Line::Boundary(Boundary { document_id: 7, split: Split::Test })));
    assert!(parser.accept(Line::Token("b".to_string(), candidate("B"))));
    assert!(parser.accept(Line::Boundary(Boundary { document_id: 8, split: Split::Validation })));
    assert!(parser.accept(Line::Token("c".to_string(), EntityTag::OutOfMapping)));
    assert_eq!(parser.cursor, Boundary { document_id: 8, split: Split::Validation });
    assert_eq!(parser.train, vec![token(0, "a", EntityTag::NoEntity)]);
    assert_eq!(parser.test, vec![token(7, "b", candidate("B"))]);
    assert_eq!(parser.validation, vec![token(8, "c", EntityTag::OutOfMapping)]);
    assert!(parser.titles.contains("B"));
    assert_eq!(parser.titles.len(), 1);
}

#[test]
fn parser_refuses_a_bad_boundary_and_stays_as_it_is() {
    let mut parser = CorpusParser::new();
    assert!(parser.accept(Line::Boundary(Boundary { document_id: 3, split: Split::Test })));
    assert!(parser.accept(Line::Token("a".to_string(), EntityTag::NoEntity)));
    assert!(!parser.accept(Line::BadBoundary));
    assert_eq!(parser.cursor, Boundary { document_id: 3, split: Split::Test });
    assert_eq!(parser.test, vec![token(3, "a", EntityTag::NoEntity)]);
    assert!(parser.train.is_empty() && parser.validation.is_empty());
}

#[test]
fn classified_lines_are_routed_like_text_lines() {
    let corpus = lines(&["a", "-DOCSTART- (4testa x)", "", "b\t1\t2\t3", "-DOCSTART- (5 x)", "c"]);
    let classified: Vec<Line> = corpus.iter().map(|line| read_line(line)).collect();
    let ((train, validation, test), titles) = route_lines(classified).unwrap();
    let ((train2, validation2, test2), titles2) = parse_conll(&corpus).unwrap();
    assert_eq!((train, validation, test), (train2, validation2, test2));
    assert_eq!(titles.len(), titles2.len());
}

#[test]
fn routing_names_the_first_bad_boundary() {
    let classified = vec![
        Line::Blank,
        Line::Token("a".to_string(), EntityTag::NoEntity),
        Line::BadBoundary,
        Line::BadBoundary,
    ];
    assert_eq!(route_lines(classified).unwrap_err(), ParseError { line: 2 });
}
