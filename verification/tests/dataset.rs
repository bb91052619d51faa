use conll_yago::dataset::{
    assemble_document, generate_dataset, mention_span, AssemblyError, DatasetRecord, Mention,
};
use conll_yago::mapping::{ResolvedIdentifier, TitleTable};
use conll_yago::token::{same_tag, EntityTag, TaggedToken};
use itertools::Itertools;

fn token(document_id: u32, text: &str, tag: EntityTag) -> TaggedToken {
    TaggedToken { document_id, text: text.to_string(), tag }
}

fn plain(document_id: u32, text: &str) -> TaggedToken {
    token(document_id, text, EntityTag::NoEntity)
}

fn unmapped(document_id: u32, text: &str) -> TaggedToken {
    token(document_id, text, EntityTag::OutOfMapping)
}

fn titled(document_id: u32, text: &str, title: &str) -> TaggedToken {
    token(document_id, text, EntityTag::Candidate(title.to_string()))
}

fn table(entries: &[(&str, u32, Option<u32>)]) -> TitleTable {
    let mut table = TitleTable::new();
    for (title, primary_id, secondary_id) in entries {
        table.insert(
            title.to_string(),
            ResolvedIdentifier { primary_id: *primary_id, secondary_id: *secondary_id },
        );
    }
    table
}

fn mention(start: u32, end: u32, primary_id: Option<u32>, secondary_id: Option<u32>) -> Mention {
    Mention { start, end, primary_id, secondary_id }
}

fn shape(records: &[DatasetRecord]) -> Vec<(u32, String, Vec<Mention>)> {
    records
        .iter()
        .map(|record| (record.document_id, record.text.clone(), record.mentions.clone()))
        .collect()
}

fn is_random_uuid(id: &str) -> bool {
    let chars: Vec<char> = id.chars().collect();
    chars.len() == 36
        && chars.iter().enumerate().all(|(i, c)| {
            if i == 8 || i == 13 || i == 18 || i == 23 {
                *c == '-'
            } else {
                matches!(*c, '0'..='9' | 'a'..='f')
            }
        })
        && chars[14] == '4'
        && matches!(chars[19], '8' | '9' | 'a' | 'b')
}

#[test]
fn tags_are_compared_by_variant_and_title() {
    let a = EntityTag::Candidate("A".to_string());
    let b = EntityTag::Candidate("B".to_string());
    assert!(same_tag(&a, &a.clone()));
    assert!(!same_tag(&a, &b));
    assert!(!same_tag(&a, &EntityTag::OutOfMapping));
    assert!(same_tag(&EntityTag::OutOfMapping, &EntityTag::OutOfMapping));
    assert!(same_tag(&EntityTag::NoEntity, &EntityTag::NoEntity));
    assert!(!same_tag(&EntityTag::NoEntity, &EntityTag::OutOfMapping));
}

#[test]
fn two_differently_tagged_tokens_give_two_mentions() {
    let tokens = vec![unmapped(0, "A"), titled(0, "B", "Title")];
    let records = generate_dataset(tokens, &table(&[("Title", 7, Some(9))])).unwrap();
    assert_eq!(
        shape(&records),
        vec![(
            0,
            "A B".to_string(),
            vec![mention(0, 1, None, None), mention(2, 3, Some(7), Some(9))]
        )]
    );
}

#[test]
fn secondary_identifier_may_be_absent() {
    let records =
        generate_dataset(vec![titled(4, "B", "Title")], &table(&[("Title", 7, None)])).unwrap();
    assert_eq!(shape(&records), vec![(4, "B".to_string(), vec![mention(0, 1, Some(7), None)])]);
}

#[test]
fn untagged_tokens_give_text_but_no_mention() {
    let tokens = vec![plain(1, "EU"), plain(1, "rejects"), unmapped(1, "German"), plain(1, "call")];
    let records = generate_dataset(tokens, &TitleTable::new()).unwrap();
    assert_eq!(
        shape(&records),
        vec![(1, "EU rejects German call".to_string(), vec![mention(11, 17, None, None)])]
    );
}

#[test]
fn adjacent_tokens_with_one_tag_are_one_mention() {
    let tokens = vec![
        titled(1, "New", "New_York_City"),
        titled(1, "York", "New_York_City"),
        titled(1, "City", "New_York_City"),
        titled(1, "York", "York"),
        unmapped(1, "a"),
        unmapped(1, "b"),
        plain(1, "."),
        unmapped(1, "c"),
    ];
    let records =
        generate_dataset(tokens, &table(&[("New_York_City", 645042, Some(60)), ("York", 34361, None)]))
            .unwrap();
    assert_eq!(
        shape(&records),
        vec![(
            1,
            "New York City York a b . c".to_string(),
            vec![
                mention(0, 13, Some(645042), Some(60)),
                mention(14, 18, Some(34361), None),
                mention(19, 22, None, None),
                mention(25, 26, None, None),
            ]
        )]
    );
}

#[test]
fn offsets_count_characters_not_bytes() {
    let tokens = vec![plain(1, "Zür\u{ed}ch"), unmapped(1, "Köln"), unmapped(1, "日本")];
    let records = generate_dataset(tokens, &TitleTable::new()).unwrap();
    let record = &records[0];
    assert_eq!(record.text, "Zür\u{ed}ch Köln 日本");
    assert_eq!(record.mentions, vec![mention(7, 14, None, None)]);
    let covered: String = record.text.chars().skip(7).take(7).collect();
    assert_eq!(covered, "Köln 日本");
}

#[test]
fn documents_are_grouped_by_position() {
    let tokens = vec![plain(1, "a"), plain(1, "b"), plain(2, "c"), plain(1, "d"), unmapped(1, "e")];
    let records = generate_dataset(tokens, &TitleTable::new()).unwrap();
    assert_eq!(
        shape(&records),
        vec![
            (1, "a b".to_string(), vec![]),
            (2, "c".to_string(), vec![]),
            (1, "d e".to_string(), vec![mention(2, 3, None, None)]),
        ]
    );
}

#[test]
fn mention_does_not_cross_a_document_boundary() {
    let tokens = vec![unmapped(1, "a"), unmapped(2, "b")];
    let records = generate_dataset(tokens, &TitleTable::new()).unwrap();
    assert_eq!(
        shape(&records),
        vec![
            (1, "a".to_string(), vec![mention(0, 1, None, None)]),
            (2, "b".to_string(), vec![mention(0, 1, None, None)]),
        ]
    );
}

#[test]
fn no_tokens_give_no_documents() {
    assert_eq!(generate_dataset(Vec::new(), &TitleTable::new()).unwrap(), Vec::new());
}

#[test]
fn empty_token_range_gives_an_empty_document() {
    let tokens = vec![unmapped(1, "a")];
    let record =
        assemble_document("some-id".to_string(), 5, &tokens, 1, 1, &TitleTable::new()).unwrap();
    assert_eq!(
        record,
        DatasetRecord {
            id: "some-id".to_string(),
            document_id: 5,
            text: String::new(),
            mentions: vec![]
        }
    );
}

#[test]
fn document_is_assembled_under_the_given_identifier() {
    let tokens = vec![plain(1, "x"), unmapped(1, "a"), unmapped(1, "b"), plain(1, "y")];
    let record =
        assemble_document("given".to_string(), 9, &tokens, 1, 4, &TitleTable::new()).unwrap();
    assert_eq!(
        record,
        DatasetRecord {
            id: "given".to_string(),
            document_id: 9,
            text: "a b y".to_string(),
            mentions: vec![mention(0, 3, None, None)]
        }
    );
}

#[test]
fn empty_leading_token_adds_no_separator() {
    let tokens = vec![unmapped(1, ""), plain(1, "x"), unmapped(1, "")];
    let records = generate_dataset(tokens, &TitleTable::new()).unwrap();
    assert_eq!(
        shape(&records),
        vec![(1, "x ".to_string(), vec![mention(0, 0, None, None), mention(2, 2, None, None)])]
    );
}

#[test]
fn empty_tokens_in_one_mention_are_joined_by_a_space() {
    let tokens = vec![unmapped(1, ""), unmapped(1, "")];
    let records = generate_dataset(tokens, &TitleTable::new()).unwrap();
    assert_eq!(shape(&records), vec![(1, " ".to_string(), vec![mention(0, 1, None, None)])]);
}

#[test]
fn unresolved_title_is_an_error() {
    let tokens = vec![plain(1, "a"), titled(1, "b", "Known"), titled(2, "c", "Unknown")];
    let outcome = generate_dataset(tokens, &table(&[("Known", 1, None)]));
    assert_eq!(outcome, Err(AssemblyError::UnresolvedTitle("Unknown".to_string())));
}

#[test]
fn first_unresolved_title_is_named() {
    let tokens = vec![titled(1, "a", "First"), titled(1, "b", "Second")];
    let outcome = generate_dataset(tokens, &TitleTable::new());
    assert_eq!(outcome, Err(AssemblyError::UnresolvedTitle("First".to_string())));
}

#[test]
fn identifiers_are_random_uuids() {
    let tokens = vec![plain(1, "a"), plain(2, "b"), plain(3, "c")];
    let records = generate_dataset(tokens, &TitleTable::new()).unwrap();
    assert_eq!(records.len(), 3);
    for record in &records {
        assert!(is_random_uuid(&record.id), "{}", record.id);
    }
    assert_ne!(records[0].id, records[1].id);
    assert_ne!(records[1].id, records[2].id);
    assert_ne!(records[0].id, records[2].id);
}

#[test]
fn assembly_is_repeatable_but_for_the_identifiers() {
    let tokens = vec![
        plain(1, "a"),
        titled(1, "b", "B"),
        unmapped(2, "c"),
        unmapped(2, "d"),
        plain(3, "e"),
    ];
    let mapping = table(&[("B", 2, Some(3))]);
    let first = generate_dataset(tokens.clone(), &mapping).unwrap();
    let second = generate_dataset(tokens, &mapping).unwrap();
    assert_eq!(shape(&first), shape(&second));
    for (a, b) in first.iter().zip(second.iter()) {
        assert_ne!(a.id, b.id);
    }
}

#[test]
fn mentions_are_valid_ordered_and_cover_their_tokens() {
    let tokens = vec![
        unmapped(1, "Alpha"),
        plain(1, "and"),
        titled(1, "Beta", "B"),
        titled(1, "Gamma", "B"),
        titled(1, "Delta", "D"),
        plain(1, "."),
    ];
    let records = generate_dataset(tokens, &table(&[("B", 1, None), ("D", 2, None)])).unwrap();
    let record = &records[0];
    let length = record.text.chars().count() as u32;
    let covered: Vec<String> = record
        .mentions
        .iter()
        .map(|m| {
            record.text.chars().skip(m.start as usize).take((m.end - m.start) as usize).collect()
        })
        .collect();
    assert_eq!(covered, vec!["Alpha", "Beta Gamma", "Delta"]);
    for m in &record.mentions {
        assert!(m.start < m.end && m.end <= length);
    }
    for pair in record.mentions.windows(2) {
        assert!(pair[0].end <= pair[1].start);
    }
}

fn grouped_by_adaptors(
    split: Vec<TaggedToken>,
    mapping: &TitleTable,
) -> Vec<(u32, String, Vec<Mention>)> {
    let mut examples = vec![];
    for (document_id, group) in &split.into_iter().group_by(|x| x.document_id) {
        let mut text = String::new();
        let mut mentions = vec![];
        for (tag, group) in &group.map(|x| (x.text, x.tag)).group_by(|x| x.1.clone()) {
            let tokens = group.map(|x| x.0).collect::<Vec<_>>().join(" ");
            let start = (text.chars().count() + if text.is_empty() { 0 } else { 1 }) as u32;
            let end = start + tokens.chars().count() as u32;
            match tag {
                EntityTag::OutOfMapping => mentions.push(mention(start, end, None, None)),
                EntityTag::Candidate(title) => {
                    let ids = mapping.get(&title).unwrap();
                    mentions.push(mention(start, end, Some(ids.primary_id), ids.secondary_id));
                }
                EntityTag::NoEntity => {}
            }
            if !text.is_empty() {
                text.push(' ');
            }
            text.push_str(&tokens);
        }
        examples.push((document_id, text, mentions));
    }
    examples
}

#[test]
fn agrees_with_grouping_adaptors_on_generated_tokens() {
    let mapping = table(&[("T0", 10, Some(100)), ("T1", 11, None), ("T2", 12, Some(102))]);
    let words = ["", "a", "bc", "é", "x y"];
    let mut state: u64 = 0x9E3779B97F4A7C15;
    let mut next = move |bound: u64| {
        state ^= state << 13;
        state ^= state >> 7;
        state ^= state << 17;
        state % bound
    };
    for _ in 0..500 {
        let count = next(12) as usize;
        let mut tokens = Vec::new();
        let mut document_id = next(3) as u32;
        for _ in 0..count {
            if next(4) == 0 {
                document_id = next(3) as u32;
            }
            let tag = match next(5) {
                0 => EntityTag::OutOfMapping,
                1 | 2 => EntityTag::Candidate(format!("T{}", next(3))),
                _ => EntityTag::NoEntity,
            };
            tokens.push(token(document_id, words[next(words.len() as u64) as usize], tag));
        }
        let expected = grouped_by_adaptors(tokens.clone(), &mapping);
        let records = generate_dataset(tokens, &mapping).unwrap();
        assert_eq!(shape(&records), expected);
    }
}

#[test]
fn span_starts_after_a_separating_space() {
    assert_eq!(mention_span(0, 0), Some((0, 0)));
    assert_eq!(mention_span(0, 5), Some((0, 5)));
    assert_eq!(mention_span(3, 0), Some((4, 4)));
    assert_eq!(mention_span(3, 5), Some((4, 9)));
}

#[test]
fn span_must_end_within_thirty_two_bits() {
    let max = u32::MAX as usize;
    assert_eq!(mention_span(0, max), Some((0, u32::MAX)));
    assert_eq!(mention_span(0, max + 1), None);
    assert_eq!(mention_span(max - 1, 0), Some((u32::MAX, u32::MAX)));
    assert_eq!(mention_span(max - 1, 1), None);
    assert_eq!(mention_span(max, 0), None);
    assert_eq!(mention_span(10, max - 11), Some((11, u32::MAX)));
    assert_eq!(mention_span(10, max - 10), None);
    assert_eq!(mention_span(usize::MAX, 1), None);
    assert_eq!(mention_span(1, usize::MAX), None);
}
