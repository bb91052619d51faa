use conll_yago::columns::{
    dataset_columns, mention_fields, record_fields, DatasetColumns, Field, MentionColumns,
    ValueType,
};
use conll_yago::dataset::{DatasetRecord, Mention};

fn record(id: &str, document_id: u32, text: &str, mentions: Vec<Mention>) -> DatasetRecord {
    DatasetRecord { id: id.to_string(), document_id, text: text.to_string(), mentions }
}

#[test]
fn record_has_four_columns_none_nullable() {
    assert_eq!(
        record_fields(),
        vec![
            Field { name: "id", value_type: ValueType::Utf8, nullable: false },
            Field { name: "document_id", value_type: ValueType::UInt32, nullable: false },
            Field { name: "text", value_type: ValueType::Utf8, nullable: false },
            Field { name: "mentions", value_type: ValueType::MentionList, nullable: false },
        ]
    );
}

#[test]
fn mention_has_two_offsets_and_two_nullable_identifiers() {
    assert_eq!(
        mention_fields(),
        vec![
            Field { name: "start", value_type: ValueType::UInt32, nullable: false },
            Field { name: "end", value_type: ValueType::UInt32, nullable: false },
            Field { name: "primary_id", value_type: ValueType::UInt32, nullable: true },
            Field { name: "secondary_id", value_type: ValueType::UInt32, nullable: true },
        ]
    );
}

#[test]
fn empty_dataset_has_one_offset() {
    assert_eq!(
        dataset_columns(&Vec::new()),
        Ok(DatasetColumns {
            id: vec![],
            document_id: vec![],
            text: vec![],
            offsets: vec![0],
            mentions: MentionColumns {
                start: vec![],
                end: vec![],
                primary_id: vec![],
                secondary_id: vec![]
            },
        })
    );
}

#[test]
fn mentions_are_laid_end_to_end() {
    let records = vec![
        record(
            "a",
            1,
            "A B",
            vec![
                Mention { start: 0, end: 1, primary_id: None, secondary_id: None },
                Mention { start: 2, end: 3, primary_id: Some(7), secondary_id: Some(9) },
            ],
        ),
        record("b", 2, "C", vec![]),
        record(
            "c",
            3,
            "D",
            vec![Mention { start: 0, end: 1, primary_id: Some(4), secondary_id: None }],
        ),
    ];
    assert_eq!(
        dataset_columns(&records),
        Ok(DatasetColumns {
            id: vec!["a".to_string(), "b".to_string(), "c".to_string()],
            document_id: vec![1, 2, 3],
            text: vec!["A B".to_string(), "C".to_string(), "D".to_string()],
            offsets: vec![0, 2, 2, 3],
            mentions: MentionColumns {
                start: vec![0, 2, 0],
                end: vec![1, 3, 1],
                primary_id: vec![None, Some(7), Some(4)],
                secondary_id: vec![None, Some(9), None],
            },
        })
    );
}

#[test]
fn records_can_be_read_back_from_the_columns() {
    let records = vec![
        record("a", 1, "x", vec![]),
        record(
            "b",
            2,
            "y z",
            vec![
                Mention { start: 0, end: 1, primary_id: Some(1), secondary_id: None },
                Mention { start: 2, end: 3, primary_id: None, secondary_id: None },
            ],
        ),
        record("c", 2, "", vec![]),
    ];
    let columns = dataset_columns(&records).unwrap();
    let mut back = Vec::new();
    for i in 0..columns.id.len() {
        let from = columns.offsets[i] as usize;
        let to = columns.offsets[i + 1] as usize;
        let mentions = (from..to)
            .map(|k| Mention {
                start: columns.mentions.start[k],
                end: columns.mentions.end[k],
                primary_id: columns.mentions.primary_id[k],
                secondary_id: columns.mentions.secondary_id[k],
            })
            .collect();
        back.push(record(&columns.id[i], columns.document_id[i], &columns.text[i], mentions));
    }
    assert_eq!(back, records);
}
