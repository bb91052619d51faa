use conll_yago::boundary::{parse_boundary, Boundary, BoundaryScan, Split};

fn found(document_id: u32, split: Split) -> BoundaryScan {
    BoundaryScan::Found(Boundary { document_id, split })
}

#[test]
fn plain_boundary_is_train() {
    assert_eq!(parse_boundary("-DOCSTART- (1 EU)"), found(1, Split::Train));
}

#[test]
fn testa_marker_is_validation() {
    assert_eq!(parse_boundary("-DOCSTART- (947testa CRICKET)"), found(947, Split::Validation));
}

#[test]
fn testb_marker_is_test() {
    assert_eq!(parse_boundary("-DOCSTART- (1163testb SOCCER)"), found(1163, Split::Test));
}

#[test]
fn marker_after_space_is_free_text() {
    assert_eq!(parse_boundary("-DOCSTART- (2 testa)"), found(2, Split::Train));
}

#[test]
fn empty_free_text_is_accepted() {
    assert_eq!(parse_boundary("-DOCSTART- (7 )"), found(7, Split::Train));
}

#[test]
fn leading_zeros_are_ignored() {
    assert_eq!(parse_boundary("-DOCSTART- (0042 x)"), found(42, Split::Train));
}

#[test]
fn largest_document_number_is_accepted() {
    assert_eq!(parse_boundary("-DOCSTART- (4294967295 x)"), found(u32::MAX, Split::Train));
}

#[test]
fn too_large_document_number_is_reported() {
    assert_eq!(parse_boundary("-DOCSTART- (4294967296 x)"), BoundaryScan::IdOutOfRange);
    assert_eq!(
        parse_boundary("-DOCSTART- (99999999999999999999999999 x)"),
        BoundaryScan::IdOutOfRange
    );
}

#[test]
fn missing_parts_are_no_boundary() {
    assert_eq!(parse_boundary(""), BoundaryScan::Absent);
    assert_eq!(parse_boundary("EU"), BoundaryScan::Absent);
    assert_eq!(parse_boundary("-DOCSTART-"), BoundaryScan::Absent);
    assert_eq!(parse_boundary("-DOCSTART- ( x)"), BoundaryScan::Absent);
    assert_eq!(parse_boundary("-DOCSTART- (12)"), BoundaryScan::Absent);
    assert_eq!(parse_boundary("-DOCSTART- (12 x"), BoundaryScan::Absent);
    assert_eq!(parse_boundary("-DOCSTART- (12testa)"), BoundaryScan::Absent);
    assert_eq!(parse_boundary("-DOCSTART- (12testc x)"), BoundaryScan::Absent);
    assert_eq!(parse_boundary("-docstart- (12 x)"), BoundaryScan::Absent);
}

#[test]
fn escaped_parenthesis_does_not_close() {
    assert_eq!(parse_boundary("-DOCSTART- (3 a\\)b)"), found(3, Split::Train));
    assert_eq!(parse_boundary("-DOCSTART- (3 a\\)b"), BoundaryScan::Absent);
    assert_eq!(parse_boundary("-DOCSTART- (3 a\\"), BoundaryScan::Absent);
    assert_eq!(parse_boundary("-DOCSTART- (3 a\\\\)"), found(3, Split::Train));
}

#[test]
fn backslash_does_not_escape_a_line_feed() {
    assert_eq!(parse_boundary("-DOCSTART- (3 a\\\n)"), BoundaryScan::Absent);
    assert_eq!(parse_boundary("-DOCSTART- (3 a\n)"), found(3, Split::Train));
}

#[test]
fn boundary_may_start_inside_the_field() {
    assert_eq!(parse_boundary("xx-DOCSTART- (5testb y) tail"), found(5, Split::Test));
}

#[test]
fn leftmost_complete_boundary_wins() {
    assert_eq!(
        parse_boundary("-DOCSTART- (1-DOCSTART- (2testa x)"),
        found(2, Split::Validation)
    );
    assert_eq!(
        parse_boundary("-DOCSTART- (1 a) -DOCSTART- (2testa x)"),
        found(1, Split::Train)
    );
}

fn oracle(field: &str) -> Option<(String, String)> {
    let pattern =
        lazy_regex::Regex::new(r#"-DOCSTART- \(([\d]+)(testa|testb)? [^\)\\]*(?:\\.[^\)\\]*)*\)"#)
            .unwrap();
    pattern.captures(field).map(|found| {
        (
            found.get(1).map_or("", |m| m.as_str()).to_string(),
            found.get(2).map_or("", |m| m.as_str()).to_string(),
        )
    })
}

fn expected(field: &str) -> BoundaryScan {
    match oracle(field) {
        None => BoundaryScan::Absent,
        Some((digits, marker)) => {
            let split = match marker.as_str() {
                "testa" => Split::Validation,
                "testb" => Split::Test,
                _ => Split::Train,
            };
            match digits.parse::<u32>() {
                Ok(document_id) => found(document_id, split),
                Err(_) => BoundaryScan::IdOutOfRange,
            }
        }
    }
}

#[test]
fn agrees_with_the_pattern_on_generated_fields() {
    let pieces = [
        "-DOCSTART- (", "-DOCSTART-", "(", ")", " ", "1", "23", "testa", "testb", "test", "\\",
        "x", "\n", "4294967296", "-", "é",
    ];
    let mut state: u64 = 0x2545F4914F6CDD1D;
    for _ in 0..4000 {
        let mut field = String::new();
        state ^= state << 13;
        state ^= state >> 7;
        state ^= state << 17;
        let count = 1 + (state % 7) as usize;
        for _ in 0..count {
            state ^= state << 13;
            state ^= state >> 7;
            state ^= state << 17;
            field.push_str(pieces[(state % pieces.len() as u64) as usize]);
        }
        assert_eq!(parse_boundary(&field), expected(&field), "field {:?}", field);
    }
}
