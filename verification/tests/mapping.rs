use conll_yago::mapping::{
    build_mapping, manual_overrides, offer_record, MappingRecord, ResolvedIdentifier, TitleTable,
};
use conll_yago::titles::TitleSet;

fn ids(primary_id: u32, secondary_id: Option<u32>) -> ResolvedIdentifier {
    ResolvedIdentifier { primary_id, secondary_id }
}

fn record(title: &str, numeric_id: u32, optional_id: Option<u32>) -> MappingRecord {
    MappingRecord { title: title.to_string(), numeric_id, optional_id }
}

fn wanted(titles: &[&str]) -> TitleSet {
    let mut set = TitleSet::new();
    for title in titles {
        set.insert(title.to_string());
    }
    set
}

#[test]
fn title_set_holds_what_was_inserted() {
    let mut set = TitleSet::new();
    assert_eq!(set.len(), 0);
    assert!(!set.contains("Germany"));
    assert!(set.insert("Germany".to_string()));
    assert!(!set.insert("Germany".to_string()));
    assert!(set.insert("France".to_string()));
    assert_eq!(set.len(), 2);
    assert!(set.contains("Germany"));
    assert!(set.contains("France"));
    assert!(!set.contains("germany"));
}

#[test]
fn title_table_insert_replaces_and_try_insert_keeps() {
    let mut table = TitleTable::new();
    assert_eq!(table.len(), 0);
    assert_eq!(table.get("a"), None);
    assert_eq!(table.insert("a".to_string(), ids(1, None)), None);
    assert_eq!(table.insert("a".to_string(), ids(2, Some(3))), Some(ids(1, None)));
    assert_eq!(table.get("a"), Some(ids(2, Some(3))));
    assert!(!table.try_insert("a".to_string(), ids(4, None)));
    assert_eq!(table.get("a"), Some(ids(2, Some(3))));
    assert!(table.try_insert("b".to_string(), ids(5, None)));
    assert_eq!(table.get("b"), Some(ids(5, None)));
    assert_eq!(table.len(), 2);
}

#[test]
fn corrections_are_the_nine_fixed_entries() {
    let table = manual_overrides();
    assert_eq!(table.len(), 9);
    assert_eq!(
        table.get("International_cricketers_of_South_African_origin"),
        Some(ids(17416221, Some(258)))
    );
    assert_eq!(table.get("Independence_Day_(film)"), Some(ids(52389, Some(105387))));
    assert_eq!(table.get("Camelot,_Chesapeake,_Virginia"), Some(ids(91342, Some(49222))));
    assert_eq!(table.get("SBC_Communications"), Some(ids(26213969, Some(444015))));
    assert_eq!(table.get("Superman_(film)"), Some(ids(28381, Some(79015))));
    assert_eq!(table.get("Rabobank_(cycling_team)"), Some(ids(2354465, Some(6233))));
    assert_eq!(table.get("U._Chandana"), Some(ids(896434, Some(3520028))));
    assert_eq!(table.get("LPGA_Championship"), Some(ids(229059, Some(281917))));
    assert_eq!(table.get("Hapoel_Be'er_Sheva_A.F.C."), Some(ids(5834903, Some(986529))));
}

#[test]
fn correction_wins_over_a_record() {
    let titles = wanted(&["Superman_(film)", "Germany"]);
    let records = vec![
        record("Superman_(film)", 1, Some(2)),
        record("Germany", 11867, Some(183)),
        record("Superman_(film)", 3, None),
    ];
    let table = build_mapping(&titles, &records);
    assert_eq!(table.get("Superman_(film)"), Some(ids(28381, Some(79015))));
    assert_eq!(table.get("Germany"), Some(ids(11867, Some(183))));
}

#[test]
fn correction_is_present_even_when_not_wanted() {
    let table = build_mapping(&wanted(&[]), &Vec::new());
    assert_eq!(table.len(), 9);
    assert_eq!(table.get("U._Chandana"), Some(ids(896434, Some(3520028))));
}

#[test]
fn first_record_for_a_title_stays() {
    let titles = wanted(&["Germany"]);
    let records = vec![record("Germany", 1, None), record("Germany", 2, Some(5))];
    let table = build_mapping(&titles, &records);
    assert_eq!(table.get("Germany"), Some(ids(1, None)));
    assert_eq!(table.len(), 10);
}

#[test]
fn records_for_unwanted_titles_are_skipped() {
    let titles = wanted(&["Germany"]);
    let records = vec![record("France", 1, Some(142)), record("Germany", 2, Some(183))];
    let table = build_mapping(&titles, &records);
    assert_eq!(table.get("France"), None);
    assert_eq!(table.get("Germany"), Some(ids(2, Some(183))));
}

#[test]
fn wanted_title_without_record_is_absent() {
    let table = build_mapping(&wanted(&["Atlantis"]), &vec![record("Germany", 2, None)]);
    assert_eq!(table.get("Atlantis"), None);
    assert_eq!(table.len(), 9);
}

#[test]
fn offering_records_one_by_one_builds_the_same_table() {
    let titles = wanted(&["Germany", "France"]);
    let records = vec![
        record("Germany", 1, None),
        record("Spain", 2, None),
        record("France", 3, Some(142)),
        record("Germany", 4, None),
    ];
    let mut table = manual_overrides();
    for entry in &records {
        offer_record(&mut table, &titles, entry);
    }
    let built = build_mapping(&titles, &records);
    for title in ["Germany", "France", "Spain", "Superman_(film)"] {
        assert_eq!(table.get(title), built.get(title));
    }
    assert_eq!(table.len(), built.len());
    assert_eq!(table.get("Germany"), Some(ids(1, None)));
    assert_eq!(table.get("Spain"), None);
}
