//! The title table: for each title the numeric page id and the optional item
//! id, filled from a fixed list of corrections and then from mapping records,
//! where the first entry for a title stays.

use vstd::prelude::*;
use crate::titles::TitleSet;

verus! {

/// The identifiers that a title resolves to.
#[derive(Clone, Copy, Debug, PartialEq, Eq)]
pub struct ResolvedIdentifier {
    pub primary_id: u32,
    pub secondary_id: Option<u32>,
}

/// A table from titles to `(page id, item id)`, kept in a `hashbrown::HashMap`.
#[derive(Debug)]
#[verifier::external_body]
pub struct TitleTable {
    inner: hashbrown::HashMap<String, ResolvedIdentifier>,
}

/// The entries that a `TitleTable` holds.
pub uninterp spec fn title_table_entries(table: TitleTable) -> Map<Seq<char>, ResolvedIdentifier>;

impl View for TitleTable {
    type V = Map<Seq<char>, ResolvedIdentifier>;

    open spec fn view(&self) -> Map<Seq<char>, ResolvedIdentifier> {
        title_table_entries(*self)
    }
}

/// Calls `hashbrown::HashMap::new`.
///
/// Trusted: the new table has no entries.
#[verifier::external_body]
fn table_new() -> (table: TitleTable)
    ensures
        title_table_entries(table).dom() == Set::<Seq<char>>::empty(),
{
    TitleTable { inner: hashbrown::HashMap::new() }
}

/// Calls `hashbrown::HashMap::insert`.
///
/// Trusted: afterwards `title` maps to `ids` and every other title is as it
/// was; the result is what `title` mapped to before, if anything.
#[verifier::external_body]
fn table_insert(table: &mut TitleTable, title: String, ids: ResolvedIdentifier) -> (previous:
    Option<ResolvedIdentifier>)
    ensures
        title_table_entries(*final(table)) == title_table_entries(*old(table)).insert(title@, ids),
        previous == if title_table_entries(*old(table)).dom().contains(title@) {
            Some(title_table_entries(*old(table))[title@])
        } else {
            None
        },
{
    table.inner.insert(title, ids)
}

/// Calls `hashbrown::HashMap::try_insert` and keeps only whether it succeeded.
///
/// Trusted: where `title` has an entry the table stays as it is and the
/// result is `false`; otherwise `title` now maps to `ids`, every other title
/// is as it was, and the result is `true`.
#[verifier::external_body]
fn table_try_insert(table: &mut TitleTable, title: String, ids: ResolvedIdentifier) -> (inserted:
    bool)
    ensures
        inserted == !title_table_entries(*old(table)).dom().contains(title@),
        title_table_entries(*final(table)) == if inserted {
            title_table_entries(*old(table)).insert(title@, ids)
        } else {
            title_table_entries(*old(table))
        },
{
    table.inner.try_insert(title, ids).is_ok()
}

/// Calls `hashbrown::HashMap::get` and copies the value out.
///
/// Trusted: the result is the entry of `title`, if it has one.
#[verifier::external_body]
fn table_get(table: &TitleTable, title: &str) -> (ids: Option<ResolvedIdentifier>)
    ensures
        ids == if title_table_entries(*table).dom().contains(title@) {
            Some(title_table_entries(*table)[title@])
        } else {
            None
        },
{
    table.inner.get(title).copied()
}

/// Calls `hashbrown::HashMap::len`.
///
/// Trusted: the result is the number of titles with an entry.
#[verifier::external_body]
fn table_len(table: &TitleTable) -> (count: usize)
    ensures
        title_table_entries(*table).dom().finite() ==> count == title_table_entries(
            *table,
        ).dom().len(),
{
    table.inner.len()
}

impl TitleTable {
    /// A table without entries.
    pub fn new() -> (table: TitleTable)
        ensures
            table@ == Map::<Seq<char>, ResolvedIdentifier>::empty(),
    {
        let table = table_new();
        assert(table@ =~= Map::<Seq<char>, ResolvedIdentifier>::empty());
        table
    }

    /// Sets the entry of `title`, replacing an earlier one; returns the earlier one.
    pub fn insert(&mut self, title: String, ids: ResolvedIdentifier) -> (previous: Option<
        ResolvedIdentifier,
    >)
        ensures
            final(self)@ == old(self)@.insert(title@, ids),
            previous == if old(self)@.dom().contains(title@) {
                Some(old(self)@[title@])
            } else {
                None
            },
    {
        table_insert(self, title, ids)
    }

    /// Sets the entry of `title` unless it has one; says whether it did so.
    pub fn try_insert(&mut self, title: String, ids: ResolvedIdentifier) -> (inserted: bool)
        ensures
            inserted == !old(self)@.dom().contains(title@),
            final(self)@ == if inserted {
                old(self)@.insert(title@, ids)
            } else {
                old(self)@
            },
    {
        table_try_insert(self, title, ids)
    }

    /// The entry of `title`, if it has one.
    pub fn get(&self, title: &str) -> (ids: Option<ResolvedIdentifier>)
        ensures
            ids == if self@.dom().contains(title@) {
                Some(self@[title@])
            } else {
                None
            },
    {
        table_get(self, title)
    }

    /// The number of titles with an entry.
    pub fn len(&self) -> (count: usize)
        ensures
            self@.dom().finite() ==> count == self@.dom().len(),
    {
        table_len(self)
    }
}

/// One record of the external title mapping.
#[derive(Clone, Debug, PartialEq, Eq)]
pub struct MappingRecord {
    pub title: String,
    pub numeric_id: u32,
    pub optional_id: Option<u32>,
}

/// The mathematical value of a `MappingRecord`.
pub struct MappingRecordModel {
    pub title: Seq<char>,
    pub numeric_id: u32,
    pub optional_id: Option<u32>,
}

impl View for MappingRecord {
    type V = MappingRecordModel;

    open spec fn view(&self) -> MappingRecordModel {
        MappingRecordModel {
            title: self.title@,
            numeric_id: self.numeric_id,
            optional_id: self.optional_id,
        }
    }
}

/// The values of a sequence of mapping records.
pub open spec fn records_view(records: Seq<MappingRecord>) -> Seq<MappingRecordModel> {
    Seq::new(records.len(), |i: int| records[i]@)
}

/// A title's identifiers where both are known.
pub open spec fn both(primary_id: u32, secondary_id: u32) -> ResolvedIdentifier {
    ResolvedIdentifier { primary_id, secondary_id: Some(secondary_id) }
}

/// The corrections that take precedence over every mapping record.
pub open spec fn override_table() -> Map<Seq<char>, ResolvedIdentifier> {
    Map::<Seq<char>, ResolvedIdentifier>::empty()
        .insert("International_cricketers_of_South_African_origin"@, both(17416221, 258))
        .insert("Independence_Day_(film)"@, both(52389, 105387))
        .insert("Camelot,_Chesapeake,_Virginia"@, both(91342, 49222))
        .insert("SBC_Communications"@, both(26213969, 444015))
        .insert("Superman_(film)"@, both(28381, 79015))
        .insert("Rabobank_(cycling_team)"@, both(2354465, 6233))
        .insert("U._Chandana"@, both(896434, 3520028))
        .insert("LPGA_Championship"@, both(229059, 281917))
        .insert("Hapoel_Be'er_Sheva_A.F.C."@, both(5834903, 986529))
}

/// The table after one record is offered to it: the record is entered if its
/// title is wanted and has no entry yet, and ignored otherwise.
pub open spec fn offer(
    table: Map<Seq<char>, ResolvedIdentifier>,
    titles: Set<Seq<char>>,
    record: MappingRecordModel,
) -> Map<Seq<char>, ResolvedIdentifier> {
    if titles.contains(record.title) && !table.dom().contains(record.title) {
        table.insert(
            record.title,
            ResolvedIdentifier { primary_id: record.numeric_id, secondary_id: record.optional_id },
        )
    } else {
        table
    }
}

/// The table after `records` are offered to it in order.
pub open spec fn offer_all(
    table: Map<Seq<char>, ResolvedIdentifier>,
    titles: Set<Seq<char>>,
    records: Seq<MappingRecordModel>,
) -> Map<Seq<char>, ResolvedIdentifier>
    decreases records.len(),
{
    if records.len() == 0 {
        table
    } else {
        offer(offer_all(table, titles, records.drop_last()), titles, records.last())
    }
}

/// The table for the wanted `titles`: the corrections, then `records` in order.
pub open spec fn resolve(titles: Set<Seq<char>>, records: Seq<MappingRecordModel>) -> Map<
    Seq<char>,
    ResolvedIdentifier,
> {
    offer_all(override_table(), titles, records)
}

/// Enters a correction with both identifiers.
fn correct(table: &mut TitleTable, title: &str, primary_id: u32, secondary_id: u32)
    ensures
        final(table)@ == old(table)@.insert(title@, both(primary_id, secondary_id)),
{
    table.insert(
        title.to_owned(),
        ResolvedIdentifier { primary_id, secondary_id: Some(secondary_id) },
    );
}

/// The table that holds exactly the corrections.
pub fn manual_overrides() -> (table: TitleTable)
    ensures
        table@ == override_table(),
{
    let mut table = TitleTable::new();
    correct(&mut table, "International_cricketers_of_South_African_origin", 17416221, 258);
    correct(&mut table, "Independence_Day_(film)", 52389, 105387);
    correct(&mut table, "Camelot,_Chesapeake,_Virginia", 91342, 49222);
    correct(&mut table, "SBC_Communications", 26213969, 444015);
    correct(&mut table, "Superman_(film)", 28381, 79015);
    correct(&mut table, "Rabobank_(cycling_team)", 2354465, 6233);
    correct(&mut table, "U._Chandana", 896434, 3520028);
    correct(&mut table, "LPGA_Championship", 229059, 281917);
    correct(&mut table, "Hapoel_Be'er_Sheva_A.F.C.", 5834903, 986529);
    table
}

/// Offers one record to the table.
pub fn offer_record(table: &mut TitleTable, titles: &TitleSet, record: &MappingRecord)
    ensures
        final(table)@ == offer(old(table)@, titles@, record@),
{
    if titles.contains(record.title.as_str()) {
        table.try_insert(
            record.title.clone(),
            ResolvedIdentifier { primary_id: record.numeric_id, secondary_id: record.optional_id },
        );
    }
}

/// Builds the table for the wanted `titles` from the corrections and `records`.
pub fn build_mapping(titles: &TitleSet, records: &Vec<MappingRecord>) -> (table: TitleTable)
    ensures
        table@ == resolve(titles@, records_view(records@)),
{
    let ghost all = records_view(records@);
    let mut table = manual_overrides();
    let mut i: usize = 0;
    assert(all.take(0) =~= Seq::<MappingRecordModel>::empty());
    while i < records.len()
        invariant
            i <= records@.len(),
            all == records_view(records@),
            table@ == offer_all(override_table(), titles@, all.take(i as int)),
        decreases records@.len() - i,
    {
        proof {
            assert(all.take(i + 1).drop_last() =~= all.take(i as int));
            assert(all.take(i + 1).last() == records@[i as int]@);
        }
        offer_record(&mut table, titles, &records[i]);
        i += 1;
    }
    assert(all.take(records@.len() as int) =~= all);
    table
}

} // verus!
