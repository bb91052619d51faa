//! What holds of every title table built from the corrections and a stream
//! of mapping records.

use vstd::prelude::*;
use crate::mapping::{
    offer, offer_all, override_table, resolve, MappingRecordModel, ResolvedIdentifier,
};

verus! {

/// An entry, once made, stays as it is whatever is offered later.
pub proof fn lemma_entries_stay(
    table: Map<Seq<char>, ResolvedIdentifier>,
    titles: Set<Seq<char>>,
    records: Seq<MappingRecordModel>,
    title: Seq<char>,
)
    requires
        table.dom().contains(title),
    ensures
        offer_all(table, titles, records).dom().contains(title),
        offer_all(table, titles, records)[title] == table[title],
    decreases records.len(),
{
    if records.len() > 0 {
        lemma_entries_stay(table, titles, records.drop_last(), title);
    }
}

/// Corrections take precedence: a title among the corrections resolves to the
/// correction's identifiers, whatever the mapping records say of it.
pub proof fn lemma_override_precedence(
    titles: Set<Seq<char>>,
    records: Seq<MappingRecordModel>,
    title: Seq<char>,
)
    requires
        override_table().dom().contains(title),
    ensures
        resolve(titles, records).dom().contains(title),
        resolve(titles, records)[title] == override_table()[title],
{
    lemma_entries_stay(override_table(), titles, records, title);
}

/// The first record wins: a wanted title that is not among the corrections
/// resolves to the identifiers of the first record that carries it.
pub proof fn lemma_first_record_wins(
    titles: Set<Seq<char>>,
    records: Seq<MappingRecordModel>,
    first: int,
)
    requires
        0 <= first < records.len(),
        titles.contains(records[first].title),
        !override_table().dom().contains(records[first].title),
        forall|i: int| 0 <= i < first ==> (#[trigger] records[i]).title != records[first].title,
    ensures
        resolve(titles, records).dom().contains(records[first].title),
        resolve(titles, records)[records[first].title] == (ResolvedIdentifier {
            primary_id: records[first].numeric_id,
            secondary_id: records[first].optional_id,
        }),
{
    let title = records[first].title;
    let before = records.take(first);
    let upto = records.take(first + 1);
    assert forall|i: int| 0 <= i < before.len() implies (#[trigger] before[i]).title != title by {
        assert(before[i] == records[i]);
    }
    lemma_entries_only_from(override_table(), titles, before, title);
    assert(upto.drop_last() =~= before);
    assert(upto.last() == records[first]);
    let made = offer_all(override_table(), titles, upto);
    assert(made == offer(offer_all(override_table(), titles, before), titles, records[first]));
    lemma_offer_all_continues(override_table(), titles, records, first + 1);
    lemma_entries_stay(made, titles, records.skip(first + 1), title);
}

/// A title enters the table only through a record that carries it: without
/// such a record the table says of the title what it said before.
pub proof fn lemma_entries_only_from(
    table: Map<Seq<char>, ResolvedIdentifier>,
    titles: Set<Seq<char>>,
    records: Seq<MappingRecordModel>,
    title: Seq<char>,
)
    requires
        forall|i: int| 0 <= i < records.len() ==> (#[trigger] records[i]).title != title,
    ensures
        offer_all(table, titles, records).dom().contains(title) == table.dom().contains(title),
    decreases records.len(),
{
    if records.len() > 0 {
        let before = records.drop_last();
        assert forall|i: int| 0 <= i < before.len() implies (#[trigger] before[i]).title
            != title by {
            assert(before[i] == records[i]);
        }
        lemma_entries_only_from(table, titles, before, title);
        assert(records.last() == records[records.len() - 1]);
    }
}

/// Records for unwanted titles are skipped: a title that is neither wanted
/// nor among the corrections has no entry.
pub proof fn lemma_unwanted_titles_are_skipped(
    table: Map<Seq<char>, ResolvedIdentifier>,
    titles: Set<Seq<char>>,
    records: Seq<MappingRecordModel>,
    title: Seq<char>,
)
    requires
        !titles.contains(title),
    ensures
        offer_all(table, titles, records).dom().contains(title) == table.dom().contains(title),
    decreases records.len(),
{
    if records.len() > 0 {
        lemma_unwanted_titles_are_skipped(table, titles, records.drop_last(), title);
    }
}

/// Offering `records` is offering its first `cut` records and then the rest.
proof fn lemma_offer_all_continues(
    table: Map<Seq<char>, ResolvedIdentifier>,
    titles: Set<Seq<char>>,
    records: Seq<MappingRecordModel>,
    cut: int,
)
    requires
        0 <= cut <= records.len(),
    ensures
        offer_all(table, titles, records) == offer_all(
            offer_all(table, titles, records.take(cut)),
            titles,
            records.skip(cut),
        ),
    decreases records.len(),
{
    if cut == records.len() {
        assert(records.take(cut) =~= records);
        assert(records.skip(cut) =~= Seq::<MappingRecordModel>::empty());
    } else {
        let shorter = records.drop_last();
        lemma_offer_all_continues(table, titles, shorter, cut);
        assert(shorter.take(cut) =~= records.take(cut));
        assert(records.skip(cut).drop_last() =~= shorter.skip(cut));
        assert(records.skip(cut).last() == records.last());
    }
}

} // verus!
