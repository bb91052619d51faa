//! The columnar form of a dataset: one column per field, the mentions of all
//! records laid end to end with a list of offsets that says where the
//! mentions of each record start.

use vstd::prelude::*;
use crate::dataset::{DatasetRecord, Mention};

verus! {

/// The value type of a column.
#[derive(Clone, Copy, Debug, PartialEq, Eq, Structural)]
pub enum ValueType {
    /// Text.
    Utf8,
    /// An unsigned 32-bit integer.
    UInt32,
    /// A list of mentions, each a group of the mention fields.
    MentionList,
}

/// The name, value type and nullability of one column.
#[derive(Clone, Copy, Debug, PartialEq, Eq)]
pub struct Field {
    pub name: &'static str,
    pub value_type: ValueType,
    pub nullable: bool,
}

/// The columns of a record, in order: `id`, `document_id`, `text` and
/// `mentions`, none of them nullable.
pub fn record_fields() -> (fields: Vec<Field>)
    ensures
        fields@.len() == 4,
        fields@[0].name@ == "id"@ && fields@[0].value_type == ValueType::Utf8
            && !fields@[0].nullable,
        fields@[1].name@ == "document_id"@ && fields@[1].value_type == ValueType::UInt32
            && !fields@[1].nullable,
        fields@[2].name@ == "text"@ && fields@[2].value_type == ValueType::Utf8
            && !fields@[2].nullable,
        fields@[3].name@ == "mentions"@ && fields@[3].value_type == ValueType::MentionList
            && !fields@[3].nullable,
{
    let mut fields: Vec<Field> = Vec::new();
    fields.push(Field { name: "id", value_type: ValueType::Utf8, nullable: false });
    fields.push(Field { name: "document_id", value_type: ValueType::UInt32, nullable: false });
    fields.push(Field { name: "text", value_type: ValueType::Utf8, nullable: false });
    fields.push(Field { name: "mentions", value_type: ValueType::MentionList, nullable: false });
    fields
}

/// The fields of a mention, in order: `start` and `end`, not nullable, then
/// `primary_id` and `secondary_id`, nullable; all unsigned 32-bit integers.
pub fn mention_fields() -> (fields: Vec<Field>)
    ensures
        fields@.len() == 4,
        forall|i: int| 0 <= i < 4 ==> (#[trigger] fields@[i]).value_type == ValueType::UInt32,
        fields@[0].name@ == "start"@ && !fields@[0].nullable,
        fields@[1].name@ == "end"@ && !fields@[1].nullable,
        fields@[2].name@ == "primary_id"@ && fields@[2].nullable,
        fields@[3].name@ == "secondary_id"@ && fields@[3].nullable,
{
    let mut fields: Vec<Field> = Vec::new();
    fields.push(Field { name: "start", value_type: ValueType::UInt32, nullable: false });
    fields.push(Field { name: "end", value_type: ValueType::UInt32, nullable: false });
    fields.push(Field { name: "primary_id", value_type: ValueType::UInt32, nullable: true });
    fields.push(Field { name: "secondary_id", value_type: ValueType::UInt32, nullable: true });
    fields
}

/// The mentions of all records, one column per field.
#[derive(Clone, Debug, PartialEq, Eq)]
pub struct MentionColumns {
    pub start: Vec<u32>,
    pub end: Vec<u32>,
    pub primary_id: Vec<Option<u32>>,
    pub secondary_id: Vec<Option<u32>>,
}

/// A dataset, one column per field. `offsets` has one entry more than there
/// are records: the mentions of record `i` are those from index `offsets[i]`
/// up to index `offsets[i + 1]` of the mention columns.
#[derive(Clone, Debug, PartialEq, Eq)]
pub struct DatasetColumns {
    pub id: Vec<String>,
    pub document_id: Vec<u32>,
    pub text: Vec<String>,
    pub offsets: Vec<i32>,
    pub mentions: MentionColumns,
}

/// Why a dataset has no columnar form.
#[derive(Clone, Copy, Debug, PartialEq, Eq, Structural)]
pub enum ColumnError {
    /// The records hold more than `i32::MAX` mentions, so the offsets do not fit.
    TooManyMentions,
}

/// The mentions of `records`, laid end to end.
pub open spec fn all_mentions(records: Seq<DatasetRecord>) -> Seq<Mention>
    decreases records.len(),
{
    if records.len() == 0 {
        Seq::<Mention>::empty()
    } else {
        all_mentions(records.drop_last()) + records.last().mentions@
    }
}

impl MentionColumns {
    /// Whether the columns hold exactly `mentions`, field by field.
    pub open spec fn holds(&self, mentions: Seq<Mention>) -> bool {
        &&& self.start@.len() == mentions.len()
        &&& self.end@.len() == mentions.len()
        &&& self.primary_id@.len() == mentions.len()
        &&& self.secondary_id@.len() == mentions.len()
        &&& forall|k: int|
            0 <= k < mentions.len() ==> {
                &&& self.start@[k] == (#[trigger] mentions[k]).start
                &&& self.end@[k] == mentions[k].end
                &&& self.primary_id@[k] == mentions[k].primary_id
                &&& self.secondary_id@[k] == mentions[k].secondary_id
            }
    }
}

impl DatasetColumns {
    /// Whether the columns are the columnar form of `records`.
    pub open spec fn holds(&self, records: Seq<DatasetRecord>) -> bool {
        &&& self.id@.len() == records.len()
        &&& self.document_id@.len() == records.len()
        &&& self.text@.len() == records.len()
        &&& self.offsets@.len() == records.len() + 1
        &&& forall|i: int|
            0 <= i < records.len() ==> {
                &&& self.id@[i]@ == (#[trigger] records[i]).id@
                &&& self.document_id@[i] == records[i].document_id
                &&& self.text@[i]@ == records[i].text@
            }
        &&& forall|i: int|
            0 <= i <= records.len() ==> #[trigger] self.offsets@[i] == all_mentions(
                records.take(i),
            ).len()
        &&& self.mentions.holds(all_mentions(records))
    }
}

/// The mentions up to a record and its own are the mentions up to the next.
pub proof fn lemma_all_mentions_step(records: Seq<DatasetRecord>, i: int)
    requires
        0 <= i < records.len(),
    ensures
        all_mentions(records.take(i + 1)) == all_mentions(records.take(i)) + records[i].mentions@,
{
    assert(records.take(i + 1).drop_last() =~= records.take(i));
    assert(records.take(i + 1).last() == records[i]);
}

/// The columnar form of `records`, unless they hold more than `i32::MAX` mentions.
pub fn dataset_columns(records: &Vec<DatasetRecord>) -> (built: Result<
    DatasetColumns,
    ColumnError,
>)
    ensures
        match built {
            Ok(columns) => columns.holds(records@),
            Err(_) => all_mentions(records@).len() > i32::MAX,
        },
{
    let mut id: Vec<String> = Vec::new();
    let mut document_id: Vec<u32> = Vec::new();
    let mut text: Vec<String> = Vec::new();
    let mut offsets: Vec<i32> = Vec::new();
    let mut mentions = MentionColumns {
        start: Vec::new(),
        end: Vec::new(),
        primary_id: Vec::new(),
        secondary_id: Vec::new(),
    };
    let mut total: i32 = 0;
    offsets.push(0);
    let mut i: usize = 0;
    assert(records@.take(0) =~= Seq::<DatasetRecord>::empty());
    while i < records.len()
        invariant
            i <= records@.len(),
            id@.len() == i,
            document_id@.len() == i,
            text@.len() == i,
            offsets@.len() == i + 1,
            total == all_mentions(records@.take(i as int)).len(),
            forall|j: int|
                0 <= j < i ==> {
                    &&& id@[j]@ == (#[trigger] records@[j]).id@
                    &&& document_id@[j] == records@[j].document_id
                    &&& text@[j]@ == records@[j].text@
                },
            forall|j: int|
                0 <= j <= i ==> #[trigger] offsets@[j] == all_mentions(records@.take(j)).len(),
            mentions.holds(all_mentions(records@.take(i as int))),
        decreases records@.len() - i,
    {
        let record = &records[i];
        let ghost before = all_mentions(records@.take(i as int));
        proof {
            lemma_all_mentions_step(records@, i as int);
        }
        let count = record.mentions.len();
        if count > (i32::MAX - total) as usize {
            proof {
                lemma_all_mentions_grow(records@, i + 1);
            }
            return Err(ColumnError::TooManyMentions);
        }
        id.push(record.id.clone());
        document_id.push(record.document_id);
        text.push(record.text.clone());
        let mut k: usize = 0;
        while k < count
            invariant
                k <= count,
                count == record.mentions@.len(),
                mentions.holds(before + record.mentions@.take(k as int)),
            decreases count - k,
        {
            let mention = record.mentions[k];
            let ghost held = before + record.mentions@.take(k as int);
            mentions.start.push(mention.start);
            mentions.end.push(mention.end);
            mentions.primary_id.push(mention.primary_id);
            mentions.secondary_id.push(mention.secondary_id);
            assert(before + record.mentions@.take(k + 1) =~= held.push(mention));
            k += 1;
        }
        assert(record.mentions@.take(count as int) =~= record.mentions@);
        total = total + count as i32;
        offsets.push(total);
        i += 1;
    }
    assert(records@.take(records@.len() as int) =~= records@);
    Ok(DatasetColumns { id, document_id, text, offsets, mentions })
}

/// The mentions of the first records are among the mentions of all.
pub proof fn lemma_all_mentions_grow(records: Seq<DatasetRecord>, upto: int)
    requires
        0 <= upto <= records.len(),
    ensures
        all_mentions(records.take(upto)).len() <= all_mentions(records).len(),
    decreases records.len(),
{
    if upto == records.len() {
        assert(records.take(upto) =~= records);
    } else {
        assert(records.drop_last().take(upto) =~= records.take(upto));
        lemma_all_mentions_grow(records.drop_last(), upto);
    }
}

/// The columnar form loses nothing: two datasets with the same columns hold
/// the same records, field by field and mention by mention.
pub proof fn lemma_columns_determine_records(
    columns: DatasetColumns,
    first: Seq<DatasetRecord>,
    second: Seq<DatasetRecord>,
)
    requires
        columns.holds(first),
        columns.holds(second),
    ensures
        first.len() == second.len(),
        forall|i: int|
            0 <= i < first.len() ==> {
                &&& (#[trigger] first[i]).id@ == second[i].id@
                &&& first[i].document_id == second[i].document_id
                &&& first[i].text@ == second[i].text@
                &&& first[i].mentions@ == second[i].mentions@
            },
{
    assert forall|i: int| 0 <= i < first.len() implies {
        &&& (#[trigger] first[i]).id@ == second[i].id@
        &&& first[i].document_id == second[i].document_id
        &&& first[i].text@ == second[i].text@
        &&& first[i].mentions@ == second[i].mentions@
    } by {
        lemma_mentions_of_record(columns, first, i);
        lemma_mentions_of_record(columns, second, i);
        assert(columns.offsets@[i] == all_mentions(first.take(i)).len());
        assert(columns.offsets@[i + 1] == all_mentions(first.take(i + 1)).len());
        assert(columns.offsets@[i] == all_mentions(second.take(i)).len());
        assert(columns.offsets@[i + 1] == all_mentions(second.take(i + 1)).len());
        let a = first[i].mentions@;
        let b = second[i].mentions@;
        assert(a.len() == b.len());
        assert forall|k: int| 0 <= k < a.len() implies a[k] == b[k] by {
            let at = columns.offsets@[i] + k;
            assert(all_mentions(first)[at] == a[k]);
            assert(all_mentions(second)[at] == b[k]);
        }
        assert(a =~= b);
    }
}

/// The mentions of record `i` stand in the mention columns from its offset on.
proof fn lemma_mentions_of_record(columns: DatasetColumns, records: Seq<DatasetRecord>, i: int)
    requires
        0 <= i < records.len(),
    ensures
        all_mentions(records.take(i + 1)) == all_mentions(records.take(i)) + records[i].mentions@,
        all_mentions(records.take(i + 1)).len() <= all_mentions(records).len(),
        forall|k: int|
            0 <= k < records[i].mentions@.len() ==> all_mentions(records)[all_mentions(
                records.take(i),
            ).len() + k] == #[trigger] records[i].mentions@[k],
    decreases records.len(),
{
    lemma_all_mentions_step(records, i);
    lemma_all_mentions_grow(records, i + 1);
    if i + 1 < records.len() {
        let shorter = records.drop_last();
        assert(shorter.take(i) =~= records.take(i));
        assert(shorter.take(i + 1) =~= records.take(i + 1));
        assert(shorter[i] == records[i]);
        lemma_mentions_of_record(columns, shorter, i);
    } else {
        assert(records.take(i + 1) =~= records);
    }
}

} // verus!
