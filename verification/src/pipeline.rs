//! The whole conversion, from the lines of a corpus and the records of a
//! title mapping to the three datasets.

use vstd::prelude::*;
use crate::boundary::Split;
use crate::dataset::{assemble, generate_dataset, generated_from, AssemblyError, DatasetRecord};
use crate::mapping::{
    build_mapping, override_table, records_view, resolve, MappingRecord, MappingRecordModel,
    ResolvedIdentifier, TitleTable,
};
use crate::outcomes::lemma_unresolved_title_fails;
use crate::parser::{
    candidate_titles, classified, lines_view, parse_conll, split_tokens, LineModel, ParseError,
};
use crate::resolution::lemma_entries_only_from;
use crate::routing::lemma_candidate_has_token;
use crate::token::{tokens_view, TaggedToken, TokenModel};

verus! {

/// The three datasets of a corpus.
#[derive(Clone, Debug, PartialEq, Eq)]
pub struct Datasets {
    pub train: Vec<DatasetRecord>,
    pub validation: Vec<DatasetRecord>,
    pub test: Vec<DatasetRecord>,
}

/// Why a conversion failed.
#[derive(Clone, Debug, PartialEq, Eq)]
pub enum ConvertError {
    /// The corpus could not be parsed.
    Parse(ParseError),
    /// A partition could not be assembled.
    Assembly(AssemblyError),
}

/// Whether `outcome` is an outcome of assembling the three partitions in the
/// order `Train`, `Validation`, `Test`: a success holds an outcome for each;
/// a failure is that of the first partition that fails.
pub open spec fn all_generated_from(
    outcome: Result<Datasets, AssemblyError>,
    train: Seq<TokenModel>,
    validation: Seq<TokenModel>,
    test: Seq<TokenModel>,
    table: Map<Seq<char>, ResolvedIdentifier>,
) -> bool {
    match outcome {
        Ok(datasets) => {
            &&& generated_from(Ok::<Vec<DatasetRecord>, AssemblyError>(datasets.train), train, table)
            &&& generated_from(
                Ok::<Vec<DatasetRecord>, AssemblyError>(datasets.validation),
                validation,
                table,
            )
            &&& generated_from(Ok::<Vec<DatasetRecord>, AssemblyError>(datasets.test), test, table)
        },
        Err(error) => {
            let failure = Err::<Vec<DatasetRecord>, AssemblyError>(error);
            if assemble(train, table) is Err {
                generated_from(failure, train, table)
            } else if assemble(validation, table) is Err {
                generated_from(failure, validation, table)
            } else {
                generated_from(failure, test, table)
            }
        },
    }
}

/// Whether `outcome` is an outcome of converting lines that classify as
/// `lines` with `records`: the corpus is parsed, the table is built for the
/// titles it names, and the three partitions are assembled against it.
pub open spec fn converted_from(
    outcome: Result<Datasets, ConvertError>,
    lines: Seq<LineModel>,
    records: Seq<MappingRecordModel>,
) -> bool {
    let table = resolve(candidate_titles(lines), records);
    let train = split_tokens(lines, Split::Train);
    let validation = split_tokens(lines, Split::Validation);
    let test = split_tokens(lines, Split::Test);
    match outcome {
        Err(ConvertError::Parse(error)) => {
            &&& error.line < lines.len()
            &&& lines[error.line as int] == LineModel::BadBoundary
            &&& forall|i: int| 0 <= i < error.line ==> #[trigger] lines[i] != LineModel::BadBoundary
        },
        Err(ConvertError::Assembly(error)) => {
            &&& forall|i: int| 0 <= i < lines.len() ==> #[trigger] lines[i] != LineModel::BadBoundary
            &&& all_generated_from(
                Err::<Datasets, AssemblyError>(error),
                train,
                validation,
                test,
                table,
            )
        },
        Ok(datasets) => {
            &&& forall|i: int| 0 <= i < lines.len() ==> #[trigger] lines[i] != LineModel::BadBoundary
            &&& all_generated_from(
                Ok::<Datasets, AssemblyError>(datasets),
                train,
                validation,
                test,
                table,
            )
        },
    }
}

/// Assembles the three partitions against one table, `Train` first; nothing
/// is returned unless all three can be assembled.
pub fn generate_all(
    train: Vec<TaggedToken>,
    validation: Vec<TaggedToken>,
    test: Vec<TaggedToken>,
    mapping: &TitleTable,
) -> (outcome: Result<Datasets, AssemblyError>)
    ensures
        all_generated_from(
            outcome,
            tokens_view(train@),
            tokens_view(validation@),
            tokens_view(test@),
            mapping@,
        ),
{
    let train = match generate_dataset(train, mapping) {
        Ok(examples) => examples,
        Err(error) => {
            return Err(error);
        },
    };
    let validation = match generate_dataset(validation, mapping) {
        Ok(examples) => examples,
        Err(error) => {
            return Err(error);
        },
    };
    let test = match generate_dataset(test, mapping) {
        Ok(examples) => examples,
        Err(error) => {
            return Err(error);
        },
    };
    Ok(Datasets { train, validation, test })
}

/// Converts a corpus, given as its lines, with a title mapping, given as its
/// records, into the three datasets.
pub fn convert(lines: &Vec<String>, records: &Vec<MappingRecord>) -> (outcome: Result<
    Datasets,
    ConvertError,
>)
    ensures
        converted_from(outcome, classified(lines_view(lines@)), records_view(records@)),
{
    match parse_conll(lines) {
        Err(error) => Err(ConvertError::Parse(error)),
        Ok(((train, validation, test), titles)) => {
            let mapping = build_mapping(&titles, records);
            match generate_all(train, validation, test, &mapping) {
                Ok(datasets) => Ok(datasets),
                Err(error) => Err(ConvertError::Assembly(error)),
            }
        },
    }
}

/// A collected title without an entry in the table makes generation fail:
/// no dataset is produced, whichever partition the title occurs in.
pub proof fn lemma_missing_title_fails_generation(
    lines: Seq<LineModel>,
    table: Map<Seq<char>, ResolvedIdentifier>,
    title: Seq<char>,
    outcome: Result<Datasets, AssemblyError>,
)
    requires
        candidate_titles(lines).contains(title),
        !table.dom().contains(title),
        all_generated_from(
            outcome,
            split_tokens(lines, Split::Train),
            split_tokens(lines, Split::Validation),
            split_tokens(lines, Split::Test),
            table,
        ),
    ensures
        outcome is Err,
{
    let place = lemma_candidate_has_token(lines, title);
    lemma_unresolved_title_fails(split_tokens(lines, place.0), table, place.1);
}

/// A collected title that is neither among the corrections nor carried by any
/// mapping record makes the conversion fail: no dataset is produced.
pub proof fn lemma_unresolved_candidate_aborts(
    lines: Seq<LineModel>,
    records: Seq<MappingRecordModel>,
    title: Seq<char>,
    outcome: Result<Datasets, ConvertError>,
)
    requires
        converted_from(outcome, lines, records),
        candidate_titles(lines).contains(title),
        !override_table().dom().contains(title),
        forall|i: int| 0 <= i < records.len() ==> (#[trigger] records[i]).title != title,
    ensures
        outcome is Err,
{
    let table = resolve(candidate_titles(lines), records);
    lemma_entries_only_from(override_table(), candidate_titles(lines), records, title);
    let place = lemma_candidate_has_token(lines, title);
    lemma_unresolved_title_fails(split_tokens(lines, place.0), table, place.1);
}

} // verus!
