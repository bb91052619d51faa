//! The document assembler: regroups the tokens of one partition into
//! documents and the tokens of a document into mentions, rebuilds the text and
//! computes the character offsets of every mention.

use vstd::prelude::*;
use vstd::string::*;
use crate::ident::{fresh_uuid, is_random_uuid_text};
use crate::mapping::{ResolvedIdentifier, TitleTable};
use crate::text::join_words;
use crate::token::{same_tag, tokens_view, EntityTag, TagModel, TaggedToken, TokenModel};

verus! {

/// One mention: a character range of the document text with the identifiers
/// of the entity it names, where known.
#[derive(Clone, Copy, Debug, PartialEq, Eq)]
pub struct Mention {
    pub start: u32,
    pub end: u32,
    pub primary_id: Option<u32>,
    pub secondary_id: Option<u32>,
}

/// One document of the dataset.
#[derive(Clone, Debug, PartialEq, Eq)]
pub struct DatasetRecord {
    pub id: String,
    pub document_id: u32,
    pub text: String,
    pub mentions: Vec<Mention>,
}

/// What a document holds apart from its identifier.
pub struct DocumentModel {
    pub document_id: u32,
    pub text: Seq<char>,
    pub mentions: Seq<Mention>,
}

impl DatasetRecord {
    /// Everything but the identifier.
    pub open spec fn content(&self) -> DocumentModel {
        DocumentModel {
            document_id: self.document_id,
            text: self.text@,
            mentions: self.mentions@,
        }
    }
}

/// The contents of a sequence of records.
pub open spec fn contents(records: Seq<DatasetRecord>) -> Seq<DocumentModel> {
    Seq::new(records.len(), |i: int| records[i].content())
}

/// Why a partition cannot be assembled.
#[derive(Clone, Debug, PartialEq, Eq)]
pub enum AssemblyError {
    /// A mention names a title that the table has no entry for.
    UnresolvedTitle(String),
    /// A mention of this document would end beyond offset `u32::MAX`.
    OffsetOverflow(u32),
}

/// The mathematical value of an `AssemblyError`.
pub enum AssemblyErrorModel {
    UnresolvedTitle(Seq<char>),
    OffsetOverflow(u32),
}

impl View for AssemblyError {
    type V = AssemblyErrorModel;

    open spec fn view(&self) -> AssemblyErrorModel {
        match self {
            AssemblyError::UnresolvedTitle(title) => AssemblyErrorModel::UnresolvedTitle(title@),
            AssemblyError::OffsetOverflow(document_id) => AssemblyErrorModel::OffsetOverflow(
                *document_id,
            ),
        }
    }
}

/// Scanning from `at`, the first index whose token is not of the document of
/// `tokens[start]` (or the length): with `at == start`, the end of the
/// document that starts at `start`.
pub open spec fn document_end(tokens: Seq<TokenModel>, start: int, at: int) -> int
    decreases tokens.len() - at,
{
    if 0 <= start <= at < tokens.len() && tokens[at].document_id == tokens[start].document_id {
        document_end(tokens, start, at + 1)
    } else {
        at
    }
}

/// Scanning from `at`, the first index below `limit` whose token is tagged
/// otherwise than `tokens[start]` (or `limit`): with `at == start`, the end of
/// the mention that starts at `start`.
pub open spec fn mention_end(tokens: Seq<TokenModel>, start: int, at: int, limit: int) -> int
    decreases limit - at,
{
    if 0 <= start <= at < limit <= tokens.len() && tokens[at].tag == tokens[start].tag {
        mention_end(tokens, start, at + 1, limit)
    } else {
        at
    }
}

/// The texts of `tokens[from..to]`.
pub open spec fn words(tokens: Seq<TokenModel>, from: int, to: int) -> Seq<Seq<char>> {
    Seq::new((to - from) as nat, |k: int| tokens[from + k].text)
}

/// The texts of `tokens[from..to]` joined by single spaces.
pub open spec fn surface(tokens: Seq<TokenModel>, from: int, to: int) -> Seq<char> {
    join_words(words(tokens, from, to))
}

/// Where a piece of text starts that is appended to `text`: after a
/// separating space, unless `text` is empty.
pub open spec fn next_start(text: Seq<char>) -> nat {
    if text.len() == 0 {
        0
    } else {
        text.len() + 1
    }
}

/// `text` with `piece` appended, separated by a space unless `text` is empty.
pub open spec fn appended(text: Seq<char>, piece: Seq<char>) -> Seq<char> {
    if text.len() == 0 {
        piece
    } else {
        text + seq![' '] + piece
    }
}

/// The document after one more run of equally tagged tokens: its surface
/// text is appended, and unless the run is untagged a mention is recorded for
/// it, with the identifiers of its title where it has one.
pub open spec fn add_mention(
    text: Seq<char>,
    mentions: Seq<Mention>,
    tag: TagModel,
    piece: Seq<char>,
    table: Map<Seq<char>, ResolvedIdentifier>,
    document_id: u32,
) -> Result<(Seq<char>, Seq<Mention>), AssemblyErrorModel> {
    let start = next_start(text);
    let end = start + piece.len();
    match tag {
        TagModel::NoEntity => Ok((appended(text, piece), mentions)),
        TagModel::OutOfMapping => if end > u32::MAX {
            Err(AssemblyErrorModel::OffsetOverflow(document_id))
        } else {
            Ok(
                (
                    appended(text, piece),
                    mentions.push(
                        Mention {
                            start: start as u32,
                            end: end as u32,
                            primary_id: None,
                            secondary_id: None,
                        },
                    ),
                ),
            )
        },
        TagModel::Candidate(title) => if end > u32::MAX {
            Err(AssemblyErrorModel::OffsetOverflow(document_id))
        } else if !table.dom().contains(title) {
            Err(AssemblyErrorModel::UnresolvedTitle(title))
        } else {
            Ok(
                (
                    appended(text, piece),
                    mentions.push(
                        Mention {
                            start: start as u32,
                            end: end as u32,
                            primary_id: Some(table[title].primary_id),
                            secondary_id: table[title].secondary_id,
                        },
                    ),
                ),
            )
        },
    }
}

/// A mention ends after its first token and within its document.
pub proof fn lemma_mention_end_bounds(tokens: Seq<TokenModel>, start: int, at: int, limit: int)
    requires
        0 <= start <= at <= limit <= tokens.len(),
    ensures
        at <= mention_end(tokens, start, at, limit) <= limit,
        start == at && at < limit ==> at < mention_end(tokens, start, at, limit),
    decreases limit - at,
{
    if at < limit && tokens[at].tag == tokens[start].tag {
        lemma_mention_end_bounds(tokens, start, at + 1, limit);
    }
}

/// A document ends after its first token and within the partition.
pub proof fn lemma_document_end_bounds(tokens: Seq<TokenModel>, start: int, at: int)
    requires
        0 <= start <= at <= tokens.len(),
    ensures
        at <= document_end(tokens, start, at) <= tokens.len(),
        start == at && at < tokens.len() ==> at < document_end(tokens, start, at),
    decreases tokens.len() - at,
{
    if at < tokens.len() && tokens[at].document_id == tokens[start].document_id {
        lemma_document_end_bounds(tokens, start, at + 1);
    }
}

/// The text and mentions of the document `tokens[start..limit]`, continuing
/// from what earlier runs gave: the runs of equally tagged tokens are taken
/// in order, and the first one that fails decides.
pub open spec fn assemble_mentions(
    tokens: Seq<TokenModel>,
    table: Map<Seq<char>, ResolvedIdentifier>,
    document_id: u32,
    start: int,
    limit: int,
    text: Seq<char>,
    mentions: Seq<Mention>,
) -> Result<(Seq<char>, Seq<Mention>), AssemblyErrorModel>
    decreases limit - start,
{
    if start < 0 || start >= limit || limit > tokens.len() {
        Ok((text, mentions))
    } else {
        let stop = mention_end(tokens, start, start, limit);
        proof {
            lemma_mention_end_bounds(tokens, start, start, limit);
        }
        match add_mention(
            text,
            mentions,
            tokens[start].tag,
            surface(tokens, start, stop),
            table,
            document_id,
        ) {
            Err(error) => Err(error),
            Ok((longer, more)) => assemble_mentions(
                tokens,
                table,
                document_id,
                stop,
                limit,
                longer,
                more,
            ),
        }
    }
}

/// The documents of `tokens[start..]` appended to `done`: the runs of tokens
/// with one document number are taken in order, and the first one that fails
/// decides.
pub open spec fn assemble_documents(
    tokens: Seq<TokenModel>,
    table: Map<Seq<char>, ResolvedIdentifier>,
    start: int,
    done: Seq<DocumentModel>,
) -> Result<Seq<DocumentModel>, AssemblyErrorModel>
    decreases tokens.len() - start,
{
    if start < 0 || start >= tokens.len() {
        Ok(done)
    } else {
        let stop = document_end(tokens, start, start);
        proof {
            lemma_document_end_bounds(tokens, start, start);
        }
        let document_id = tokens[start].document_id;
        match assemble_mentions(
            tokens,
            table,
            document_id,
            start,
            stop,
            Seq::<char>::empty(),
            Seq::<Mention>::empty(),
        ) {
            Err(error) => Err(error),
            Ok((text, mentions)) => assemble_documents(
                tokens,
                table,
                stop,
                done.push(DocumentModel { document_id, text, mentions }),
            ),
        }
    }
}

/// The documents of a partition, or the first failure.
pub open spec fn assemble(
    tokens: Seq<TokenModel>,
    table: Map<Seq<char>, ResolvedIdentifier>,
) -> Result<Seq<DocumentModel>, AssemblyErrorModel> {
    assemble_documents(tokens, table, 0, Seq::<DocumentModel>::empty())
}

/// The end of the mention that starts at `start` in the document that ends at `limit`.
fn mention_stop(tokens: &Vec<TaggedToken>, start: usize, limit: usize) -> (stop: usize)
    requires
        start < limit <= tokens@.len(),
    ensures
        stop == mention_end(tokens_view(tokens@), start as int, start as int, limit as int),
        start < stop <= limit,
{
    let ghost model = tokens_view(tokens@);
    let mut stop: usize = start + 1;
    assert(model[start as int].tag == model[start as int].tag);
    while stop < limit
        invariant
            start < stop <= limit <= tokens@.len(),
            model == tokens_view(tokens@),
            mention_end(model, start as int, start as int, limit as int) == mention_end(
                model,
                start as int,
                stop as int,
                limit as int,
            ),
        decreases limit - stop,
    {
        assert(model[stop as int] == tokens@[stop as int]@);
        assert(model[start as int] == tokens@[start as int]@);
        if !same_tag(&tokens[stop].tag, &tokens[start].tag) {
            return stop;
        }
        stop += 1;
    }
    stop
}

/// The end of the document that starts at `start`.
fn document_stop(tokens: &Vec<TaggedToken>, start: usize) -> (stop: usize)
    requires
        start < tokens@.len(),
    ensures
        stop == document_end(tokens_view(tokens@), start as int, start as int),
        start < stop <= tokens@.len(),
{
    let ghost model = tokens_view(tokens@);
    let n = tokens.len();
    let mut stop: usize = start + 1;
    while stop < n
        invariant
            n == tokens@.len(),
            start < stop <= tokens@.len(),
            model == tokens_view(tokens@),
            document_end(model, start as int, start as int) == document_end(
                model,
                start as int,
                stop as int,
            ),
        decreases tokens@.len() - stop,
    {
        assert(model[stop as int] == tokens@[stop as int]@);
        assert(model[start as int] == tokens@[start as int]@);
        if tokens[stop].document_id != tokens[start].document_id {
            return stop;
        }
        stop += 1;
    }
    stop
}

/// The texts of `tokens[from..to]` joined by single spaces.
fn join_tokens(tokens: &Vec<TaggedToken>, from: usize, to: usize) -> (joined: String)
    requires
        from <= to <= tokens@.len(),
    ensures
        joined@ == surface(tokens_view(tokens@), from as int, to as int),
{
    let ghost model = tokens_view(tokens@);
    let mut joined = String::new();
    let mut k: usize = from;
    assert(words(model, from as int, from as int) =~= Seq::<Seq<char>>::empty());
    while k < to
        invariant
            from <= k <= to <= tokens@.len(),
            model == tokens_view(tokens@),
            joined@ == surface(model, from as int, k as int),
        decreases to - k,
    {
        proof {
            reveal_strlit(" ");
            let longer = words(model, from as int, k + 1);
            assert(longer.drop_last() =~= words(model, from as int, k as int));
            assert(longer.last() == tokens@[k as int]@.text);
            assert(" "@ =~= seq![' ']);
        }
        if k > from {
            joined.append(" ");
        }
        joined.append(tokens[k].text.as_str());
        proof {
            if k == from {
                assert(joined@ =~= tokens@[k as int]@.text);
                assert(words(model, from as int, k + 1)[0] == tokens@[k as int]@.text);
            }
        }
        k += 1;
    }
    joined
}

/// The offsets of a piece of `piece_len` characters appended to a text of
/// `text_len` characters: it starts at the end of the text, after one
/// separating space unless the text is empty. `None` if its end exceeds
/// `u32::MAX`.
pub fn mention_span(text_len: usize, piece_len: usize) -> (span: Option<(u32, u32)>)
    ensures
        span == if text_len == 0 {
            if piece_len <= u32::MAX {
                Some((0u32, piece_len as u32))
            } else {
                None
            }
        } else {
            if text_len + 1 + piece_len <= u32::MAX {
                Some(((text_len + 1) as u32, (text_len + 1 + piece_len) as u32))
            } else {
                None
            }
        },
{
    if text_len > 0xFFFF_FFFF || piece_len > 0xFFFF_FFFF {
        return None;
    }
    let start: u64 = if text_len == 0 {
        0
    } else {
        text_len as u64 + 1
    };
    let end: u64 = start + piece_len as u64;
    if end > 0xFFFF_FFFF {
        None
    } else {
        Some((start as u32, end as u32))
    }
}

/// Assembles the document made of `tokens[start..end]` under the given
/// identifier and document number.
///
/// With `start == end` the document has an empty text and no mentions.
pub fn assemble_document(
    id: String,
    document_id: u32,
    tokens: &Vec<TaggedToken>,
    start: usize,
    end: usize,
    mapping: &TitleTable,
) -> (built: Result<DatasetRecord, AssemblyError>)
    requires
        start <= end <= tokens@.len(),
    ensures
        match built {
            Ok(record) => {
                &&& record.id@ == id@
                &&& record.document_id == document_id
                &&& assemble_mentions(
                    tokens_view(tokens@),
                    mapping@,
                    document_id,
                    start as int,
                    end as int,
                    Seq::<char>::empty(),
                    Seq::<Mention>::empty(),
                ) == Ok::<(Seq<char>, Seq<Mention>), AssemblyErrorModel>(
                    (record.text@, record.mentions@),
                )
            },
            Err(error) => assemble_mentions(
                tokens_view(tokens@),
                mapping@,
                document_id,
                start as int,
                end as int,
                Seq::<char>::empty(),
                Seq::<Mention>::empty(),
            ) == Err::<(Seq<char>, Seq<Mention>), AssemblyErrorModel>(error@),
        },
{
    let ghost model = tokens_view(tokens@);
    let ghost table = mapping@;
    let mut text = String::new();
    let mut mentions: Vec<Mention> = Vec::new();
    let mut at: usize = start;
    while at < end
        invariant
            start <= at <= end <= tokens@.len(),
            model == tokens_view(tokens@),
            table == mapping@,
            assemble_mentions(
                model,
                table,
                document_id,
                start as int,
                end as int,
                Seq::<char>::empty(),
                Seq::<Mention>::empty(),
            ) == assemble_mentions(
                model,
                table,
                document_id,
                at as int,
                end as int,
                text@,
                mentions@,
            ),
        decreases end - at,
    {
        let stop = mention_stop(tokens, at, end);
        let piece = join_tokens(tokens, at, stop);
        let text_len = text.as_str().unicode_len();
        let piece_len = piece.as_str().unicode_len();
        let ghost old_text = text@;
        let ghost old_mentions = mentions@;
        let ghost step = add_mention(
            old_text,
            old_mentions,
            model[at as int].tag,
            piece@,
            table,
            document_id,
        );
        assert(model[at as int] == tokens@[at as int]@);
        match &tokens[at].tag {
            EntityTag::NoEntity => {},
            EntityTag::OutOfMapping => {
                match mention_span(text_len, piece_len) {
                    None => {
                        return Err(AssemblyError::OffsetOverflow(document_id));
                    },
                    Some((first, last)) => {
                        mentions.push(
                            Mention {
                                start: first,
                                end: last,
                                primary_id: None,
                                secondary_id: None,
                            },
                        );
                    },
                }
            },
            EntityTag::Candidate(title) => {
                match mention_span(text_len, piece_len) {
                    None => {
                        return Err(AssemblyError::OffsetOverflow(document_id));
                    },
                    Some((first, last)) => {
                        match mapping.get(title.as_str()) {
                            None => {
                                return Err(AssemblyError::UnresolvedTitle(title.clone()));
                            },
                            Some(ids) => {
                                mentions.push(
                                    Mention {
                                        start: first,
                                        end: last,
                                        primary_id: Some(ids.primary_id),
                                        secondary_id: ids.secondary_id,
                                    },
                                );
                            },
                        }
                    },
                }
            },
        }
        proof {
            reveal_strlit(" ");
            assert(" "@ =~= seq![' ']);
        }
        if text_len > 0 {
            text.append(" ");
        }
        text.append(piece.as_str());
        assert(text@ =~= appended(old_text, piece@));
        assert(step == Ok::<(Seq<char>, Seq<Mention>), AssemblyErrorModel>((text@, mentions@)));
        at = stop;
    }
    Ok(DatasetRecord { id, document_id, text, mentions })
}

/// Whether `generated` is an outcome of assembling `tokens` against `table`:
/// on success the documents are those of `assemble` and every identifier has
/// the shape of a random UUID; on failure the error is that of `assemble`.
pub open spec fn generated_from(
    generated: Result<Vec<DatasetRecord>, AssemblyError>,
    tokens: Seq<TokenModel>,
    table: Map<Seq<char>, ResolvedIdentifier>,
) -> bool {
    match generated {
        Ok(examples) => {
            &&& assemble(tokens, table) == Ok::<Seq<DocumentModel>, AssemblyErrorModel>(
                contents(examples@),
            )
            &&& forall|i: int|
                0 <= i < examples@.len() ==> is_random_uuid_text((#[trigger] examples@[i]).id@)
        },
        Err(error) => assemble(tokens, table) == Err::<Seq<DocumentModel>, AssemblyErrorModel>(
            error@,
        ),
    }
}

/// Assembly is deterministic but for the identifiers: two outcomes for the
/// same tokens and table either both fail, with the same error, or both
/// succeed, with documents that agree in number, order, document number,
/// text and mentions.
pub proof fn lemma_generation_is_determined(
    tokens: Seq<TokenModel>,
    table: Map<Seq<char>, ResolvedIdentifier>,
    first: Result<Vec<DatasetRecord>, AssemblyError>,
    second: Result<Vec<DatasetRecord>, AssemblyError>,
)
    requires
        generated_from(first, tokens, table),
        generated_from(second, tokens, table),
    ensures
        first is Ok <==> second is Ok,
        first is Err ==> first->Err_0@ == second->Err_0@,
        first is Ok ==> {
            &&& first->Ok_0@.len() == second->Ok_0@.len()
            &&& forall|i: int|
                0 <= i < first->Ok_0@.len() ==> (#[trigger] first->Ok_0@[i]).content()
                    == second->Ok_0@[i].content()
        },
{
    if first is Ok {
        let a = first->Ok_0@;
        let b = second->Ok_0@;
        assert(contents(a) == contents(b));
        assert(contents(a).len() == contents(b).len());
        assert forall|i: int| 0 <= i < a.len() implies (#[trigger] a[i]).content()
            == b[i].content() by {
            assert(contents(a)[i] == contents(b)[i]);
        }
    }
}

/// Assembles the documents of one partition.
///
/// Tokens with one document number that follow each other make one
/// document, so a document number that no token carries gives no document;
/// within a document, tokens with one tag that follow each other make one
/// piece of text and, unless untagged, one mention. Fails on the first mention
/// whose title has no entry in `mapping` or whose end offset exceeds
/// `u32::MAX`. Every document gets a fresh random identifier; everything else
/// is determined by the arguments.
pub fn generate_dataset(split: Vec<TaggedToken>, mapping: &TitleTable) -> (generated: Result<
    Vec<DatasetRecord>,
    AssemblyError,
>)
    ensures
        generated_from(generated, tokens_view(split@), mapping@),
{
    let ghost model = tokens_view(split@);
    let ghost table = mapping@;
    let mut examples: Vec<DatasetRecord> = Vec::new();
    let mut at: usize = 0;
    assert(contents(examples@) =~= Seq::<DocumentModel>::empty());
    while at < split.len()
        invariant
            at <= split@.len(),
            model == tokens_view(split@),
            table == mapping@,
            assemble(model, table) == assemble_documents(
                model,
                table,
                at as int,
                contents(examples@),
            ),
            forall|i: int|
                0 <= i < examples@.len() ==> is_random_uuid_text((#[trigger] examples@[i]).id@),
        decreases split@.len() - at,
    {
        let stop = document_stop(&split, at);
        let document_id = split[at].document_id;
        assert(model[at as int] == split@[at as int]@);
        let ghost done = contents(examples@);
        match assemble_document(fresh_uuid(), document_id, &split, at, stop, mapping) {
            Err(error) => {
                return Err(error);
            },
            Ok(record) => {
                examples.push(record);
                assert(contents(examples@) =~= done.push(record.content()));
            },
        }
        at = stop;
    }
    Ok(examples)
}

} // verus!
