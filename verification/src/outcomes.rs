//! When assembly succeeds and what its errors mean.

use vstd::prelude::*;
use crate::dataset::{
    add_mention, appended, assemble, assemble_documents, assemble_mentions, document_end,
    lemma_document_end_bounds, lemma_mention_end_bounds, mention_end, next_start, surface,
    AssemblyErrorModel, DocumentModel, Mention,
};
use crate::mapping::ResolvedIdentifier;
use crate::token::{TagModel, TokenModel};

verus! {

/// Whether every title that tags a token has an entry in the table.
pub open spec fn titles_resolve(
    tokens: Seq<TokenModel>,
    table: Map<Seq<char>, ResolvedIdentifier>,
) -> bool {
    forall|k: int|
        0 <= k < tokens.len() && (#[trigger] tokens[k]).tag is Candidate ==> table.dom().contains(
            tokens[k].tag->Candidate_0,
        )
}

/// The text of the document `tokens[start..limit]`, continuing from `text`:
/// the joined texts of its runs of equally tagged tokens, appended in order.
pub open spec fn text_from(tokens: Seq<TokenModel>, start: int, limit: int, text: Seq<char>) -> Seq<
    char,
>
    decreases limit - start,
{
    if start < 0 || start >= limit || limit > tokens.len() {
        text
    } else {
        let stop = mention_end(tokens, start, start, limit);
        proof {
            lemma_mention_end_bounds(tokens, start, start, limit);
        }
        text_from(tokens, stop, limit, appended(text, surface(tokens, start, stop)))
    }
}

/// Whether the text of every document of `tokens[start..]` has at most
/// `u32::MAX` characters.
pub open spec fn texts_fit(tokens: Seq<TokenModel>, start: int) -> bool
    decreases tokens.len() - start,
{
    if start < 0 || start >= tokens.len() {
        true
    } else {
        let stop = document_end(tokens, start, start);
        proof {
            lemma_document_end_bounds(tokens, start, start);
        }
        text_from(tokens, start, stop, Seq::<char>::empty()).len() <= u32::MAX && texts_fit(
            tokens,
            stop,
        )
    }
}

/// The text only grows.
proof fn lemma_text_from_grows(tokens: Seq<TokenModel>, start: int, limit: int, text: Seq<char>)
    ensures
        text.len() <= text_from(tokens, start, limit, text).len(),
    decreases limit - start,
{
    if !(start < 0 || start >= limit || limit > tokens.len()) {
        let stop = mention_end(tokens, start, start, limit);
        lemma_mention_end_bounds(tokens, start, start, limit);
        lemma_text_from_grows(tokens, stop, limit, appended(text, surface(tokens, start, stop)));
    }
}

/// All tokens of a mention carry the tag of its first token.
pub proof fn lemma_mention_shares_tag(
    tokens: Seq<TokenModel>,
    start: int,
    at: int,
    limit: int,
    inside: int,
)
    requires
        0 <= start <= at <= inside < mention_end(tokens, start, at, limit),
        limit <= tokens.len(),
    ensures
        tokens[inside].tag == tokens[start].tag,
    decreases limit - at,
{
    if at < limit && tokens[at].tag == tokens[start].tag {
        if inside > at {
            lemma_mention_shares_tag(tokens, start, at + 1, limit, inside);
        }
    }
}

proof fn lemma_mentions_succeed(
    tokens: Seq<TokenModel>,
    table: Map<Seq<char>, ResolvedIdentifier>,
    document_id: u32,
    start: int,
    limit: int,
    text: Seq<char>,
    mentions: Seq<Mention>,
)
    requires
        0 <= start <= limit <= tokens.len(),
        titles_resolve(tokens, table),
        text_from(tokens, start, limit, text).len() <= u32::MAX,
    ensures
        assemble_mentions(tokens, table, document_id, start, limit, text, mentions) is Ok,
        assemble_mentions(tokens, table, document_id, start, limit, text, mentions)->Ok_0.0
            == text_from(tokens, start, limit, text),
    decreases limit - start,
{
    if start < limit {
        let stop = mention_end(tokens, start, start, limit);
        lemma_mention_end_bounds(tokens, start, start, limit);
        let piece = surface(tokens, start, stop);
        let longer = appended(text, piece);
        lemma_text_from_grows(tokens, stop, limit, longer);
        assert(next_start(text) + piece.len() == longer.len());
        assert(tokens[start].tag is Candidate ==> table.dom().contains(
            tokens[start].tag->Candidate_0,
        ));
        let step = add_mention(text, mentions, tokens[start].tag, piece, table, document_id);
        assert(step is Ok);
        let pair = step->Ok_0;
        assert(pair.0 == longer);
        lemma_mentions_succeed(tokens, table, document_id, stop, limit, longer, pair.1);
    }
}

proof fn lemma_documents_succeed(
    tokens: Seq<TokenModel>,
    table: Map<Seq<char>, ResolvedIdentifier>,
    start: int,
    done: Seq<DocumentModel>,
)
    requires
        0 <= start <= tokens.len(),
        titles_resolve(tokens, table),
        texts_fit(tokens, start),
    ensures
        assemble_documents(tokens, table, start, done) is Ok,
    decreases tokens.len() - start,
{
    if start < tokens.len() {
        let stop = document_end(tokens, start, start);
        lemma_document_end_bounds(tokens, start, start);
        let document_id = tokens[start].document_id;
        lemma_mentions_succeed(
            tokens,
            table,
            document_id,
            start,
            stop,
            Seq::<char>::empty(),
            Seq::<Mention>::empty(),
        );
        let built = assemble_mentions(
            tokens,
            table,
            document_id,
            start,
            stop,
            Seq::<char>::empty(),
            Seq::<Mention>::empty(),
        )->Ok_0;
        lemma_documents_succeed(
            tokens,
            table,
            stop,
            done.push(DocumentModel { document_id, text: built.0, mentions: built.1 }),
        );
    }
}

/// Success is owed where every title has an entry and every document text
/// has at most `u32::MAX` characters.
pub proof fn lemma_assembly_succeeds(
    tokens: Seq<TokenModel>,
    table: Map<Seq<char>, ResolvedIdentifier>,
)
    requires
        titles_resolve(tokens, table),
        texts_fit(tokens, 0),
    ensures
        assemble(tokens, table) is Ok,
{
    lemma_documents_succeed(tokens, table, 0, Seq::<DocumentModel>::empty());
}

proof fn lemma_mentions_failure(
    tokens: Seq<TokenModel>,
    table: Map<Seq<char>, ResolvedIdentifier>,
    document_id: u32,
    start: int,
    limit: int,
    text: Seq<char>,
    mentions: Seq<Mention>,
) -> (at: int)
    requires
        0 <= start <= limit <= tokens.len(),
        assemble_mentions(tokens, table, document_id, start, limit, text, mentions) is Err,
    ensures
        match assemble_mentions(tokens, table, document_id, start, limit, text, mentions)->Err_0 {
            AssemblyErrorModel::UnresolvedTitle(title) => {
                &&& start <= at < limit
                &&& tokens[at].tag == TagModel::Candidate(title)
                &&& !table.dom().contains(title)
            },
            AssemblyErrorModel::OffsetOverflow(document) => {
                &&& document == document_id
                &&& text_from(tokens, start, limit, text).len() > u32::MAX
            },
        },
    decreases limit - start,
{
    let stop = mention_end(tokens, start, start, limit);
    lemma_mention_end_bounds(tokens, start, start, limit);
    let piece = surface(tokens, start, stop);
    let longer = appended(text, piece);
    let step = add_mention(text, mentions, tokens[start].tag, piece, table, document_id);
    assert(next_start(text) + piece.len() == longer.len());
    if step is Err {
        lemma_text_from_grows(tokens, stop, limit, longer);
        start
    } else {
        let pair = step->Ok_0;
        assert(pair.0 == longer);
        lemma_mentions_failure(tokens, table, document_id, stop, limit, longer, pair.1)
    }
}

proof fn lemma_documents_failure(
    tokens: Seq<TokenModel>,
    table: Map<Seq<char>, ResolvedIdentifier>,
    start: int,
    done: Seq<DocumentModel>,
) -> (at: int)
    requires
        0 <= start <= tokens.len(),
        assemble_documents(tokens, table, start, done) is Err,
    ensures
        match assemble_documents(tokens, table, start, done)->Err_0 {
            AssemblyErrorModel::UnresolvedTitle(title) => {
                &&& 0 <= at < tokens.len()
                &&& tokens[at].tag == TagModel::Candidate(title)
                &&& !table.dom().contains(title)
            },
            AssemblyErrorModel::OffsetOverflow(document) => {
                &&& start <= at < tokens.len()
                &&& tokens[at].document_id == document
                &&& !texts_fit(tokens, start)
            },
        },
    decreases tokens.len() - start,
{
    let stop = document_end(tokens, start, start);
    lemma_document_end_bounds(tokens, start, start);
    let document_id = tokens[start].document_id;
    let built = assemble_mentions(
        tokens,
        table,
        document_id,
        start,
        stop,
        Seq::<char>::empty(),
        Seq::<Mention>::empty(),
    );
    if built is Err {
        let at = lemma_mentions_failure(
            tokens,
            table,
            document_id,
            start,
            stop,
            Seq::<char>::empty(),
            Seq::<Mention>::empty(),
        );
        if built->Err_0 is UnresolvedTitle {
            at
        } else {
            start
        }
    } else {
        let pair = built->Ok_0;
        lemma_documents_failure(
            tokens,
            table,
            stop,
            done.push(DocumentModel { document_id, text: pair.0, mentions: pair.1 }),
        )
    }
}

/// What the errors mean. An unresolved title is the title of a token and has
/// no entry in the table; an offset overflow names the document number of a
/// token, and some document text has more than `u32::MAX` characters. The
/// result is the index of such a token.
pub proof fn lemma_assembly_failure(
    tokens: Seq<TokenModel>,
    table: Map<Seq<char>, ResolvedIdentifier>,
) -> (at: int)
    requires
        assemble(tokens, table) is Err,
    ensures
        0 <= at < tokens.len(),
        match assemble(tokens, table)->Err_0 {
            AssemblyErrorModel::UnresolvedTitle(title) => {
                &&& tokens[at].tag == TagModel::Candidate(title)
                &&& !table.dom().contains(title)
            },
            AssemblyErrorModel::OffsetOverflow(document) => {
                &&& tokens[at].document_id == document
                &&& !texts_fit(tokens, 0)
            },
        },
{
    lemma_documents_failure(tokens, table, 0, Seq::<DocumentModel>::empty())
}

/// A titled token whose title has no entry makes its partition fail.
pub proof fn lemma_unresolved_title_fails(
    tokens: Seq<TokenModel>,
    table: Map<Seq<char>, ResolvedIdentifier>,
    at: int,
)
    requires
        0 <= at < tokens.len(),
        tokens[at].tag is Candidate,
        !table.dom().contains(tokens[at].tag->Candidate_0),
    ensures
        assemble(tokens, table) is Err,
{
    if assemble(tokens, table) is Ok {
        lemma_assembled_documents_resolve(tokens, table, 0, Seq::<DocumentModel>::empty(), at);
    }
}

/// Where a document assembles, the title of each of its titled tokens has an entry.
proof fn lemma_assembled_mentions_resolve(
    tokens: Seq<TokenModel>,
    table: Map<Seq<char>, ResolvedIdentifier>,
    document_id: u32,
    start: int,
    limit: int,
    text: Seq<char>,
    mentions: Seq<Mention>,
    inside: int,
)
    requires
        0 <= start <= inside < limit <= tokens.len(),
        assemble_mentions(tokens, table, document_id, start, limit, text, mentions) is Ok,
        tokens[inside].tag is Candidate,
    ensures
        table.dom().contains(tokens[inside].tag->Candidate_0),
    decreases limit - start,
{
    let stop = mention_end(tokens, start, start, limit);
    lemma_mention_end_bounds(tokens, start, start, limit);
    if inside < stop {
        lemma_mention_shares_tag(tokens, start, start, limit, inside);
    } else {
        let step = add_mention(
            text,
            mentions,
            tokens[start].tag,
            surface(tokens, start, stop),
            table,
            document_id,
        )->Ok_0;
        lemma_assembled_mentions_resolve(
            tokens,
            table,
            document_id,
            stop,
            limit,
            step.0,
            step.1,
            inside,
        );
    }
}

/// Where a partition assembles, the title of each of its titled tokens has an entry.
proof fn lemma_assembled_documents_resolve(
    tokens: Seq<TokenModel>,
    table: Map<Seq<char>, ResolvedIdentifier>,
    start: int,
    done: Seq<DocumentModel>,
    inside: int,
)
    requires
        0 <= start <= inside < tokens.len(),
        assemble_documents(tokens, table, start, done) is Ok,
        tokens[inside].tag is Candidate,
    ensures
        table.dom().contains(tokens[inside].tag->Candidate_0),
    decreases tokens.len() - start,
{
    let stop = document_end(tokens, start, start);
    lemma_document_end_bounds(tokens, start, start);
    let document_id = tokens[start].document_id;
    let empty_text = Seq::<char>::empty();
    let no_mentions = Seq::<Mention>::empty();
    if inside < stop {
        lemma_assembled_mentions_resolve(
            tokens,
            table,
            document_id,
            start,
            stop,
            empty_text,
            no_mentions,
            inside,
        );
    } else {
        let built = assemble_mentions(
            tokens,
            table,
            document_id,
            start,
            stop,
            empty_text,
            no_mentions,
        )->Ok_0;
        lemma_assembled_documents_resolve(
            tokens,
            table,
            stop,
            done.push(DocumentModel { document_id, text: built.0, mentions: built.1 }),
            inside,
        );
    }
}

/// Success means that every title has an entry.
pub proof fn lemma_success_resolves_titles(
    tokens: Seq<TokenModel>,
    table: Map<Seq<char>, ResolvedIdentifier>,
)
    requires
        assemble(tokens, table) is Ok,
    ensures
        titles_resolve(tokens, table),
{
    assert forall|k: int|
        0 <= k < tokens.len() && (#[trigger] tokens[k]).tag is Candidate implies table.dom().contains(
        tokens[k].tag->Candidate_0,
    ) by {
        lemma_assembled_documents_resolve(tokens, table, 0, Seq::<DocumentModel>::empty(), k);
    }
}

} // verus!
