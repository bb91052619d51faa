//! What holds of every assembled document: each mention covers exactly the
//! text of its tokens, and the mentions follow each other without overlap.

use vstd::prelude::*;
use crate::dataset::{
    add_mention, appended, assemble, assemble_documents, assemble_mentions, document_end,
    lemma_document_end_bounds, lemma_mention_end_bounds, mention_end, next_start, surface, words,
    AssemblyErrorModel, DocumentModel, Mention,
};
use crate::outcomes::text_from;
use crate::text::{lemma_join_with_concat, lemma_join_with_nonempty};
use crate::mapping::ResolvedIdentifier;
use crate::token::{TagModel, TokenModel};

verus! {

/// The token ranges `(first, end)` of the tagged runs of `tokens[start..limit]`,
/// in order: the runs that give a mention.
pub open spec fn mention_ranges(tokens: Seq<TokenModel>, start: int, limit: int) -> Seq<(int, int)>
    decreases limit - start,
{
    if start < 0 || start >= limit || limit > tokens.len() {
        Seq::<(int, int)>::empty()
    } else {
        let stop = mention_end(tokens, start, start, limit);
        proof {
            lemma_mention_end_bounds(tokens, start, start, limit);
        }
        let rest = mention_ranges(tokens, stop, limit);
        if tokens[start].tag is NoEntity {
            rest
        } else {
            seq![(start, stop)] + rest
        }
    }
}

/// The token ranges `(first, end)` of the documents of `tokens[start..]`, in order.
pub open spec fn document_ranges(tokens: Seq<TokenModel>, start: int) -> Seq<(int, int)>
    decreases tokens.len() - start,
{
    if start < 0 || start >= tokens.len() {
        Seq::<(int, int)>::empty()
    } else {
        let stop = document_end(tokens, start, start);
        proof {
            lemma_document_end_bounds(tokens, start, start);
        }
        seq![(start, stop)] + document_ranges(tokens, stop)
    }
}

/// Whether `document` is what the tokens `tokens[first..end]` assemble to.
pub open spec fn is_document_of(
    document: DocumentModel,
    tokens: Seq<TokenModel>,
    table: Map<Seq<char>, ResolvedIdentifier>,
    first: int,
    end: int,
) -> bool {
    &&& 0 <= first < end <= tokens.len()
    &&& document.document_id == tokens[first].document_id
    &&& assemble_mentions(
        tokens,
        table,
        document.document_id,
        first,
        end,
        Seq::<char>::empty(),
        Seq::<Mention>::empty(),
    ) == Ok::<(Seq<char>, Seq<Mention>), AssemblyErrorModel>((document.text, document.mentions))
}

/// Whether the mentions are those of the token ranges `ranges`, one each and
/// in order: each lies in `text`, is as long as the joined text of its
/// tokens, and covers exactly that text.
pub open spec fn mentions_cover(
    tokens: Seq<TokenModel>,
    text: Seq<char>,
    mentions: Seq<Mention>,
    ranges: Seq<(int, int)>,
) -> bool {
    &&& mentions.len() == ranges.len()
    &&& forall|i: int|
        0 <= i < mentions.len() ==> {
            let mention = #[trigger] mentions[i];
            let piece = surface(tokens, ranges[i].0, ranges[i].1);
            &&& mention.end == mention.start + piece.len()
            &&& mention.end <= text.len()
            &&& text.subrange(mention.start as int, mention.end as int) == piece
        }
}

/// Whether the mentions follow each other without overlap.
pub open spec fn mentions_ordered(mentions: Seq<Mention>) -> bool {
    forall|i: int|
        0 <= i && i + 1 < mentions.len() ==> (#[trigger] mentions[i]).end <= mentions[i + 1].start
}

/// Mentions that cover their tokens in a text do so in every text that
/// continues it.
proof fn lemma_cover_survives_append(
    tokens: Seq<TokenModel>,
    text0: Seq<char>,
    text1: Seq<char>,
    mentions: Seq<Mention>,
    ranges: Seq<(int, int)>,
)
    requires
        mentions_cover(tokens, text0, mentions, ranges),
        text0.len() <= text1.len(),
        text1.subrange(0, text0.len() as int) == text0,
    ensures
        mentions_cover(tokens, text1, mentions, ranges),
{
    assert forall|i: int| 0 <= i < mentions.len() implies {
        let mention = #[trigger] mentions[i];
        let piece = surface(tokens, ranges[i].0, ranges[i].1);
        &&& mention.end == mention.start + piece.len()
        &&& mention.end <= text1.len()
        &&& text1.subrange(mention.start as int, mention.end as int) == piece
    } by {
        let mention = mentions[i];
        assert(mention.end <= text0.len());
        assert(text1.subrange(mention.start as int, mention.end as int) =~= text1.subrange(
            0,
            text0.len() as int,
        ).subrange(mention.start as int, mention.end as int));
    }
}

/// One more mention that covers its tokens keeps all mentions covering theirs.
proof fn lemma_cover_push(
    tokens: Seq<TokenModel>,
    text: Seq<char>,
    mentions: Seq<Mention>,
    ranges: Seq<(int, int)>,
    mention: Mention,
    first: int,
    end: int,
)
    requires
        mentions_cover(tokens, text, mentions, ranges),
        mention.end == mention.start + surface(tokens, first, end).len(),
        mention.end <= text.len(),
        text.subrange(mention.start as int, mention.end as int) == surface(tokens, first, end),
    ensures
        mentions_cover(tokens, text, mentions.push(mention), ranges.push((first, end))),
{
    let longer = mentions.push(mention);
    let more = ranges.push((first, end));
    assert forall|i: int| 0 <= i < longer.len() implies {
        let each = #[trigger] longer[i];
        let piece = surface(tokens, more[i].0, more[i].1);
        &&& each.end == each.start + piece.len()
        &&& each.end <= text.len()
        &&& text.subrange(each.start as int, each.end as int) == piece
    } by {
        if i < mentions.len() {
            assert(longer[i] == mentions[i]);
            assert(more[i] == ranges[i]);
        }
    }
}

/// One more mention that starts where the last one ends, or later, keeps the
/// mentions in order.
proof fn lemma_ordered_push(mentions: Seq<Mention>, mention: Mention)
    requires
        mentions_ordered(mentions),
        mentions.len() > 0 ==> mentions.last().end <= mention.start,
    ensures
        mentions_ordered(mentions.push(mention)),
{
    let longer = mentions.push(mention);
    assert forall|i: int| 0 <= i && i + 1 < longer.len() implies (#[trigger] longer[i]).end
        <= longer[i + 1].start by {
        assert(longer[i] == mentions[i]);
        if i + 1 < mentions.len() {
            assert(longer[i + 1] == mentions[i + 1]);
        }
    }
}

/// One more run keeps the mentions covering their tokens and in order.
proof fn lemma_add_mention_keeps(
    tokens: Seq<TokenModel>,
    table: Map<Seq<char>, ResolvedIdentifier>,
    document_id: u32,
    start: int,
    stop: int,
    text0: Seq<char>,
    mentions0: Seq<Mention>,
    ranges0: Seq<(int, int)>,
)
    requires
        0 <= start < tokens.len(),
        mentions_cover(tokens, text0, mentions0, ranges0),
        mentions_ordered(mentions0),
        add_mention(
            text0,
            mentions0,
            tokens[start].tag,
            surface(tokens, start, stop),
            table,
            document_id,
        ) is Ok,
    ensures
        ({
            let step = add_mention(
                text0,
                mentions0,
                tokens[start].tag,
                surface(tokens, start, stop),
                table,
                document_id,
            )->Ok_0;
            let ranges1 = if tokens[start].tag is NoEntity {
                ranges0
            } else {
                ranges0.push((start, stop))
            };
            &&& mentions_cover(tokens, step.0, step.1, ranges1)
            &&& mentions_ordered(step.1)
        }),
{
    let piece = surface(tokens, start, stop);
    let step = add_mention(text0, mentions0, tokens[start].tag, piece, table, document_id)->Ok_0;
    let text1 = appended(text0, piece);
    assert(step.0 == text1);
    assert(text1.subrange(0, text0.len() as int) =~= text0);
    lemma_cover_survives_append(tokens, text0, text1, mentions0, ranges0);
    if !(tokens[start].tag is NoEntity) {
        let first = next_start(text0) as int;
        let last = first + piece.len();
        let mention = step.1[mentions0.len() as int];
        assert(step.1 == mentions0.push(mention));
        assert(mention.start == first && mention.end == last);
        assert(text1.subrange(first, last) =~= piece);
        lemma_cover_push(tokens, text1, mentions0, ranges0, mention, start, stop);
        if mentions0.len() > 0 {
            assert(mentions0[mentions0.len() - 1].end <= text0.len());
        }
        lemma_ordered_push(mentions0, mention);
    }
}

/// The tagged runs of a document are those of its first run and those after it.
proof fn lemma_mention_ranges_step(
    tokens: Seq<TokenModel>,
    start: int,
    limit: int,
    ranges0: Seq<(int, int)>,
)
    requires
        0 <= start < limit <= tokens.len(),
    ensures
        ({
            let stop = mention_end(tokens, start, start, limit);
            let ranges1 = if tokens[start].tag is NoEntity {
                ranges0
            } else {
                ranges0.push((start, stop))
            };
            ranges1 + mention_ranges(tokens, stop, limit) == ranges0 + mention_ranges(
                tokens,
                start,
                limit,
            )
        }),
{
    let stop = mention_end(tokens, start, start, limit);
    let ranges1 = if tokens[start].tag is NoEntity {
        ranges0
    } else {
        ranges0.push((start, stop))
    };
    assert(ranges1 + mention_ranges(tokens, stop, limit) =~= ranges0 + mention_ranges(
        tokens,
        start,
        limit,
    ));
}

/// Assembling one document step by step.
proof fn lemma_assemble_mentions_step(
    tokens: Seq<TokenModel>,
    table: Map<Seq<char>, ResolvedIdentifier>,
    document_id: u32,
    start: int,
    limit: int,
    text0: Seq<char>,
    mentions0: Seq<Mention>,
)
    requires
        0 <= start < limit <= tokens.len(),
        assemble_mentions(tokens, table, document_id, start, limit, text0, mentions0) is Ok,
    ensures
        ({
            let stop = mention_end(tokens, start, start, limit);
            let step = add_mention(
                text0,
                mentions0,
                tokens[start].tag,
                surface(tokens, start, stop),
                table,
                document_id,
            );
            &&& start < stop <= limit
            &&& step is Ok
            &&& assemble_mentions(tokens, table, document_id, start, limit, text0, mentions0)
                == assemble_mentions(
                tokens,
                table,
                document_id,
                stop,
                limit,
                step->Ok_0.0,
                step->Ok_0.1,
            )
        }),
{
    lemma_mention_end_bounds(tokens, start, start, limit);
}

proof fn lemma_mentions_from(
    tokens: Seq<TokenModel>,
    table: Map<Seq<char>, ResolvedIdentifier>,
    document_id: u32,
    start: int,
    limit: int,
    text0: Seq<char>,
    mentions0: Seq<Mention>,
    ranges0: Seq<(int, int)>,
)
    requires
        0 <= start <= limit <= tokens.len(),
        mentions_cover(tokens, text0, mentions0, ranges0),
        mentions_ordered(mentions0),
        assemble_mentions(tokens, table, document_id, start, limit, text0, mentions0) is Ok,
    ensures
        mentions_cover(
            tokens,
            assemble_mentions(tokens, table, document_id, start, limit, text0, mentions0)->Ok_0.0,
            assemble_mentions(tokens, table, document_id, start, limit, text0, mentions0)->Ok_0.1,
            ranges0 + mention_ranges(tokens, start, limit),
        ),
        mentions_ordered(
            assemble_mentions(tokens, table, document_id, start, limit, text0, mentions0)->Ok_0.1,
        ),
    decreases limit - start,
{
    if start < limit {
        let stop = mention_end(tokens, start, start, limit);
        let step = add_mention(
            text0,
            mentions0,
            tokens[start].tag,
            surface(tokens, start, stop),
            table,
            document_id,
        );
        let ranges1 = if tokens[start].tag is NoEntity {
            ranges0
        } else {
            ranges0.push((start, stop))
        };
        lemma_assemble_mentions_step(tokens, table, document_id, start, limit, text0, mentions0);
        lemma_add_mention_keeps(
            tokens,
            table,
            document_id,
            start,
            stop,
            text0,
            mentions0,
            ranges0,
        );
        lemma_mentions_from(
            tokens,
            table,
            document_id,
            stop,
            limit,
            step->Ok_0.0,
            step->Ok_0.1,
            ranges1,
        );
        lemma_mention_ranges_step(tokens, start, limit, ranges0);
    } else {
        assert(ranges0 + mention_ranges(tokens, start, limit) =~= ranges0);
    }
}

proof fn lemma_documents_from(
    tokens: Seq<TokenModel>,
    table: Map<Seq<char>, ResolvedIdentifier>,
    start: int,
    done: Seq<DocumentModel>,
)
    requires
        0 <= start <= tokens.len(),
        assemble_documents(tokens, table, start, done) is Ok,
    ensures
        ({
            let documents = assemble_documents(tokens, table, start, done)->Ok_0;
            let ranges = document_ranges(tokens, start);
            &&& documents.len() == done.len() + ranges.len()
            &&& documents.subrange(0, done.len() as int) == done
            &&& forall|d: int|
                0 <= d < ranges.len() ==> is_document_of(
                    #[trigger] documents[done.len() + d],
                    tokens,
                    table,
                    ranges[d].0,
                    ranges[d].1,
                )
        }),
    decreases tokens.len() - start,
{
    if start < tokens.len() {
        let stop = document_end(tokens, start, start);
        lemma_document_end_bounds(tokens, start, start);
        let document_id = tokens[start].document_id;
        let built = assemble_mentions(
            tokens,
            table,
            document_id,
            start,
            stop,
            Seq::<char>::empty(),
            Seq::<Mention>::empty(),
        )->Ok_0;
        let document = DocumentModel { document_id, text: built.0, mentions: built.1 };
        let longer = done.push(document);
        lemma_documents_from(tokens, table, stop, longer);
        let documents = assemble_documents(tokens, table, stop, longer)->Ok_0;
        let rest = document_ranges(tokens, stop);
        let ranges = document_ranges(tokens, start);
        let n0 = done.len() as int;
        assert(ranges =~= seq![(start, stop)] + rest);
        assert(documents.subrange(0, n0 + 1)[n0] == longer[n0]);
        assert(documents.subrange(0, n0) =~= longer.subrange(0, n0));
        assert(longer.subrange(0, n0) =~= done);
        assert forall|d: int| 0 <= d < ranges.len() implies is_document_of(
            #[trigger] documents[n0 + d],
            tokens,
            table,
            ranges[d].0,
            ranges[d].1,
        ) by {
            if d > 0 {
                assert(ranges[d] == rest[d - 1]);
                assert(documents[n0 + d] == documents[(n0 + 1) + (d - 1)]);
            }
        }
    } else {
        assert(done.subrange(0, done.len() as int) =~= done);
    }
}

/// Every assembled partition holds one document per run of tokens with one
/// document number, in order, and each is what its tokens assemble to.
pub proof fn lemma_documents_follow_tokens(
    tokens: Seq<TokenModel>,
    table: Map<Seq<char>, ResolvedIdentifier>,
)
    requires
        assemble(tokens, table) is Ok,
    ensures
        ({
            let documents = assemble(tokens, table)->Ok_0;
            let ranges = document_ranges(tokens, 0);
            &&& documents.len() == ranges.len()
            &&& forall|d: int|
                0 <= d < documents.len() ==> is_document_of(
                    #[trigger] documents[d],
                    tokens,
                    table,
                    ranges[d].0,
                    ranges[d].1,
                )
        }),
{
    lemma_documents_from(tokens, table, 0, Seq::<DocumentModel>::empty());
    let documents = assemble(tokens, table)->Ok_0;
    let ranges = document_ranges(tokens, 0);
    assert forall|d: int| 0 <= d < documents.len() implies is_document_of(
        #[trigger] documents[d],
        tokens,
        table,
        ranges[d].0,
        ranges[d].1,
    ) by {
        assert(documents[d] == documents[0 + d]);
    }
}

/// Offsets are valid: in the document assembled from `tokens[first..end]`
/// there is one mention per tagged run of tokens, in order; each mention lies
/// within the text, is exactly as long as the space-joined text of its
/// tokens, and the text between its offsets is that joined text.
pub proof fn lemma_offsets_valid(
    tokens: Seq<TokenModel>,
    table: Map<Seq<char>, ResolvedIdentifier>,
    document: DocumentModel,
    first: int,
    end: int,
)
    requires
        is_document_of(document, tokens, table, first, end),
    ensures
        mentions_cover(tokens, document.text, document.mentions, mention_ranges(tokens, first, end)),
        forall|i: int|
            0 <= i < document.mentions.len() ==> 0 <= (#[trigger] document.mentions[i]).start
                <= document.mentions[i].end <= document.text.len(),
{
    lemma_mentions_from(
        tokens,
        table,
        document.document_id,
        first,
        end,
        Seq::<char>::empty(),
        Seq::<Mention>::empty(),
        Seq::<(int, int)>::empty(),
    );
    assert(Seq::<(int, int)>::empty() + mention_ranges(tokens, first, end) =~= mention_ranges(
        tokens,
        first,
        end,
    ));
    let ranges = mention_ranges(tokens, first, end);
    assert forall|i: int| 0 <= i < document.mentions.len() implies 0 <= (
    #[trigger] document.mentions[i]).start <= document.mentions[i].end
        <= document.text.len() by {
        assert(document.mentions[i].end <= document.text.len());
    }
}

/// A mention is empty only if the joined text of its tokens is: where every
/// tagged run of `tokens[first..end]` has a non-empty joined text, every
/// mention has `start < end`.
pub proof fn lemma_mentions_nonempty(
    tokens: Seq<TokenModel>,
    table: Map<Seq<char>, ResolvedIdentifier>,
    document: DocumentModel,
    first: int,
    end: int,
)
    requires
        is_document_of(document, tokens, table, first, end),
        forall|i: int|
            0 <= i < mention_ranges(tokens, first, end).len() ==> surface(
                tokens,
                (#[trigger] mention_ranges(tokens, first, end)[i]).0,
                mention_ranges(tokens, first, end)[i].1,
            ).len() > 0,
    ensures
        forall|i: int|
            0 <= i < document.mentions.len() ==> (#[trigger] document.mentions[i]).start
                < document.mentions[i].end,
{
    lemma_offsets_valid(tokens, table, document, first, end);
    let ranges = mention_ranges(tokens, first, end);
    assert forall|i: int| 0 <= i < document.mentions.len() implies (
    #[trigger] document.mentions[i]).start < document.mentions[i].end by {
        assert(surface(tokens, ranges[i].0, ranges[i].1).len() > 0);
    }
}

/// Mentions are ordered and do not overlap: in every assembled document each
/// mention ends where the next one starts or before, so the starts ascend.
pub proof fn lemma_mentions_do_not_overlap(
    tokens: Seq<TokenModel>,
    table: Map<Seq<char>, ResolvedIdentifier>,
    document: DocumentModel,
    first: int,
    end: int,
)
    requires
        is_document_of(document, tokens, table, first, end),
    ensures
        forall|i: int|
            0 <= i && i + 1 < document.mentions.len() ==> (#[trigger] document.mentions[i]).end
                <= document.mentions[i + 1].start,
        forall|i: int, j: int|
            0 <= i <= j < document.mentions.len() ==> (#[trigger] document.mentions[i]).start <= (
            #[trigger] document.mentions[j]).start,
{
    lemma_mentions_from(
        tokens,
        table,
        document.document_id,
        first,
        end,
        Seq::<char>::empty(),
        Seq::<Mention>::empty(),
        Seq::<(int, int)>::empty(),
    );
    assert(Seq::<(int, int)>::empty() + mention_ranges(tokens, first, end) =~= mention_ranges(
        tokens,
        first,
        end,
    ));
    lemma_offsets_valid(tokens, table, document, first, end);
    assert forall|i: int, j: int| 0 <= i <= j < document.mentions.len() implies (
    #[trigger] document.mentions[i]).start <= (#[trigger] document.mentions[j]).start by {
        lemma_starts_ascend(document.mentions, i, j);
    }
}

/// In every assembled partition every mention has valid offsets and covers
/// the joined text of its tokens: document `d` is that of the `d`-th run of
/// tokens with one document number, and its mentions are those of the tagged
/// runs within it.
pub proof fn lemma_dataset_offsets_valid(
    tokens: Seq<TokenModel>,
    table: Map<Seq<char>, ResolvedIdentifier>,
)
    requires
        assemble(tokens, table) is Ok,
    ensures
        ({
            let documents = assemble(tokens, table)->Ok_0;
            let ranges = document_ranges(tokens, 0);
            &&& documents.len() == ranges.len()
            &&& forall|d: int|
                0 <= d < documents.len() ==> mentions_cover(
                    tokens,
                    (#[trigger] documents[d]).text,
                    documents[d].mentions,
                    mention_ranges(tokens, ranges[d].0, ranges[d].1),
                )
            &&& forall|d: int, i: int|
                0 <= d < documents.len() && 0 <= i < documents[d].mentions.len() ==> 0 <= (
                #[trigger] documents[d].mentions[i]).start <= documents[d].mentions[i].end
                    <= documents[d].text.len()
        }),
{
    lemma_documents_follow_tokens(tokens, table);
    let documents = assemble(tokens, table)->Ok_0;
    let ranges = document_ranges(tokens, 0);
    assert forall|d: int| 0 <= d < documents.len() implies mentions_cover(
        tokens,
        (#[trigger] documents[d]).text,
        documents[d].mentions,
        mention_ranges(tokens, ranges[d].0, ranges[d].1),
    ) by {
        lemma_offsets_valid(tokens, table, documents[d], ranges[d].0, ranges[d].1);
    }
    assert forall|d: int, i: int|
        0 <= d < documents.len() && 0 <= i < documents[d].mentions.len() implies 0 <= (
    #[trigger] documents[d].mentions[i]).start <= documents[d].mentions[i].end
        <= documents[d].text.len() by {
        lemma_offsets_valid(tokens, table, documents[d], ranges[d].0, ranges[d].1);
    }
}

/// In every assembled partition the mentions of a document are ordered and
/// do not overlap.
pub proof fn lemma_dataset_mentions_do_not_overlap(
    tokens: Seq<TokenModel>,
    table: Map<Seq<char>, ResolvedIdentifier>,
)
    requires
        assemble(tokens, table) is Ok,
    ensures
        ({
            let documents = assemble(tokens, table)->Ok_0;
            forall|d: int, i: int|
                0 <= d < documents.len() && 0 <= i && i + 1 < documents[d].mentions.len() ==> (
                #[trigger] documents[d].mentions[i]).end <= documents[d].mentions[i + 1].start
        }),
{
    lemma_documents_follow_tokens(tokens, table);
    let documents = assemble(tokens, table)->Ok_0;
    let ranges = document_ranges(tokens, 0);
    assert forall|d: int, i: int|
        0 <= d < documents.len() && 0 <= i && i + 1 < documents[d].mentions.len() implies (
    #[trigger] documents[d].mentions[i]).end <= documents[d].mentions[i + 1].start by {
        lemma_mentions_do_not_overlap(tokens, table, documents[d], ranges[d].0, ranges[d].1);
    }
}

/// The text of an assembled document is `text_of` its tokens.
proof fn lemma_assembled_text(
    tokens: Seq<TokenModel>,
    table: Map<Seq<char>, ResolvedIdentifier>,
    document_id: u32,
    start: int,
    limit: int,
    text: Seq<char>,
    mentions: Seq<Mention>,
)
    requires
        0 <= start <= limit <= tokens.len(),
        assemble_mentions(tokens, table, document_id, start, limit, text, mentions) is Ok,
    ensures
        assemble_mentions(tokens, table, document_id, start, limit, text, mentions)->Ok_0.0
            == text_from(tokens, start, limit, text),
    decreases limit - start,
{
    if start < limit {
        let stop = mention_end(tokens, start, start, limit);
        lemma_mention_end_bounds(tokens, start, start, limit);
        let step = add_mention(
            text,
            mentions,
            tokens[start].tag,
            surface(tokens, start, stop),
            table,
            document_id,
        )->Ok_0;
        assert(step.0 == appended(text, surface(tokens, start, stop)));
        lemma_assembled_text(tokens, table, document_id, stop, limit, step.0, step.1);
    }
}

/// Where no token of `tokens[first..limit]` is empty, the text that
/// continues the joined tokens before `start` is the joined tokens up to `limit`.
proof fn lemma_text_from_joins(tokens: Seq<TokenModel>, first: int, start: int, limit: int)
    requires
        0 <= first <= start <= limit <= tokens.len(),
        forall|k: int| first <= k < limit ==> (#[trigger] tokens[k]).text.len() > 0,
    ensures
        text_from(tokens, start, limit, surface(tokens, first, start)) == surface(
            tokens,
            first,
            limit,
        ),
    decreases limit - start,
{
    if start < limit {
        let stop = mention_end(tokens, start, start, limit);
        lemma_mention_end_bounds(tokens, start, start, limit);
        let before = words(tokens, first, start);
        let run = words(tokens, start, stop);
        assert(before + run =~= words(tokens, first, stop));
        if first < start {
            assert forall|i: int| 0 <= i < before.len() implies (#[trigger] before[i]).len() > 0 by {
                assert(before[i] == tokens[first + i].text);
            }
            lemma_join_with_nonempty(before, ' ');
            lemma_join_with_concat(before, run, ' ');
        } else {
            assert(before =~= Seq::<Seq<char>>::empty());
        }
        assert(appended(surface(tokens, first, start), surface(tokens, start, stop)) == surface(
            tokens,
            first,
            stop,
        ));
        lemma_text_from_joins(tokens, first, stop, limit);
    }
}

/// The text is the tokens joined by single spaces: where no token of a
/// document is empty, the text of the document is the texts of its tokens,
/// in order, with one space between each two neighbours.
pub proof fn lemma_text_is_joined_tokens(
    tokens: Seq<TokenModel>,
    table: Map<Seq<char>, ResolvedIdentifier>,
    document: DocumentModel,
    first: int,
    end: int,
)
    requires
        is_document_of(document, tokens, table, first, end),
        forall|k: int| first <= k < end ==> (#[trigger] tokens[k]).text.len() > 0,
    ensures
        document.text == surface(tokens, first, end),
{
    lemma_assembled_text(
        tokens,
        table,
        document.document_id,
        first,
        end,
        Seq::<char>::empty(),
        Seq::<Mention>::empty(),
    );
    assert(words(tokens, first, first) =~= Seq::<Seq<char>>::empty());
    lemma_text_from_joins(tokens, first, first, end);
}

/// Where no token of a document is empty, no mention is: every mention has
/// `start < end`.
pub proof fn lemma_nonempty_tokens_give_nonempty_mentions(
    tokens: Seq<TokenModel>,
    table: Map<Seq<char>, ResolvedIdentifier>,
    document: DocumentModel,
    first: int,
    end: int,
)
    requires
        is_document_of(document, tokens, table, first, end),
        forall|k: int| first <= k < end ==> (#[trigger] tokens[k]).text.len() > 0,
    ensures
        forall|i: int|
            0 <= i < document.mentions.len() ==> (#[trigger] document.mentions[i]).start
                < document.mentions[i].end,
{
    let ranges = mention_ranges(tokens, first, end);
    lemma_mention_ranges_bounds(tokens, first, end);
    assert forall|i: int| 0 <= i < ranges.len() implies surface(
        tokens,
        (#[trigger] ranges[i]).0,
        ranges[i].1,
    ).len() > 0 by {
        let run = words(tokens, ranges[i].0, ranges[i].1);
        assert forall|j: int| 0 <= j < run.len() implies (#[trigger] run[j]).len() > 0 by {
            assert(run[j] == tokens[ranges[i].0 + j].text);
        }
        lemma_join_with_nonempty(run, ' ');
    }
    lemma_mentions_nonempty(tokens, table, document, first, end);
}

/// Every tagged run lies within its document and holds at least one token.
proof fn lemma_mention_ranges_bounds(tokens: Seq<TokenModel>, start: int, limit: int)
    requires
        0 <= start <= limit <= tokens.len(),
    ensures
        forall|i: int|
            0 <= i < mention_ranges(tokens, start, limit).len() ==> start <= (
            #[trigger] mention_ranges(tokens, start, limit)[i]).0 < mention_ranges(
                tokens,
                start,
                limit,
            )[i].1 <= limit,
    decreases limit - start,
{
    if start < limit {
        let stop = mention_end(tokens, start, start, limit);
        lemma_mention_end_bounds(tokens, start, start, limit);
        lemma_mention_ranges_bounds(tokens, stop, limit);
        let rest = mention_ranges(tokens, stop, limit);
        let ranges = mention_ranges(tokens, start, limit);
        assert forall|i: int| 0 <= i < ranges.len() implies start <= (#[trigger] ranges[i]).0
            < ranges[i].1 <= limit by {
            if tokens[start].tag is NoEntity {
                assert(ranges[i] == rest[i]);
            } else if i > 0 {
                assert(ranges[i] == rest[i - 1]);
            }
        }
    }
}

proof fn lemma_starts_ascend(mentions: Seq<Mention>, i: int, j: int)
    requires
        0 <= i <= j < mentions.len(),
        mentions_ordered(mentions),
        forall|k: int| 0 <= k < mentions.len() ==> (#[trigger] mentions[k]).start <= mentions[k].end,
    ensures
        mentions[i].start <= mentions[j].start,
    decreases j - i,
{
    if i < j {
        lemma_starts_ascend(mentions, i + 1, j);
        assert(mentions[i].end <= mentions[i + 1].start);
    }
}

} // verus!
