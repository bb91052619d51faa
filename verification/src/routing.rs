//! What holds of every parsed corpus: each token lands in exactly one
//! partition, the one that the last boundary line before it names.

use vstd::prelude::*;
use crate::boundary::{Boundary, Split};
use crate::parser::{candidate_titles, cursor_after, split_tokens, LineModel};
use crate::token::{TagModel, TokenModel};

verus! {

/// The number of token lines among `lines`.
pub open spec fn token_count(lines: Seq<LineModel>) -> nat
    decreases lines.len(),
{
    if lines.len() == 0 {
        0
    } else if lines.last() is Token {
        token_count(lines.drop_last()) + 1
    } else {
        token_count(lines.drop_last())
    }
}

/// The current document and partition are those of the last boundary line.
pub proof fn lemma_cursor_is_last_boundary(lines: Seq<LineModel>, last: int)
    requires
        0 <= last < lines.len(),
        lines[last] is Boundary,
        forall|i: int| last < i < lines.len() ==> !(#[trigger] lines[i] is Boundary),
    ensures
        cursor_after(lines) == lines[last]->Boundary_0,
    decreases lines.len(),
{
    if last < lines.len() - 1 {
        let shorter = lines.drop_last();
        assert(!(lines[lines.len() - 1] is Boundary));
        assert(shorter[last] == lines[last]);
        assert forall|i: int| last < i < shorter.len() implies !(
            #[trigger] shorter[i] is Boundary
        ) by {
            assert(shorter[i] == lines[i]);
        }
        lemma_cursor_is_last_boundary(shorter, last);
    }
}

/// Without a boundary line the current document is 0 and the partition `Train`.
pub proof fn lemma_cursor_without_boundary(lines: Seq<LineModel>)
    requires
        forall|i: int| 0 <= i < lines.len() ==> !(#[trigger] lines[i] is Boundary),
    ensures
        cursor_after(lines) == (Boundary { document_id: 0, split: Split::Train }),
    decreases lines.len(),
{
    if lines.len() > 0 {
        let shorter = lines.drop_last();
        assert(!(lines[lines.len() - 1] is Boundary));
        assert forall|i: int| 0 <= i < shorter.len() implies !(
            #[trigger] shorter[i] is Boundary
        ) by {
            assert(shorter[i] == lines[i]);
        }
        lemma_cursor_without_boundary(shorter);
    }
}

/// Every token line gives exactly one token: the three partitions together
/// hold as many tokens as there are token lines.
pub proof fn lemma_partitions_hold_every_token_once(lines: Seq<LineModel>)
    ensures
        split_tokens(lines, Split::Train).len() + split_tokens(lines, Split::Validation).len()
            + split_tokens(lines, Split::Test).len() == token_count(lines),
    decreases lines.len(),
{
    if lines.len() > 0 {
        lemma_partitions_hold_every_token_once(lines.drop_last());
    }
}

/// Later lines add tokens to a partition only at its end.
pub proof fn lemma_partition_grows_at_the_end(lines: Seq<LineModel>, upto: int, split: Split)
    requires
        0 <= upto <= lines.len(),
    ensures
        split_tokens(lines.take(upto), split).len() <= split_tokens(lines, split).len(),
        split_tokens(lines, split).take(split_tokens(lines.take(upto), split).len() as int)
            == split_tokens(lines.take(upto), split),
    decreases lines.len(),
{
    let early = split_tokens(lines.take(upto), split);
    if upto == lines.len() {
        assert(lines.take(upto) =~= lines);
        assert(early.take(early.len() as int) =~= early);
    } else {
        let shorter = lines.drop_last();
        assert(shorter.take(upto) =~= lines.take(upto));
        lemma_partition_grows_at_the_end(shorter, upto, split);
        let before = split_tokens(shorter, split);
        assert(split_tokens(lines, split).take(early.len() as int) =~= before.take(
            early.len() as int,
        ));
    }
}

/// The token of line `at` goes to the partition that is current before that
/// line, carries the document number that is current there, stands after all
/// earlier tokens of that partition, and goes to no other partition.
pub proof fn lemma_token_goes_to_current_partition(lines: Seq<LineModel>, at: int)
    requires
        0 <= at < lines.len(),
        lines[at] is Token,
    ensures
        ({
            let cursor = cursor_after(lines.take(at));
            let place = split_tokens(lines.take(at), cursor.split).len() as int;
            &&& place < split_tokens(lines, cursor.split).len()
            &&& split_tokens(lines, cursor.split)[place] == TokenModel {
                document_id: cursor.document_id,
                text: lines[at]->Token_0,
                tag: lines[at]->Token_1,
            }
            &&& forall|other: Split|
                other != cursor.split ==> #[trigger] split_tokens(lines.take(at + 1), other)
                    == split_tokens(lines.take(at), other)
        }),
{
    let cursor = cursor_after(lines.take(at));
    let upto = lines.take(at + 1);
    assert(upto.drop_last() =~= lines.take(at));
    assert(upto.last() == lines[at]);
    lemma_partition_grows_at_the_end(lines, at + 1, cursor.split);
    let early = split_tokens(upto, cursor.split);
    let place = split_tokens(lines.take(at), cursor.split).len() as int;
    assert(split_tokens(lines, cursor.split).take(early.len() as int)[place] == early[place]);
}

/// A corpus without boundary lines goes to `Train` as a whole, under
/// document number 0.
pub proof fn lemma_without_boundary_all_train(lines: Seq<LineModel>)
    requires
        forall|i: int| 0 <= i < lines.len() ==> !(#[trigger] lines[i] is Boundary),
    ensures
        split_tokens(lines, Split::Validation).len() == 0,
        split_tokens(lines, Split::Test).len() == 0,
        split_tokens(lines, Split::Train).len() == token_count(lines),
        forall|k: int|
            0 <= k < split_tokens(lines, Split::Train).len() ==> (#[trigger] split_tokens(
                lines,
                Split::Train,
            )[k]).document_id == 0,
    decreases lines.len(),
{
    if lines.len() > 0 {
        let shorter = lines.drop_last();
        assert forall|i: int| 0 <= i < shorter.len() implies !(
            #[trigger] shorter[i] is Boundary
        ) by {
            assert(shorter[i] == lines[i]);
        }
        lemma_without_boundary_all_train(shorter);
        lemma_cursor_without_boundary(shorter);
    }
}

/// Every collected title is the title of a token: the result names a
/// partition and an index in it where such a token stands.
pub proof fn lemma_candidate_has_token(lines: Seq<LineModel>, title: Seq<char>) -> (place: (
    Split,
    int,
))
    requires
        candidate_titles(lines).contains(title),
    ensures
        0 <= place.1 < split_tokens(lines, place.0).len(),
        split_tokens(lines, place.0)[place.1].tag == TagModel::Candidate(title),
    decreases lines.len(),
{
    if lines.len() == 0 {
        (Split::Train, 0)
    } else {
        let shorter = lines.drop_last();
        let cursor = cursor_after(shorter);
        match lines.last() {
            LineModel::Token(_, TagModel::Candidate(found)) => {
                if found == title {
                    (cursor.split, split_tokens(shorter, cursor.split).len() as int)
                } else {
                    lemma_candidate_has_token(shorter, title)
                }
            },
            _ => lemma_candidate_has_token(shorter, title),
        }
    }
}

} // verus!
