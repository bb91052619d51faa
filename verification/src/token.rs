//! Tagged tokens: what the parser hands to the assembler.

use vstd::prelude::*;

verus! {

/// How a token relates to an entity mention.
#[derive(Clone, Debug, PartialEq, Eq)]
pub enum EntityTag {
    /// Part of a mention that has no entry in the title table by design.
    OutOfMapping,
    /// Part of a mention of the entity with this title.
    Candidate(String),
    /// Not part of any mention.
    NoEntity,
}

/// The mathematical value of an `EntityTag`.
pub enum TagModel {
    OutOfMapping,
    Candidate(Seq<char>),
    NoEntity,
}

impl View for EntityTag {
    type V = TagModel;

    open spec fn view(&self) -> TagModel {
        match self {
            EntityTag::OutOfMapping => TagModel::OutOfMapping,
            EntityTag::Candidate(title) => TagModel::Candidate(title@),
            EntityTag::NoEntity => TagModel::NoEntity,
        }
    }
}

/// One token of the corpus with the document it belongs to.
#[derive(Clone, Debug, PartialEq, Eq)]
pub struct TaggedToken {
    pub document_id: u32,
    pub text: String,
    pub tag: EntityTag,
}

/// The mathematical value of a `TaggedToken`.
pub struct TokenModel {
    pub document_id: u32,
    pub text: Seq<char>,
    pub tag: TagModel,
}

impl View for TaggedToken {
    type V = TokenModel;

    open spec fn view(&self) -> TokenModel {
        TokenModel { document_id: self.document_id, text: self.text@, tag: self.tag@ }
    }
}

/// The values of a sequence of token records.
pub open spec fn tokens_view(tokens: Seq<TaggedToken>) -> Seq<TokenModel> {
    Seq::new(tokens.len(), |i: int| tokens[i]@)
}

/// Whether two tags are the same: same variant and, for a titled mention, same title.
pub fn same_tag(left: &EntityTag, right: &EntityTag) -> (same: bool)
    ensures
        same == (left@ == right@),
{
    match left {
        EntityTag::OutOfMapping => match right {
            EntityTag::OutOfMapping => true,
            _ => false,
        },
        EntityTag::Candidate(a) => match right {
            EntityTag::Candidate(b) => *a == *b,
            _ => false,
        },
        EntityTag::NoEntity => match right {
            EntityTag::NoEntity => true,
            _ => false,
        },
    }
}

} // verus!
