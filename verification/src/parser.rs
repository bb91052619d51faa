//! The corpus parser: classifies lines, tracks the current document and
//! partition, and routes each token to the partition that is current when its
//! line is read.

use vstd::prelude::*;
use vstd::string::*;
use crate::boundary::{parse_boundary, scan_boundary, Boundary, BoundaryScan, Split};
use crate::normalize::{nfc, normalize};
use crate::text::{lemma_split_fields_nonempty, slices_view, split_fields, split_tabs};
use crate::titles::TitleSet;
use crate::token::{tokens_view, EntityTag, TagModel, TaggedToken, TokenModel};

verus! {

/// Number of leading characters of the fifth field that come before the title:
/// the length of the fixed address prefix `http://en.wikipedia.org/wiki/`.
pub const TITLE_PREFIX_LEN: usize = 29;

/// What one line of the corpus contributes.
#[derive(Clone, Debug, PartialEq, Eq)]
pub enum Line {
    /// An empty line.
    Blank,
    /// A document boundary.
    Boundary(Boundary),
    /// A document boundary whose number does not fit in 32 bits.
    BadBoundary,
    /// A token with its tag.
    Token(String, EntityTag),
}

/// The mathematical value of a `Line`.
pub enum LineModel {
    Blank,
    Boundary(Boundary),
    BadBoundary,
    Token(Seq<char>, TagModel),
}

impl View for Line {
    type V = LineModel;

    open spec fn view(&self) -> LineModel {
        match self {
            Line::Blank => LineModel::Blank,
            Line::Boundary(boundary) => LineModel::Boundary(*boundary),
            Line::BadBoundary => LineModel::BadBoundary,
            Line::Token(text, tag) => LineModel::Token(text@, tag@),
        }
    }
}

/// A field without its first `TITLE_PREFIX_LEN` characters.
pub open spec fn without_prefix(field: Seq<char>) -> Seq<char> {
    if field.len() <= TITLE_PREFIX_LEN {
        Seq::<char>::empty()
    } else {
        field.skip(TITLE_PREFIX_LEN as int)
    }
}

/// The title in the fifth field of a line: the field without its prefix, composed.
pub open spec fn title_of(field: Seq<char>) -> Seq<char> {
    nfc(without_prefix(field))
}

/// The tag that the number of fields (and the fifth field) give a token.
pub open spec fn tag_of(fields: Seq<Seq<char>>) -> TagModel {
    if fields.len() == 4 {
        TagModel::OutOfMapping
    } else if fields.len() > 4 {
        TagModel::Candidate(title_of(fields[4]))
    } else {
        TagModel::NoEntity
    }
}

/// What a line contributes. Only a line without tabs can be a boundary; a
/// line that is neither empty nor a boundary is a token, whose text is the
/// first field, composed.
pub open spec fn classify_line(line: Seq<char>) -> LineModel {
    let fields = split_fields(line, '\t');
    let scan = if fields.len() == 1 {
        scan_boundary(fields[0])
    } else {
        BoundaryScan::Absent
    };
    if line.len() == 0 {
        LineModel::Blank
    } else {
        match scan {
            BoundaryScan::Found(boundary) => LineModel::Boundary(boundary),
            BoundaryScan::IdOutOfRange => LineModel::BadBoundary,
            BoundaryScan::Absent => LineModel::Token(nfc(fields[0]), tag_of(fields)),
        }
    }
}

/// The lines of a corpus, classified one by one.
pub open spec fn classified(lines: Seq<Seq<char>>) -> Seq<LineModel> {
    Seq::new(lines.len(), |i: int| classify_line(lines[i]))
}

/// The values of a vector of lines.
pub open spec fn lines_view(lines: Seq<String>) -> Seq<Seq<char>> {
    Seq::new(lines.len(), |i: int| lines[i]@)
}

/// The document and partition that are current after `lines`: those of the
/// last boundary among them, or document 0 in `Train` if there is none.
pub open spec fn cursor_after(lines: Seq<LineModel>) -> Boundary
    decreases lines.len(),
{
    if lines.len() == 0 {
        Boundary { document_id: 0, split: Split::Train }
    } else {
        match lines.last() {
            LineModel::Boundary(boundary) => boundary,
            _ => cursor_after(lines.drop_last()),
        }
    }
}

/// The tokens of `lines` that fall into `split`, in order: each token line
/// gives one token, to the partition that is current before that line, with
/// the document number that is current there.
pub open spec fn split_tokens(lines: Seq<LineModel>, split: Split) -> Seq<TokenModel>
    decreases lines.len(),
{
    if lines.len() == 0 {
        Seq::<TokenModel>::empty()
    } else {
        let before = split_tokens(lines.drop_last(), split);
        let cursor = cursor_after(lines.drop_last());
        match lines.last() {
            LineModel::Token(text, tag) => if cursor.split == split {
                before.push(TokenModel { document_id: cursor.document_id, text, tag })
            } else {
                before
            },
            _ => before,
        }
    }
}

/// The titles of all titled tokens in `lines`.
pub open spec fn candidate_titles(lines: Seq<LineModel>) -> Set<Seq<char>>
    decreases lines.len(),
{
    if lines.len() == 0 {
        Set::<Seq<char>>::empty()
    } else {
        let before = candidate_titles(lines.drop_last());
        match lines.last() {
            LineModel::Token(_, TagModel::Candidate(title)) => before.insert(title),
            _ => before,
        }
    }
}

/// A line that the parser cannot accept.
#[derive(Clone, Copy, Debug, PartialEq, Eq, Structural)]
pub struct ParseError {
    /// Index of the first boundary line whose document number exceeds `u32::MAX`.
    pub line: usize,
}

/// The part of the fifth field that holds the title.
pub fn title_part<'a>(field: &'a str) -> (rest: &'a str)
    ensures
        rest@ == without_prefix(field@),
{
    let n = field.unicode_len();
    let from = if n < TITLE_PREFIX_LEN {
        n
    } else {
        TITLE_PREFIX_LEN
    };
    let rest = field.substring_char(from, n);
    assert(rest@ =~= without_prefix(field@));
    rest
}

/// Classifies one line.
pub fn read_line(line: &str) -> (parsed: Line)
    ensures
        parsed@ == classify_line(line@),
{
    if line.is_empty() {
        return Line::Blank;
    }
    let fields = split_tabs(line);
    proof {
        lemma_split_fields_nonempty(line@, '\t');
    }
    let ghost spec_fields = split_fields(line@, '\t');
    assert(fields@.len() == spec_fields.len());
    assert forall|k: int| 0 <= k < fields@.len() implies fields@[k]@ == #[trigger] spec_fields[k] by {
        assert(slices_view(fields@)[k] == fields@[k]@);
    }
    if fields.len() == 1 {
        match parse_boundary(fields[0]) {
            BoundaryScan::Found(boundary) => {
                return Line::Boundary(boundary);
            },
            BoundaryScan::IdOutOfRange => {
                return Line::BadBoundary;
            },
            BoundaryScan::Absent => {},
        }
    }
    let text = normalize(fields[0]);
    let tag = if fields.len() == 4 {
        EntityTag::OutOfMapping
    } else if fields.len() > 4 {
        EntityTag::Candidate(normalize(title_part(fields[4])))
    } else {
        EntityTag::NoEntity
    };
    Line::Token(text, tag)
}

/// The state of the parser between two lines: the current document and
/// partition, the tokens routed so far and the titles seen so far.
pub struct CorpusParser {
    pub cursor: Boundary,
    pub train: Vec<TaggedToken>,
    pub validation: Vec<TaggedToken>,
    pub test: Vec<TaggedToken>,
    pub titles: TitleSet,
}

/// The mathematical value of a `CorpusParser`.
pub struct CorpusModel {
    pub cursor: Boundary,
    pub train: Seq<TokenModel>,
    pub validation: Seq<TokenModel>,
    pub test: Seq<TokenModel>,
    pub titles: Set<Seq<char>>,
}

impl View for CorpusParser {
    type V = CorpusModel;

    open spec fn view(&self) -> CorpusModel {
        CorpusModel {
            cursor: self.cursor,
            train: tokens_view(self.train@),
            validation: tokens_view(self.validation@),
            test: tokens_view(self.test@),
            titles: self.titles@,
        }
    }
}

/// The state after one more line. A boundary makes its document and
/// partition current; a token goes to the end of the current partition under
/// the current document number, and its title, if it has one, is noted; an
/// empty line and a bad boundary change nothing.
pub open spec fn route(state: CorpusModel, line: LineModel) -> CorpusModel {
    match line {
        LineModel::Blank => state,
        LineModel::BadBoundary => state,
        LineModel::Boundary(boundary) => CorpusModel {
            cursor: boundary,
            train: state.train,
            validation: state.validation,
            test: state.test,
            titles: state.titles,
        },
        LineModel::Token(text, tag) => {
            let token = TokenModel { document_id: state.cursor.document_id, text, tag };
            CorpusModel {
                cursor: state.cursor,
                train: if state.cursor.split == Split::Train {
                    state.train.push(token)
                } else {
                    state.train
                },
                validation: if state.cursor.split == Split::Validation {
                    state.validation.push(token)
                } else {
                    state.validation
                },
                test: if state.cursor.split == Split::Test {
                    state.test.push(token)
                } else {
                    state.test
                },
                titles: match tag {
                    TagModel::Candidate(title) => state.titles.insert(title),
                    _ => state.titles,
                },
            }
        },
    }
}

/// The state after `lines`.
pub open spec fn state_after(lines: Seq<LineModel>) -> CorpusModel {
    CorpusModel {
        cursor: cursor_after(lines),
        train: split_tokens(lines, Split::Train),
        validation: split_tokens(lines, Split::Validation),
        test: split_tokens(lines, Split::Test),
        titles: candidate_titles(lines),
    }
}

/// Routing one more line gives the state after the longer corpus.
pub proof fn lemma_route_extends(lines: Seq<LineModel>, line: LineModel)
    ensures
        route(state_after(lines), line) == state_after(lines.push(line)),
{
    let longer = lines.push(line);
    assert(longer.drop_last() =~= lines);
    assert(longer.last() == line);
    let routed = route(state_after(lines), line);
    let direct = state_after(longer);
    assert(routed.cursor == direct.cursor);
    assert(routed.train == direct.train);
    assert(routed.validation == direct.validation);
    assert(routed.test == direct.test);
    assert(routed.titles == direct.titles);
}

impl CorpusParser {
    /// The state before the first line: document 0 in `Train`, nothing routed.
    pub fn new() -> (parser: CorpusParser)
        ensures
            parser@ == state_after(Seq::<LineModel>::empty()),
    {
        let parser = CorpusParser {
            cursor: Boundary { document_id: 0, split: Split::Train },
            train: Vec::new(),
            validation: Vec::new(),
            test: Vec::new(),
            titles: TitleSet::new(),
        };
        assert(tokens_view(parser.train@) =~= Seq::<TokenModel>::empty());
        assert(tokens_view(parser.validation@) =~= Seq::<TokenModel>::empty());
        assert(tokens_view(parser.test@) =~= Seq::<TokenModel>::empty());
        parser
    }

    /// Takes the next line; says whether it was acceptable, that is, no bad
    /// boundary.
    pub fn accept(&mut self, line: Line) -> (accepted: bool)
        ensures
            accepted == (line@ != LineModel::BadBoundary),
            final(self)@ == route(old(self)@, line@),
    {
        let ghost old_train = tokens_view(self.train@);
        let ghost old_validation = tokens_view(self.validation@);
        let ghost old_test = tokens_view(self.test@);
        match line {
            Line::Blank => true,
            Line::Boundary(boundary) => {
                self.cursor = boundary;
                true
            },
            Line::BadBoundary => false,
            Line::Token(text, tag) => {
                match &tag {
                    EntityTag::Candidate(title) => {
                        self.titles.insert(title.clone());
                    },
                    _ => {},
                }
                let record = TaggedToken { document_id: self.cursor.document_id, text, tag };
                match self.cursor.split {
                    Split::Train => {
                        self.train.push(record);
                        assert(tokens_view(self.train@) =~= old_train.push(record@));
                    },
                    Split::Validation => {
                        self.validation.push(record);
                        assert(tokens_view(self.validation@) =~= old_validation.push(record@));
                    },
                    Split::Test => {
                        self.test.push(record);
                        assert(tokens_view(self.test@) =~= old_test.push(record@));
                    },
                }
                true
            },
        }
    }
}

/// Whether `parsed` is the outcome of parsing lines that classify as `lines`:
/// a failure names the first bad boundary; a success means that there is
/// none, and holds the tokens of the three partitions in corpus order and the
/// titles of all titled tokens.
pub open spec fn parsed_from(
    parsed: Result<((Vec<TaggedToken>, Vec<TaggedToken>, Vec<TaggedToken>), TitleSet), ParseError>,
    lines: Seq<LineModel>,
) -> bool {
    match parsed {
        Ok(((train, validation, test), titles)) => {
            &&& forall|i: int| 0 <= i < lines.len() ==> #[trigger] lines[i] != LineModel::BadBoundary
            &&& tokens_view(train@) == split_tokens(lines, Split::Train)
            &&& tokens_view(validation@) == split_tokens(lines, Split::Validation)
            &&& tokens_view(test@) == split_tokens(lines, Split::Test)
            &&& titles@ == candidate_titles(lines)
        },
        Err(error) => {
            &&& error.line < lines.len()
            &&& lines[error.line as int] == LineModel::BadBoundary
            &&& forall|i: int| 0 <= i < error.line ==> #[trigger] lines[i] != LineModel::BadBoundary
        },
    }
}

/// The values of a vector of classified lines.
pub open spec fn line_models(lines: Seq<Line>) -> Seq<LineModel> {
    Seq::new(lines.len(), |i: int| lines[i]@)
}

/// Routes lines that are already classified.
///
/// Succeeds unless one of them is a bad boundary; then the error names the
/// first such line.
pub fn route_lines(lines: Vec<Line>) -> (parsed: Result<
    ((Vec<TaggedToken>, Vec<TaggedToken>, Vec<TaggedToken>), TitleSet),
    ParseError,
>)
    ensures
        parsed_from(parsed, line_models(lines@)),
{
    let ghost all = line_models(lines@);
    let n = lines.len();
    let mut parser = CorpusParser::new();
    let mut i: usize = 0;
    assert(all.take(0) =~= Seq::<LineModel>::empty());
    for line in it: lines
        invariant
            i == it.index(),
            i <= n,
            n == lines@.len(),
            it.seq() == lines@,
            all == line_models(lines@),
            parser@ == state_after(all.take(i as int)),
            forall|j: int| 0 <= j < i ==> #[trigger] all[j] != LineModel::BadBoundary,
    {
        proof {
            assert(all[i as int] == line@);
            assert(all.take(i as int).push(line@) =~= all.take(i + 1));
            lemma_route_extends(all.take(i as int), line@);
        }
        if !parser.accept(line) {
            return Err(ParseError { line: i });
        }
        i += 1;
    }
    assert(all.take(n as int) =~= all);
    Ok(((parser.train, parser.validation, parser.test), parser.titles))
}

/// Parses a corpus given as its lines (without line terminators).
///
/// Succeeds unless a boundary line carries a document number above
/// `u32::MAX`; then the error names the first such line. On success the three
/// vectors hold the tokens of the `Train`, `Validation` and `Test` partitions
/// in corpus order, and the set holds the titles of all titled tokens.
pub fn parse_conll(lines: &Vec<String>) -> (parsed: Result<
    ((Vec<TaggedToken>, Vec<TaggedToken>, Vec<TaggedToken>), TitleSet),
    ParseError,
>)
    ensures
        parsed_from(parsed, classified(lines_view(lines@))),
{
    let ghost all = classified(lines_view(lines@));
    let mut parser = CorpusParser::new();
    let mut i: usize = 0;
    assert(all.take(0) =~= Seq::<LineModel>::empty());
    while i < lines.len()
        invariant
            i <= lines@.len(),
            all == classified(lines_view(lines@)),
            parser@ == state_after(all.take(i as int)),
            forall|j: int| 0 <= j < i ==> #[trigger] all[j] != LineModel::BadBoundary,
        decreases lines@.len() - i,
    {
        let line = read_line(lines[i].as_str());
        proof {
            assert(all[i as int] == line@);
            assert(all.take(i as int).push(line@) =~= all.take(i + 1));
            lemma_route_extends(all.take(i as int), line@);
        }
        if !parser.accept(line) {
            return Err(ParseError { line: i });
        }
        i += 1;
    }
    assert(all.take(lines@.len() as int) =~= all);
    Ok(((parser.train, parser.validation, parser.test), parser.titles))
}

} // verus!
