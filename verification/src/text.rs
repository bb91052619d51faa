//! Character-level helpers: field splitting and space-joined text.

use vstd::prelude::*;
use vstd::string::*;

verus! {

/// The fields of `s` when cut at every occurrence of `sep`.
///
/// Built from the left one character at a time: a separator opens a new
/// (empty) field, any other character extends the last field.
pub open spec fn split_fields(s: Seq<char>, sep: char) -> Seq<Seq<char>>
    decreases s.len(),
{
    if s.len() == 0 {
        seq![Seq::<char>::empty()]
    } else {
        let before = split_fields(s.drop_last(), sep);
        if s.last() == sep {
            before.push(Seq::<char>::empty())
        } else {
            before.update(before.len() - 1, before.last().push(s.last()))
        }
    }
}

/// The pieces joined, with `sep` between each two neighbours.
pub open spec fn join_with(pieces: Seq<Seq<char>>, sep: char) -> Seq<char>
    decreases pieces.len(),
{
    if pieces.len() == 0 {
        Seq::<char>::empty()
    } else if pieces.len() == 1 {
        pieces[0]
    } else {
        join_with(pieces.drop_last(), sep) + seq![sep] + pieces.last()
    }
}

/// The words joined by single spaces.
pub open spec fn join_words(words: Seq<Seq<char>>) -> Seq<char> {
    join_with(words, ' ')
}

/// The views of a vector of string slices.
pub open spec fn slices_view(fields: Seq<&str>) -> Seq<Seq<char>> {
    Seq::new(fields.len(), |i: int| fields[i]@)
}

/// There is always at least one field.
pub proof fn lemma_split_fields_nonempty(s: Seq<char>, sep: char)
    ensures
        split_fields(s, sep).len() >= 1,
    decreases s.len(),
{
    if s.len() > 0 {
        lemma_split_fields_nonempty(s.drop_last(), sep);
    }
}

/// Splitting loses nothing and cuts at every separator: no field holds the
/// separator, and the fields joined by it give the text back.
pub proof fn lemma_split_fields_is_inverse_of_join(s: Seq<char>, sep: char)
    ensures
        join_with(split_fields(s, sep), sep) == s,
        forall|k: int, i: int|
            0 <= k < split_fields(s, sep).len() && 0 <= i < split_fields(s, sep)[k].len()
                ==> (#[trigger] split_fields(s, sep)[k][i]) != sep,
    decreases s.len(),
{
    if s.len() == 0 {
        assert(join_with(seq![Seq::<char>::empty()], sep) =~= s);
    } else {
        let shorter = s.drop_last();
        let before = split_fields(shorter, sep);
        lemma_split_fields_nonempty(shorter, sep);
        lemma_split_fields_is_inverse_of_join(shorter, sep);
        let fields = split_fields(s, sep);
        if s.last() == sep {
            assert(fields.drop_last() =~= before);
            assert(join_with(fields, sep) =~= shorter + seq![sep]);
            assert(shorter + seq![sep] =~= s);
        } else {
            let extended = before.last().push(s.last());
            if before.len() == 1 {
                assert(join_with(fields, sep) =~= before[0].push(s.last()));
            } else {
                assert(fields.drop_last() =~= before.drop_last());
                assert(join_with(fields, sep) =~= join_with(before.drop_last(), sep) + seq![sep]
                    + extended);
                assert(join_with(before, sep) =~= join_with(before.drop_last(), sep) + seq![sep]
                    + before.last());
            }
            assert(join_with(fields, sep) =~= shorter.push(s.last()));
            assert(shorter.push(s.last()) =~= s);
        }
    }
}

/// Joining two non-empty lists of pieces one after the other is joining each
/// and putting one separator between the results.
pub proof fn lemma_join_with_concat(first: Seq<Seq<char>>, second: Seq<Seq<char>>, sep: char)
    requires
        first.len() > 0,
        second.len() > 0,
    ensures
        join_with(first + second, sep) == join_with(first, sep) + seq![sep] + join_with(
            second,
            sep,
        ),
    decreases second.len(),
{
    let both = first + second;
    assert(both.last() == second.last());
    if second.len() == 1 {
        assert(both.drop_last() =~= first);
        assert(join_with(second, sep) == second[0]);
    } else {
        assert(both.drop_last() =~= first + second.drop_last());
        lemma_join_with_concat(first, second.drop_last(), sep);
        assert(join_with(both, sep) =~= join_with(first, sep) + seq![sep] + join_with(second, sep));
    }
}

/// Non-empty pieces join to a non-empty text.
pub proof fn lemma_join_with_nonempty(pieces: Seq<Seq<char>>, sep: char)
    requires
        pieces.len() > 0,
        forall|i: int| 0 <= i < pieces.len() ==> (#[trigger] pieces[i]).len() > 0,
    ensures
        join_with(pieces, sep).len() > 0,
{
    if pieces.len() > 1 {
        assert(join_with(pieces, sep).len() >= pieces.last().len());
    }
}

/// The characters of `s`, in order.
pub fn chars_of(s: &str) -> (chars: Vec<char>)
    ensures
        chars@ == s@,
{
    let mut chars: Vec<char> = Vec::new();
    for c in it: s.chars()
        invariant
            chars@ == it.seq().take(it.index() as int),
            it.seq() == s@,
    {
        chars.push(c);
    }
    chars
}

/// Cuts `line` at every tab.
pub fn split_tabs<'a>(line: &'a str) -> (fields: Vec<&'a str>)
    ensures
        slices_view(fields@) == split_fields(line@, '\t'),
{
    let chars = chars_of(line);
    let n = chars.len();
    let mut fields: Vec<&'a str> = Vec::new();
    let mut start: usize = 0;
    let mut i: usize = 0;
    assert(line@.take(0) =~= Seq::<char>::empty());
    assert(slices_view(fields@).push(line@.subrange(0, 0)) =~= seq![Seq::<char>::empty()]);
    while i < n
        invariant
            n == line@.len(),
            chars@ == line@,
            start <= i <= n,
            split_fields(line@.take(i as int), '\t') == slices_view(fields@).push(
                line@.subrange(start as int, i as int),
            ),
        decreases n - i,
    {
        let ghost before = split_fields(line@.take(i as int), '\t');
        let ghost old_fields = slices_view(fields@);
        assert(line@.take(i + 1).drop_last() =~= line@.take(i as int));
        assert(line@.take(i + 1).last() == chars@[i as int]);
        if chars[i] == '\t' {
            let field = line.substring_char(start, i);
            fields.push(field);
            start = i + 1;
            assert(slices_view(fields@) =~= old_fields.push(field@));
            assert(line@.subrange(start as int, i + 1) =~= Seq::<char>::empty());
        } else {
            assert(line@.subrange(start as int, i as int).push(chars@[i as int])
                =~= line@.subrange(start as int, i + 1));
            assert(before.update(before.len() - 1, before.last().push(chars@[i as int]))
                =~= old_fields.push(line@.subrange(start as int, i + 1)));
        }
        i += 1;
    }
    assert(line@.take(n as int) =~= line@);
    let ghost old_fields = slices_view(fields@);
    let field = line.substring_char(start, n);
    fields.push(field);
    assert(slices_view(fields@) =~= old_fields.push(field@));
    fields
}

} // verus!
