//! The set of entity titles that a corpus refers to, kept in a `hashbrown::HashSet`.

use vstd::prelude::*;

verus! {

/// A set of titles.
#[derive(Debug)]
#[verifier::external_body]
pub struct TitleSet {
    inner: hashbrown::HashSet<String>,
}

/// The titles that a `TitleSet` holds.
pub uninterp spec fn title_set_contents(titles: TitleSet) -> Set<Seq<char>>;

impl View for TitleSet {
    type V = Set<Seq<char>>;

    open spec fn view(&self) -> Set<Seq<char>> {
        title_set_contents(*self)
    }
}

/// Calls `hashbrown::HashSet::new`.
///
/// Trusted: the new set holds nothing.
#[verifier::external_body]
fn set_new() -> (titles: TitleSet)
    ensures
        title_set_contents(titles) == Set::<Seq<char>>::empty(),
{
    TitleSet { inner: hashbrown::HashSet::new() }
}

/// Calls `hashbrown::HashSet::insert`.
///
/// Trusted: afterwards the set holds what it held and `title`; the result
/// says whether `title` was new.
#[verifier::external_body]
fn set_insert(titles: &mut TitleSet, title: String) -> (added: bool)
    ensures
        title_set_contents(*final(titles)) == title_set_contents(*old(titles)).insert(title@),
        added == !title_set_contents(*old(titles)).contains(title@),
{
    titles.inner.insert(title)
}

/// Calls `hashbrown::HashSet::contains`.
///
/// Trusted: the result says whether the set holds `title`.
#[verifier::external_body]
fn set_contains(titles: &TitleSet, title: &str) -> (found: bool)
    ensures
        found == title_set_contents(*titles).contains(title@),
{
    titles.inner.contains(title)
}

/// Calls `hashbrown::HashSet::len`.
///
/// Trusted: the result is the number of titles in the set.
#[verifier::external_body]
fn set_len(titles: &TitleSet) -> (count: usize)
    ensures
        title_set_contents(*titles).finite() ==> count == title_set_contents(*titles).len(),
{
    titles.inner.len()
}

impl TitleSet {
    /// An empty set.
    pub fn new() -> (titles: TitleSet)
        ensures
            titles@ == Set::<Seq<char>>::empty(),
    {
        set_new()
    }

    /// Adds `title`; says whether it was new.
    pub fn insert(&mut self, title: String) -> (added: bool)
        ensures
            final(self)@ == old(self)@.insert(title@),
            added == !old(self)@.contains(title@),
    {
        set_insert(self, title)
    }

    /// Whether the set holds `title`.
    pub fn contains(&self, title: &str) -> (found: bool)
        ensures
            found == self@.contains(title@),
    {
        set_contains(self, title)
    }

    /// The number of titles in the set.
    pub fn len(&self) -> (count: usize)
        ensures
            self@.finite() ==> count == self@.len(),
    {
        set_len(self)
    }
}

} // verus!
