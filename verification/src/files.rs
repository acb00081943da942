//! What the expander knows of the file system.
//!
//! The expander reads no file itself. It works from a table of answers,
//! `KnownFiles`, and where an answer is missing it halts with the `Query`
//! that would give it. Whoever owns the file system answers the query,
//! records the answer, and asks for the expansion again. An answer, once
//! recorded, is never replaced, so every run sees the file system that the
//! runs before it saw.

use crate::error::{ErrorView, PreprocessorError};
use vstd::prelude::*;

verus! {

/// Why a file could not be read.
#[derive(Debug, Clone, PartialEq, Eq)]
pub enum ReadFailure {
    /// There is no such file.
    NotFound,
    /// The file may not be read.
    PermissionDenied,
    /// Anything else, with the file system's own words.
    Other { cause: String },
}

/// The mathematical value of a `ReadFailure`.
pub enum ReadFailureView {
    NotFound,
    PermissionDenied,
    Other { cause: Seq<char> },
}

impl View for ReadFailure {
    type V = ReadFailureView;

    open spec fn view(&self) -> ReadFailureView {
        match *self {
            ReadFailure::NotFound => ReadFailureView::NotFound,
            ReadFailure::PermissionDenied => ReadFailureView::PermissionDenied,
            ReadFailure::Other { cause } => ReadFailureView::Other { cause: cause@ },
        }
    }
}

/// A question to the file system.
#[derive(Debug, Clone, PartialEq, Eq)]
pub enum Query {
    /// What is the canonical form of `path`: absolute, with symbolic links
    /// followed and `.` and `..` taken out?
    Canonicalize { path: String },
    /// Does `path` name a regular file?
    RegularFile { path: String },
    /// What does the file at `path` hold?
    Read { path: String },
}

/// The mathematical value of a `Query`.
pub enum QueryView {
    Canonicalize { path: Seq<char> },
    RegularFile { path: Seq<char> },
    Read { path: Seq<char> },
}

impl View for Query {
    type V = QueryView;

    open spec fn view(&self) -> QueryView {
        match *self {
            Query::Canonicalize { path } => QueryView::Canonicalize { path: path@ },
            Query::RegularFile { path } => QueryView::RegularFile { path: path@ },
            Query::Read { path } => QueryView::Read { path: path@ },
        }
    }
}

/// Why an expansion stopped without a result.
#[derive(Debug, Clone, PartialEq, Eq)]
pub enum Halt {
    /// It failed, for good.
    Failed(PreprocessorError),
    /// It needs the answer to this query, and can be run again once the
    /// answer is recorded.
    Needs(Query),
}

/// The mathematical value of a `Halt`.
pub enum HaltView {
    Failed(ErrorView),
    Needs(QueryView),
}

impl View for Halt {
    type V = HaltView;

    open spec fn view(&self) -> HaltView {
        match *self {
            Halt::Failed(e) => HaltView::Failed(e@),
            Halt::Needs(q) => HaltView::Needs(q@),
        }
    }
}

/// The mathematical value of a `KnownFiles`: for each kind of query, the
/// answers by path.
pub struct FactsView {
    /// The canonical form of a path, or why it has none.
    pub canonical: Map<Seq<char>, Result<Seq<char>, Seq<char>>>,
    /// Whether a path names a regular file.
    pub regular: Map<Seq<char>, bool>,
    /// What the file at a path holds, or why it could not be read.
    pub contents: Map<Seq<char>, Result<Seq<char>, ReadFailureView>>,
}

impl FactsView {
    /// Whether the answer to `query` is known.
    pub open spec fn answers(self, query: QueryView) -> bool {
        match query {
            QueryView::Canonicalize { path } => self.canonical.contains_key(path),
            QueryView::RegularFile { path } => self.regular.contains_key(path),
            QueryView::Read { path } => self.contents.contains_key(path),
        }
    }

    /// Whether `other` knows all that `self` knows, with the same answers.
    pub open spec fn within(self, other: FactsView) -> bool {
        &&& self.canonical.submap_of(other.canonical)
        &&& self.regular.submap_of(other.regular)
        &&& self.contents.submap_of(other.contents)
    }
}

/// The value of an answer to `Query::Canonicalize`.
pub open spec fn canonical_view(answer: Result<String, String>) -> Result<Seq<char>, Seq<char>> {
    match answer {
        Ok(path) => Ok(path@),
        Err(cause) => Err(cause@),
    }
}

/// The value of an answer to `Query::Read`.
pub open spec fn content_view(answer: Result<String, ReadFailure>) -> Result<
    Seq<char>,
    ReadFailureView,
> {
    match answer {
        Ok(text) => Ok(text@),
        Err(failure) => Err(failure@),
    }
}

/// The first entry of `entries` under `key`.
spec fn found<V>(entries: Seq<(String, V)>, key: Seq<char>) -> Option<V>
    decreases entries.len(),
{
    if entries.len() == 0 {
        None
    } else {
        match found(entries.drop_last(), key) {
            Some(value) => Some(value),
            None => if entries.last().0@ == key {
                Some(entries.last().1)
            } else {
                None
            },
        }
    }
}

/// An entry that was found stays the first under its key when more follow.
proof fn lemma_found_stays<V>(entries: Seq<(String, V)>, key: Seq<char>, n: int)
    requires
        0 <= n <= entries.len(),
        found(entries.take(n), key) is Some,
    ensures
        found(entries, key) == found(entries.take(n), key),
    decreases entries.len() - n,
{
    if n < entries.len() {
        assert(entries.take(n + 1).drop_last() =~= entries.take(n));
        lemma_found_stays(entries, key, n + 1);
    } else {
        assert(entries.take(n) =~= entries);
    }
}

/// The index of the first entry of `entries` under `key`.
fn position<V>(entries: &Vec<(String, V)>, key: &str) -> (r: Option<usize>)
    ensures
        match r {
            Some(i) => i < entries.len() && found(entries@, key@) == Some(entries@[i as int].1),
            None => found(entries@, key@) is None,
        },
{
    let wanted = String::from_str(key);
    let mut i: usize = 0;
    assert(entries@.take(0) =~= Seq::empty());
    while i < entries.len()
        invariant
            i <= entries.len(),
            wanted@ == key@,
            found(entries@.take(i as int), key@) is None,
        decreases entries.len() - i,
    {
        assert(entries@.take(i + 1).drop_last() =~= entries@.take(i as int));
        if entries[i].0 == wanted {
            proof {
                lemma_found_stays(entries@, key@, i + 1);
            }
            return Some(i);
        }
        i += 1;
    }
    assert(entries@.take(i as int) =~= entries@);
    None
}

/// Adds `value` under `key` unless the key has an entry.
fn insert_absent<V>(entries: &mut Vec<(String, V)>, key: &str, value: V)
    ensures
        forall|k: Seq<char>|
            found(final(entries)@, k) == if k == key@ && found(old(entries)@, k) is None {
                Some(value)
            } else {
                #[trigger] found(old(entries)@, k)
            },
{
    if position(entries, key).is_none() {
        let ghost before = entries@;
        entries.push((String::from_str(key), value));
        assert(entries@.drop_last() =~= before);
    }
}

/// The answers that the file system has given so far.
pub struct KnownFiles {
    canonical: Vec<(String, Result<String, String>)>,
    regular: Vec<(String, bool)>,
    contents: Vec<(String, Result<String, ReadFailure>)>,
}

impl View for KnownFiles {
    type V = FactsView;

    closed spec fn view(&self) -> FactsView {
        FactsView {
            canonical: Map::new(
                |p: Seq<char>| found(self.canonical@, p) is Some,
                |p: Seq<char>| canonical_view(found(self.canonical@, p).unwrap()),
            ),
            regular: Map::new(
                |p: Seq<char>| found(self.regular@, p) is Some,
                |p: Seq<char>| found(self.regular@, p).unwrap(),
            ),
            contents: Map::new(
                |p: Seq<char>| found(self.contents@, p) is Some,
                |p: Seq<char>| content_view(found(self.contents@, p).unwrap()),
            ),
        }
    }
}

impl KnownFiles {
    /// A table without answers.
    pub fn new() -> (files: Self)
        ensures
            files@.canonical == Map::<Seq<char>, Result<Seq<char>, Seq<char>>>::empty(),
            files@.regular == Map::<Seq<char>, bool>::empty(),
            files@.contents == Map::<Seq<char>, Result<Seq<char>, ReadFailureView>>::empty(),
    {
        let files = KnownFiles { canonical: Vec::new(), regular: Vec::new(), contents: Vec::new() };
        assert(files@.canonical =~= Map::empty());
        assert(files@.regular =~= Map::empty());
        assert(files@.contents =~= Map::empty());
        files
    }

    /// The canonical form of `path`, or why it has none, if that is known.
    pub fn canonical_path(&self, path: &str) -> (r: Option<&Result<String, String>>)
        ensures
            match r {
                Some(answer) => self@.canonical.contains_key(path@) && self@.canonical[path@]
                    == canonical_view(*answer),
                None => !self@.canonical.contains_key(path@),
            },
    {
        match position(&self.canonical, path) {
            Some(i) => Some(&self.canonical[i].1),
            None => None,
        }
    }

    /// Whether `path` names a regular file, if that is known.
    pub fn is_regular_file(&self, path: &str) -> (r: Option<bool>)
        ensures
            match r {
                Some(answer) => self@.regular.contains_key(path@) && self@.regular[path@]
                    == answer,
                None => !self@.regular.contains_key(path@),
            },
    {
        match position(&self.regular, path) {
            Some(i) => Some(self.regular[i].1),
            None => None,
        }
    }

    /// What the file at `path` holds, or why it could not be read, if that
    /// is known.
    pub fn content(&self, path: &str) -> (r: Option<&Result<String, ReadFailure>>)
        ensures
            match r {
                Some(answer) => self@.contents.contains_key(path@) && self@.contents[path@]
                    == content_view(*answer),
                None => !self@.contents.contains_key(path@),
            },
    {
        match position(&self.contents, path) {
            Some(i) => Some(&self.contents[i].1),
            None => None,
        }
    }

    /// Whether the answer to `query` is known.
    pub fn answers(&self, query: &Query) -> (r: bool)
        ensures
            r == self@.answers(query@),
    {
        match query {
            Query::Canonicalize { path } => self.canonical_path(path.as_str()).is_some(),
            Query::RegularFile { path } => self.is_regular_file(path.as_str()).is_some(),
            Query::Read { path } => self.content(path.as_str()).is_some(),
        }
    }

    /// Records the canonical form of `path`, or why it has none. Where the
    /// answer is known already, it stays.
    pub fn record_canonical(&mut self, path: &str, answer: Result<String, String>)
        ensures
            final(self)@.canonical == if old(self)@.canonical.contains_key(path@) {
                old(self)@.canonical
            } else {
                old(self)@.canonical.insert(path@, canonical_view(answer))
            },
            final(self)@.regular == old(self)@.regular,
            final(self)@.contents == old(self)@.contents,
    {
        insert_absent(&mut self.canonical, path, answer);
        assert(self@.canonical =~= if old(self)@.canonical.contains_key(path@) {
            old(self)@.canonical
        } else {
            old(self)@.canonical.insert(path@, canonical_view(answer))
        });
    }

    /// Records whether `path` names a regular file. Where the answer is
    /// known already, it stays.
    pub fn record_regular_file(&mut self, path: &str, answer: bool)
        ensures
            final(self)@.regular == if old(self)@.regular.contains_key(path@) {
                old(self)@.regular
            } else {
                old(self)@.regular.insert(path@, answer)
            },
            final(self)@.canonical == old(self)@.canonical,
            final(self)@.contents == old(self)@.contents,
    {
        insert_absent(&mut self.regular, path, answer);
        assert(self@.regular =~= if old(self)@.regular.contains_key(path@) {
            old(self)@.regular
        } else {
            old(self)@.regular.insert(path@, answer)
        });
    }

    /// Records what the file at `path` holds, or why it could not be read.
    /// Where the answer is known already, it stays.
    pub fn record_content(&mut self, path: &str, answer: Result<String, ReadFailure>)
        ensures
            final(self)@.contents == if old(self)@.contents.contains_key(path@) {
                old(self)@.contents
            } else {
                old(self)@.contents.insert(path@, content_view(answer))
            },
            final(self)@.canonical == old(self)@.canonical,
            final(self)@.regular == old(self)@.regular,
    {
        insert_absent(&mut self.contents, path, answer);
        assert(self@.contents =~= if old(self)@.contents.contains_key(path@) {
            old(self)@.contents
        } else {
            old(self)@.contents.insert(path@, content_view(answer))
        });
    }
}

} // verus!
