//! The fetch abstraction: the embedding application supplies how a
//! location string (URL or file path) becomes UTF-8 text. The engine
//! itself never touches the file system or the network; everything it
//! guarantees holds for every behaviour of the fetcher.

use vstd::prelude::*;

use crate::location::str_eq;

verus! {

/// Why a fetch failed.
#[derive(Clone, Copy, Debug, PartialEq, Eq, Structural)]
pub enum FetchFileError {
    IoError,
    HttpError,
}

/// A source of document text, keyed by a fetch-location string.
pub trait FetchFile {
    /// Fetches the text behind `location`.
    fn fetch_file(&mut self, location: &str) -> Result<String, FetchFileError>;
}

/// An in-memory fetcher: a table from location strings to document text,
/// counting how often it is asked. Useful on its own and as the engine's
/// reference fetcher in tests.
pub struct MemoryFetchFile {
    entries: Vec<(String, String)>,
    calls: u64,
}

impl MemoryFetchFile {
    /// The table of documents, in the order they were added.
    pub closed spec fn table(&self) -> Seq<(Seq<char>, Seq<char>)> {
        Seq::new(self.entries@.len(), |i: int| (self.entries@[i].0@, self.entries@[i].1@))
    }

    /// An empty table.
    pub fn new() -> (r: MemoryFetchFile)
        ensures
            r.fetch_calls() == 0,
            r.table() == Seq::<(Seq<char>, Seq<char>)>::empty(),
    {
        let r = MemoryFetchFile { entries: Vec::new(), calls: 0 };
        proof {
            assert(r.table() =~= Seq::<(Seq<char>, Seq<char>)>::empty());
        }
        r
    }

    /// Adds a document under its fetch location.
    pub fn add(&mut self, location: String, text: String)
        ensures
            final(self).fetch_calls() == old(self).fetch_calls(),
            final(self).table() == old(self).table().push((location@, text@)),
    {
        let ghost pre = self.table();
        self.entries.push((location, text));
        proof {
            assert(self.table() =~= pre.push((location@, text@)));
        }
    }

    /// How many times the fetcher has been asked for a document.
    pub closed spec fn fetch_calls(&self) -> nat {
        self.calls as nat
    }

    /// How many times the fetcher has been asked for a document.
    pub fn calls(&self) -> (r: u64)
        ensures
            r == self.fetch_calls(),
    {
        self.calls
    }
}

impl FetchFile for MemoryFetchFile {
    fn fetch_file(&mut self, location: &str) -> Result<String, FetchFileError> {
        if self.calls < u64::MAX {
            self.calls = self.calls + 1;
        }
        let n = self.entries.len();
        let mut i: usize = 0;
        while i < n
            invariant
                i <= n,
                n == self.entries.len(),
            decreases n - i,
        {
            if str_eq(self.entries[i].0.as_str(), location) {
                return Ok(self.entries[i].1.clone());
            }
            i += 1;
        }
        Err(FetchFileError::IoError)
    }
}

} // verus!
