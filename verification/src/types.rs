//! Statistics and errors of the cache.

use vstd::prelude::*;

verus! {

/// How often a read found its key, and how often it did not.
#[derive(Debug)]
pub struct CacheStats {
    pub hits: usize,
    pub misses: usize,
}

impl Default for CacheStats {
    fn default() -> (stats: Self)
        ensures
            stats.hits == 0,
            stats.misses == 0,
    {
        CacheStats { hits: 0, misses: 0 }
    }
}

/// Why an operation on a cache failed.
#[derive(Debug)]
pub enum CacheError {
    /// A guard around the cache was left poisoned by a holder that panicked.
    /// The cache itself takes exclusive access for every operation and hands
    /// out no guards, so only code that shares a cache behind a lock reports
    /// this.
    LockError(String),
    /// A cache was asked for with a capacity below one.
    CapacityError(String),
}

/// Appends `tail` to `text` with `String::push_str` of the standard
/// library. Trusted: the text afterwards is taken to be the text before,
/// followed by the characters of `tail`, as that function documents.
#[verifier::external_body]
fn push_text(text: &mut String, tail: &str)
    ensures
        final(text)@ == old(text)@ + tail@,
{
    text.push_str(tail)
}

impl CacheError {
    /// The text of the error: what kind it is, then what was reported.
    pub open spec fn text(self) -> Seq<char> {
        match self {
            CacheError::LockError(msg) => "Lock error: "@ + msg@,
            CacheError::CapacityError(msg) => "Capacity error: "@ + msg@,
        }
    }

    /// The error as a line of text.
    pub fn message(&self) -> (line: String)
        ensures
            line@ == self.text(),
    {
        match self {
            CacheError::LockError(msg) => {
                let mut line = "Lock error: ".to_string();
                push_text(&mut line, msg.as_str());
                line
            },
            CacheError::CapacityError(msg) => {
                let mut line = "Capacity error: ".to_string();
                push_text(&mut line, msg.as_str());
                line
            },
        }
    }
}

} // verus!
