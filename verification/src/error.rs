//! Errors, and the settings a store is opened with.

use vstd::prelude::*;

verus! {

/// What went wrong.
#[derive(Clone, Copy, Debug, PartialEq, Eq, Structural)]
pub enum ErrorKind {
    /// The object store could not read or write.
    Io,
    /// Bytes that should hold a leaf do not.
    Corruption,
    /// The caller handed over something that cannot be used.
    InvalidInput,
    /// Anything else, the shutdown of the store among it.
    Other,
}

/// An error: its kind and a message.
#[derive(Debug)]
pub struct Error {
    pub kind: ErrorKind,
    pub reason: String,
}

/// An error as a plain value.
pub struct ErrorView {
    pub kind: ErrorKind,
    pub reason: Seq<char>,
}

impl View for Error {
    type V = ErrorView;

    open spec fn view(&self) -> ErrorView {
        ErrorView { kind: self.kind, reason: self.reason@ }
    }
}

/// An optional error as a plain value.
pub open spec fn opt_error_view(e: Option<Error>) -> Option<ErrorView> {
    match e {
        Some(e) => Some(e@),
        None => None,
    }
}

impl Error {
    /// An error of `kind` with the message `reason`.
    pub fn new(kind: ErrorKind, reason: &str) -> (e: Error)
        ensures
            e@ == (ErrorView { kind, reason: reason@ }),
    {
        Error { kind, reason: reason.to_owned() }
    }

    /// A copy of the error.
    pub fn duplicate(&self) -> (e: Error)
        ensures
            e@ == self@,
    {
        Error { kind: self.kind, reason: self.reason.clone() }
    }

    /// The message, for callers that print it.
    pub fn message(&self) -> (s: String)
        ensures
            s@ == self@.reason,
    {
        self.reason.clone()
    }
}

/// The settings of a store.
pub struct Config {
    /// Where the object store keeps its files.
    pub path: String,
    /// How many bytes of leaves to keep in memory.
    pub cache_capacity_bytes: usize,
    /// The share of the cache, in percent, for leaves seen once.
    pub entry_cache_percent: u8,
    /// The level at which leaves are compressed.
    pub zstd_compression_level: i32,
    /// The pause between two flushes of the background flusher, if there is
    /// one.
    pub flush_every_ms: Option<usize>,
}

impl Config {
    /// A copy of the settings.
    pub fn duplicate(&self) -> (c: Config)
        ensures
            c.path@ == self.path@,
            c.cache_capacity_bytes == self.cache_capacity_bytes,
            c.entry_cache_percent == self.entry_cache_percent,
            c.zstd_compression_level == self.zstd_compression_level,
            c.flush_every_ms == self.flush_every_ms,
    {
        Config {
            path: self.path.clone(),
            cache_capacity_bytes: self.cache_capacity_bytes,
            entry_cache_percent: self.entry_cache_percent,
            zstd_compression_level: self.zstd_compression_level,
            flush_every_ms: self.flush_every_ms,
        }
    }
}

/// The time in nanoseconds between two flushes in the background: the
/// interval of `flush_every_ms` milliseconds less the time that the last
/// flush took, and one millisecond at least.
pub open spec fn flush_wait(flush_every_ms: int, last_flush_nanos: int) -> int {
    let rest = flush_every_ms * 1_000_000 - last_flush_nanos;
    if rest > 1_000_000 {
        rest
    } else {
        1_000_000
    }
}

/// How long the flusher waits before the next flush, in nanoseconds.
pub fn flush_wait_nanos(flush_every_ms: usize, last_flush_nanos: u128) -> (wait: u128)
    ensures
        wait == flush_wait(flush_every_ms as int, last_flush_nanos as int),
{
    let interval: u128 = (flush_every_ms as u128) * 1_000_000;
    if interval > last_flush_nanos && interval - last_flush_nanos > 1_000_000 {
        interval - last_flush_nanos
    } else {
        1_000_000
    }
}

impl Default for Config {
    fn default() -> (c: Config)
        ensures
            c.cache_capacity_bytes == 512 * 1024 * 1024,
            c.entry_cache_percent == 20,
            c.zstd_compression_level == 3,
            c.flush_every_ms == Some(200usize),
    {
        Config {
            path: "bloodstone.default".to_owned(),
            cache_capacity_bytes: 512 * 1024 * 1024,
            entry_cache_percent: 20,
            zstd_compression_level: 3,
            flush_every_ms: Some(200),
        }
    }
}

} // verus!
