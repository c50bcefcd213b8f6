//! Connection configuration and the progress-observer hook.
//!
//! A session is built from a [`FocusBuilder`]: the endpoint to open, the
//! chunk size used when pacing a request onto the wire, and the interval
//! (in milliseconds) slept between chunks and between reads. Opening the
//! endpoint is the embedding program's job; the builder only carries the
//! configuration, with its defaults.

use vstd::prelude::*;
use vstd::string::*;

verus! {

/// Chunk size used when none is configured.
pub const DEFAULT_CHUNK_SIZE: usize = 32;

/// Interval in milliseconds used when none is configured.
pub const DEFAULT_INTERVAL_MS: u64 = 50;

/// Configuration for one connection to a device, built up fluently.
///
/// `chunk_size == 0` means the whole request is written unchunked.
pub struct FocusBuilder {
    /// The endpoint (serial device path) to open.
    pub device: String,
    /// Requests are written in runs of at most this many bytes.
    pub chunk_size: usize,
    /// Milliseconds slept between chunk writes and between reads.
    pub interval: u64,
}

impl FocusBuilder {
    /// Start building a connection to `device`, with the default pacing.
    pub fn create(device: &str) -> (b: FocusBuilder)
        ensures
            b.device@ == device@,
            b.chunk_size == DEFAULT_CHUNK_SIZE,
            b.interval == DEFAULT_INTERVAL_MS,
    {
        FocusBuilder { device: String::from_str(device), chunk_size: 32, interval: 50 }
    }

    /// Set the chunk size used for writes; 0 disables chunking.
    pub fn chunk_size(self, chunk_size: usize) -> (b: Self)
        ensures
            b.device == self.device,
            b.chunk_size == chunk_size,
            b.interval == self.interval,
    {
        FocusBuilder { chunk_size, ..self }
    }

    /// Set the interval between chunks, in milliseconds.
    pub fn interval(self, interval: u64) -> (b: Self)
        ensures
            b.device == self.device,
            b.chunk_size == self.chunk_size,
            b.interval == interval,
    {
        FocusBuilder { interval, ..self }
    }
}

/// Options shared by every command-line invocation that talks to a device.
pub struct ConnectionOptions {
    /// An explicitly chosen endpoint; `None` asks for auto-discovery.
    pub device: Option<String>,
    /// Size of the runs a request is written in; 0 writes it all at once.
    pub chunk_size: usize,
    /// Operate quietly, without progress reporting.
    pub quiet: bool,
}

impl Default for ConnectionOptions {
    /// No explicit endpoint, the default chunk size, progress shown.
    fn default() -> (opts: Self)
        ensures
            opts.device is None,
            opts.chunk_size == DEFAULT_CHUNK_SIZE,
            !opts.quiet,
    {
        ConnectionOptions { device: None, chunk_size: 32, quiet: false }
    }
}

/// One send invocation: the request to issue and the reply to display.
pub struct Send {
    /// Connection options shared by every invocation.
    pub shared: ConnectionOptions,
    /// The command to send.
    pub command: String,
    /// Optional arguments for the command.
    pub args: Vec<String>,
}

/// One backup invocation.
pub struct Backup {
    /// Connection options shared by every invocation.
    pub shared: ConnectionOptions,
}

/// One restore invocation.
pub struct Restore {
    /// Connection options shared by every invocation.
    pub shared: ConnectionOptions,
}

/// Progress reporting around each send and receive pass.
///
/// `reset` is called once before a pass begins with the expected total;
/// `progress` many times during it with the size of each completed step.
/// Purely advisory: nothing the protocol decides depends on the observer.
pub trait ProgressReport {
    /// A new pass begins; `length` is its expected total, 0 when unknown.
    fn reset(&self, length: usize);

    /// A step of `delta` bytes (or items) of the current pass completed.
    fn progress(&self, delta: usize);
}

} // verus!
