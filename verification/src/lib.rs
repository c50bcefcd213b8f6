//! Talking to Kaleidoscope powered devices.
//!
//! The crate models the Focus protocol: request framing and chunked
//! transmission, reply accumulation and normalization, device discovery,
//! and the backup/restore orchestration built on repeated request/reply
//! cycles. Serial I/O itself is left to the program embedding the crate;
//! every decision the protocol makes is specified and verified here.

pub mod backup;
pub mod discovery;
pub mod reply;
pub mod request;
pub mod session;

pub use backup::{BackupData, BackupRun};
pub use discovery::{find_devices, pick_device, DeviceDescriptor, PortListing};
pub use reply::{cleanup_reply, ReadEvent, ReadStep, ReplyAccumulator};
pub use request::{chunk_plan, encode_request, flush_chunks, request_chunks};
pub use session::{Backup, ConnectionOptions, FocusBuilder, ProgressReport, Restore, Send};
