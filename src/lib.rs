//! Export of a remote key-value namespace of view counters into a sorted
//! comma-separated table.
//!
//! The library holds the decisions of an export run: the request targets for
//! the listing call and for each per-key fetch, the assembly of the fetch
//! outcomes into one ordered record set (or the error that aborts the run),
//! and the bytes of the table. Network and file access are left to the caller.

pub mod collect;
pub mod encoding;
pub mod export;
pub mod order;
pub mod pipeline;
pub mod reading;
pub mod remote;

pub use collect::{collect_records, ExportRecord, FailedFetch, FetchError, FetchOutcome};
pub use encoding::encode_key;
pub use export::{format_views, render_table};
pub use pipeline::{export_table, output_destination, DestinationError};
pub use remote::Credential;
