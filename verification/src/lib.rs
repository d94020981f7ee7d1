//! Paginated reading of a JSONL log that is spread over an active file and the
//! archives that rotation leaves beside it.
//!
//! What is read comes in as values: lines and the events they hold
//! ([`lines`]), directory listings ([`archive`]), a whole directory
//! ([`store`]). The decisions are made here:
//!
//! - [`filter`]: which events a query asks for;
//! - [`scan`], [`page`]: the sliding window that a page is cut from;
//! - [`log_file`]: pages of, and lookups in, a single file;
//! - [`archive`], [`segment`]: which files are archives of the log, and the
//!   order of the stream;
//! - [`cursor`], [`anchor`], [`resolve`]: where a page resumes, also after a
//!   rotation;
//! - [`stream`], [`query`]: pages and lookups across segments;
//! - [`paging`], [`walk`]: what following cursors from page to page gives.
//!
//! Beside the reader stand the identity of files ([`file_id`]), the judgement of
//! platform probes ([`probe`]) and the decoding of shell output
//! ([`shell_output`]).

pub mod anchor;
pub mod archive;
pub mod cursor;
pub mod error;
pub mod event;
pub mod fields;
pub mod file_id;
pub mod filter;
pub mod lines;
pub mod log_file;
pub mod page;
pub mod paging;
pub mod probe;
pub mod query;
pub mod resolve;
pub mod scan;
pub mod segment;
pub mod shell_output;
pub mod store;
pub mod stream;
pub mod text;
pub mod walk;
