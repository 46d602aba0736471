//! A persistent key-value store built on an append-only log of records.
//!
//! The library holds the verified logic: the record codec, the in-memory
//! index and the bookkeeping of log segments, compaction planning, the
//! engine marker check and the request dispatch of the server. The program
//! around it performs the file and network I/O that this logic asks for.

pub mod error;
pub mod codec;
pub mod index;
pub mod engine;
pub mod protocol;
pub mod naming;

pub use error::KvsError;
pub use index::CommandPos;
pub use engine::{LogCore, CompactionPlan, read_value, COMPACTION_THRESHOLD};
pub use naming::{log_path, parse_log_name, sort_gen_list};
pub use protocol::{
    check_engine, get_response, handle_request, parse_response, unit_response, KvsEngine,
    KvsRequest, KvsResponse, KvsServer, ThreadPool,
};
pub use codec::{Command, Record, encode_record, decode_record, record_len};
