//! A log-structured key/value store: the storage engine, its on-disk record
//! format and the binary request/response protocol spoken by its server.
pub mod common;
pub mod engines;
pub mod error;
pub mod server;

pub use common::{
    error_response, generate_response, get_response, parse_response, ping_response,
    scan_response, write_response, Cmd, DelVector, GetCmd, GetVector, PingCmd, RemoveCmd, ScanCmd,
    SetCmd, SetVector,
};
pub use engines::kvs::COMPACTION_THRESHOLD;
pub use engines::names::{log_file_gen, sorted_gen_list};
pub use engines::{KVEngine, KvStore, Segment};
pub use error::KvsError;
pub use server::handle_frame;
