//! Verified core of a gRPC service that parses WARC archives.

pub mod archive;
pub mod batch;
pub mod benchmark;
mod buffers;
pub mod channel;
pub mod channel_reader;
pub mod config;
pub mod grouping;
pub mod grpc_frame;
pub mod ladder;
pub mod message;
pub mod output;
pub mod parser_run;
pub mod paths;
pub mod raw_service;
pub mod record_events;
pub mod request_body;
pub mod server;
pub mod splitcheck;
pub mod status;
pub mod text;
pub mod warc_service;
pub mod wire;

pub use crate::buffers::{bytes_mut_seq, bytes_seq};
