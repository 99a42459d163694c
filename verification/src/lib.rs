//! Reading, collecting and replaying the chat logs of ccfolia sessions.

pub mod text;
pub mod markers;
pub mod bytes;
pub mod log_parser;
pub mod log_analyser;
pub mod paging;
pub mod ccfolia;
pub mod round_trip;
