//! The Tonie Audio Format, read and written.

pub mod boot;
pub mod bytes;
pub mod cli;
pub mod collision;
pub mod convert;
pub mod convert_cmd;
pub mod digest;
pub mod duration;
pub mod header;
pub mod id;
pub mod info_cmd;
pub mod inspect;
pub mod job;
pub mod ogg;
pub mod opus_packet;
pub mod path;
pub mod plan;
pub mod queue;
pub mod reader;
pub mod round_trip;
pub mod text;
pub mod window;
pub mod worker;
pub mod writer;
