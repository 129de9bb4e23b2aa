//! A pluggable serialization engine for typed samples that travel over a
//! publish-subscribe transport: the wire codec, the key hash, the reader of
//! scattered fragments, the cell that the transport holds for each sample,
//! the identity of a type, and the loans of buffers for writing without a
//! copy. Every function is verified against its contract.
use vstd::prelude::*;

pub mod dds_api;
pub mod error;
pub mod sg_reader;
pub mod value;
pub mod encode;
pub mod decode;
pub mod round_trip;
pub mod key;
pub mod key_hash;
pub mod key_laws;
pub mod sertype;
pub mod sample;
pub mod serdata;
pub mod dds_writer;
pub mod dds_derive;
pub mod derive_laws;
pub mod dds_reader;
pub mod topic_name;
pub mod value_eq;
