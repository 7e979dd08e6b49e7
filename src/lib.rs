//! Market-data normalization and replay: canonical events, tick conversion,
//! binary message and frame parsing, the event log and its sparse index,
//! and the replay engine that reads them back.
use vstd::prelude::*;

pub mod bytes_order;
pub mod event;
pub mod tick;
pub mod text;
pub mod numtext;
pub mod num_bytes;
pub mod itch;
pub mod packets;
pub mod codec;
pub mod eventlog;
pub mod index;
pub mod engine;
pub mod printer;
pub mod dashboard;
pub mod proto;
pub mod pipeline;
pub mod csv_ingest;
pub mod synth;

verus! {

} // verus!
