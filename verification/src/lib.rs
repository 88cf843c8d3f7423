//! Storage engine for typed entities and their versioned events.
//!
//! The library holds the engine's data structures, byte formats and rules as
//! functions on plain values. Files, clocks, locks and threads belong to the
//! program around it.

pub mod admission;
pub mod answers;
pub mod behaviour;
pub mod budgets;
pub mod bytes;
pub mod checkpoint;
pub mod checksum;
pub mod codec;
pub mod commit;
pub mod commit_queue;
pub mod consistency;
pub mod copying;
pub mod counting;
pub mod cursor;
pub mod deadline;
pub mod entity;
pub mod entries;
pub mod error;
pub mod history;
pub mod indexes;
pub mod installing;
pub mod keeping;
pub mod key;
pub mod logs;
pub mod maintenance;
pub mod making;
pub mod manifests;
pub mod memory;
pub mod model;
pub mod operation;
pub mod options;
pub mod ordered_map;
pub mod overlay;
pub mod partitions;
pub mod pins;
pub mod plans;
pub mod reader;
pub mod reading;
pub mod rebinding;
pub mod record;
pub mod recovery;
pub mod resources;
pub mod shared;
pub mod snapshot;
pub mod snapshots;
pub mod staging;
pub mod storage;
pub mod table_writer;
pub mod tables;
pub mod text;
pub mod timelines;
pub mod versions;
pub mod walks;
