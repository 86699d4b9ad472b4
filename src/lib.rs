//! Client-side core of an append-only segment store: the shared segment and
//! offset types, the byte-stream read/write surface, the per-segment writer and
//! the decisions of the segment and stream reactors, the reader-group
//! coordination state, and the versioned table map's requests and replies.
//! A segment and a table segment held in memory stand in for the server.
pub mod assoc;
pub mod byte_stream;
pub mod in_memory_segment;
pub mod in_memory_table;
pub mod reactor;
pub mod reader_group_state;
pub mod segment_writer;
pub mod shared;
pub mod stream_reactor;
pub mod tablemap;
