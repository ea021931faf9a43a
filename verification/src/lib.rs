//! Finding the current generation of rotating NEXRAD Level II chunk
//! directories.
//!
//! The real-time bucket reuses volume directories 1 through 999 in a ring.
//! Directories from an earlier trip around the ring can still hold keys, and
//! expired directories leave holes. Every decision here rests on the
//! timestamp in a chunk's name: the newest stamp wins, ring position never
//! does.
//!
//! - `time`: instants as nanoseconds and the live test.
//! - `ring`: the stride gcd, the spread order of a probe wave, neighbors.
//! - `chunk`: chunks, generations and the newest one among volumes.
//! - `listing`: reading volume and chunk listings from their XML events.
//! - `document`: what the listing readers make of documents built from
//!   elements.
//! - `request`: the listing requests a search sends.
//! - `search`: the decisions of a search between listing waves.

pub mod chunk;
pub mod document;
pub mod listing;
pub mod request;
pub mod ring;
pub mod search;
pub mod time;

pub use chunk::{generation, keep_newest, latest_from_chunks, Chunk, Found};
pub use listing::{parse_chunk_keys, parse_volumes};
pub use ring::{gcd, neighbor_volumes, spread_ring};
pub use search::{LatestSearch, Probe, SearchStep, StopRule};
pub use time::{moment, stamp_is_live};
