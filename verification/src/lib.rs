//! The engine of a turbovec-backed Postgres index.
//!
//! * [`segment`]: a segmented, log-structured index that takes inserts and deletes
//!   one at a time, over vector indexes that are built once and queried often. New
//!   vectors go into a small hot segment, which is sealed once it has grown to its
//!   cap. A search asks every segment and merges the answers.
//! * [`segment::store`] and [`segment::opening`]: the durable form of that index.
//!   Sealed segments are files that are written once, and one atomic replacement of
//!   a pointer commits each generation.
//! * [`tid`]: heap pointers as vector ids, so that a hit maps straight back to a row.
//! * [`registry`]: the named indexes of one backend, in terms of rows.
//!
//! What holds of all of this is stated and proved in [`laws`] (the index and its
//! bookkeeping), [`topk`] and [`exactness`] (searches), [`names`], [`manifest`] and
//! [`disk`] (the store). The model that the contracts speak of is in [`state`] and
//! [`fanout`]; what is believed of turbovec itself stands in [`idmap`].
use vstd::prelude::*;

pub mod disk;
pub mod exactness;
pub mod fanout;
pub mod idmap;
pub mod laws;
pub mod manifest;
pub mod names;
pub mod registry;
pub mod score;
pub mod segment;
pub mod state;
pub mod tid;
pub mod tombstones;
pub mod topk;

pub use segment::SegmentedIndex;

verus! {

} // verus!
