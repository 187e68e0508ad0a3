//! An open-addressing hash map in the Swiss style: every slot has a one-byte
//! control tag, and a probe scans the tags a group of thirty-two at a time.
//!
//! The pieces, leaves first:
//!
//! - [`meta`]: the tag byte, which is empty, a tombstone, or occupied with
//!   seven bits of the hash.
//! - [`mask`], [`simd`], [`finder`], [`controller`]: bitmasks over the lanes
//!   of a group; the wide comparisons behind them; the scanners that say
//!   which lanes of a group are of interest; and the controllers that say
//!   when a probe is complete.
//! - [`storage`]: the tag array with its mirrored tail and the payload slots,
//!   and the draining of both.
//! - [`path`], [`find`]: the order in which a probe visits the slots, the
//!   probe driver, and the handle through which every tag is written.
//! - [`table`], [`growth`], [`drain`]: the table, whose operations take the
//!   hash of the key as an argument and are specified for every hash; its
//!   sizing policy; and its drain.
//! - [`map`], [`hashing`]: the map, which asks its hash builder for each
//!   hash and hands it to the table, and says of each lookup which hash and
//!   which comparisons it went by.
//! - [`laws`]: what holds across operations, proved from their contracts.
//!
//! The table promises its results exactly where the hash of a key is the
//! same on every call and `==` on keys is the equality of values; its
//! invariant holds whatever the hashes are. The map promises the results
//! of its lookups exactly where the hash builder gives one hash for the key
//! on every call and the keys compare the same way on every call.

pub mod controller;
pub mod count;
pub mod drain;
pub mod find;
pub mod finder;
pub mod growth;
pub mod hashing;
pub mod hint;
pub mod keyed;
pub mod laws;
pub mod map;
pub mod mask;
pub mod meta;
pub mod path;
pub mod power;
pub mod simd;
pub mod storage;
pub mod table;

pub use crate::drain::Drain;
pub use crate::map::HashMap;
