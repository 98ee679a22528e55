//! A read-only reference database of countries, states and cities.
//!
//! The store holds three flat arrays that refer to each other by numeric ids
//! and half-open index ranges. It is built once from the nested records of a
//! source, or taken from a binary cache, and then only read: looked up by
//! code, by phone prefix and by name, with names compared after folding to
//! lower-case ASCII.
//!
//! The library does no input or output. It converts, filters, searches, and
//! decides the steps of a load; reading, decoding and writing are the
//! caller's.
//!
//! - [`text`], [`fold`], [`order`]: characters, folding, ordering
//! - [`raw`], [`alias`]: the records of the source and of the side index
//! - [`model`], [`wellformed`]: the store, its model and its invariant
//! - [`convert`]: from the source to the store
//! - [`filter`]: the store narrowed to some countries
//! - [`search`], [`smart`], [`names`]: lookups and the ranked search
//! - [`cache`]: the decisions of loading

pub mod alias;
pub mod cache;
pub mod convert;
pub mod filter;
pub mod fold;
pub mod model;
pub mod names;
pub mod order;
pub mod raw;
pub mod search;
pub mod smart;
pub mod text;
pub mod wellformed;
