//! A compact, read-mostly mapping from IP addresses to a datum such as a
//! country code or a continent, built from sorted range records and queried
//! by binary search.
//!
//! - [`index`] holds the table of range starts and the lookup.
//! - [`builder`] makes an index from ranges in ascending order, merging
//!   neighbours of equal value and recording gaps.
//! - [`replay`] states what an index holds once a builder has taken a
//!   sequence of ranges.
//! - [`database`] loads the indexes of both address families from records.
//! - [`text`] reads address literals, [`data`] and [`region`] the values.
//! - [`codec`] is the byte form of a database.
//! - [`table`] lists the countries with their regions.

pub mod addr;
pub mod builder;
pub mod codec;
pub mod data;
pub mod database;
pub mod error;
pub mod index;
pub mod region;
pub mod replay;
pub mod table;
pub mod text;
