//! Ranked fuzzy search over an index of emoji, and the index's binary form.
//!
//! An [`Index`](index::Index) owns an ordered list of [`Emoji`](emoji::Emoji)
//! records and the locale codes found in the data set. A record holds its
//! character, its names and keyword phrases by locale, and the source of its
//! picture.
//!
//! * [`locale`] picks the entry of a record that serves a requested locale.
//! * [`score`] scores one word of a query against one word of a record, and
//!   [`rank`] sums the scores of a whole query against a whole record.
//! * [`order`] says in which order ranked records stand, and puts them so.
//! * [`index`] searches: it ranks every record and re-orders the list.
//! * [`format`] lays down the stored form of an index byte by byte;
//!   [`encode`] writes it, [`decode`] reads it, and [`roundtrip`] proves that
//!   each undoes the other.
//! * [`block`] compresses, and [`codec`] joins the two: an index to one
//!   compressed block of bytes and back.
//! * [`dataset`] reads the file names and annotations that a data set is
//!   built from, and [`session`] holds what a picker does on each key.
//! * [`text`] compares texts and cuts them into words; [`error`] holds the
//!   errors that the surrounding program reports.
//!
//! Ranks are fixed-point numbers, so that sums are exact and ties are true
//! ties: see [`score`].

pub mod block;
pub mod codec;
pub mod dataset;
pub mod decode;
pub mod emoji;
pub mod encode;
pub mod error;
pub mod format;
pub mod index;
pub mod locale;
pub mod order;
pub mod rank;
pub mod roundtrip;
pub mod score;
pub mod session;
pub mod text;
