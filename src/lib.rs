//! Folds a flat, level-annotated table (such as a bill-of-materials flat file, where each row
//! carries a "level") into a forest of nodes, and flattens that forest into assembly records
//! and parent/child entry records.
//!
//! For example, in the table
//!
//! | num | name | level |
//! |-----|------|-------|
//! | Foo | Foo  | 1     |
//! | Bar | Bar  | 2     |
//! | Baz | Baz  | 1     |
//!
//! "Foo" and "Baz" are top-level items and "Bar" is a child of "Foo".
//!
//! The entry points are [`transform::transform`] and
//! [`materialize::ItemSyncFormat::format_item_sync`].

pub mod common;
pub mod csv_error;
pub mod data;
pub mod error;
pub mod error_details;
pub mod materialize;
pub mod ordered_level_key;
pub mod rules;
pub mod transform;
pub mod value;
