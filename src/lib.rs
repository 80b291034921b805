//! Grouping of tabular records by a derived key, set algebra over the groups,
//! and per-group aggregates.
//!
//! A schema (`Ctx`) declares each column's type and, for some columns, a grouping
//! rule. Rows of `(column, text)` pairs become `Record`s with a group key. A
//! `Collection` groups records, held by their position in the caller's list of
//! records, by that key; collections combine by filter, intersection, union and
//! difference, and fold into per-group counts, totals and means.

pub mod attr;
pub mod collection;
pub mod fold;
pub mod laws;
pub mod parse;
pub mod record;
pub mod schema;

pub use attr::{Attr, AttrModel, Fixed};
pub use collection::{Collection, FilterCond, Group};
pub use fold::{FoldOperation, FoldResult};
pub use record::{Record, RecordModel};
pub use schema::{ComponentRule, Ctx, CtxModel, DataError, Interval};
