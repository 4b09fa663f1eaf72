//! Tracker for recurring cycles: a pure recurrence calculator that derives
//! the current period of a cycle from its start date and interval, and a
//! durable record store that keeps cycle descriptions keyed by random
//! 128-bit identifiers, with bulk export and import.

pub mod cache;
pub mod codec;
pub mod date;
pub mod description;
pub mod ident;

pub use cache::{Database, StoreError};
pub use date::Date;
pub use description::{tags_contain_value, Description, Interval, RenderArgs};
pub use ident::Id;
