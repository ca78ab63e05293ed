//! A small journal: timestamped, categorised entries kept one per line in a
//! flat text file, read back in date order or filtered by category.

mod clock;
pub mod text;
pub mod record;
pub mod store;
pub mod query;
pub mod laws;
