//! The building blocks of the database: address intervals, sections, the
//! persisted byte format, and layers.
pub mod codec;
pub mod interval;
pub mod layer;
pub mod section;
