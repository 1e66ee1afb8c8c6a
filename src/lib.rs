//! Eager sequence utilities on any finite iterator: collecting into a
//! vector, removing duplicates by equality, and grouping by a key.

pub mod distinct;
pub mod group_by;
pub mod to_vec;

pub use distinct::Distinct;
pub use group_by::GroupBy;
pub use to_vec::ToVec;
