//! A canonical range map: a total function from `i32` keys to `char` values,
//! stored as a default value plus a sorted sequence of boundary points where
//! the value changes.  Range overwrites merge, split and drop boundary points
//! so that the representation never holds redundant information.

pub mod bound;
pub mod iterators;
pub mod laws;
pub mod node;
pub mod rangemap;

pub use crate::bound::Bound;
pub use crate::bound::Point;
pub use crate::bound::is_valid_range;
pub use crate::iterators::Iter;
pub use crate::node::Node;
pub use crate::rangemap::RangeMap;
pub use crate::rangemap::RangeMap as SectionMap;
