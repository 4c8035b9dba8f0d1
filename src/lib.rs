//! Optimal crafting rotations: a memoised quality search over packed states,
//! a deterministic progress simulator, and the rotation and gear-set drivers
//! that tie them together.

pub mod qual;
pub mod prog;
pub mod search;
pub mod statline;
