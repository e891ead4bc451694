pub mod tree;
pub mod order;
pub mod split;
pub mod parallel;
pub mod bvh;
pub mod layout;
