pub mod aabb;
pub mod scene;
pub mod triangle;
