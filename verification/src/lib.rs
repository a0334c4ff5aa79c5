pub mod hashing;
pub mod diff;
pub mod index;
pub mod paths;
pub mod render;
