pub mod geometry;
pub mod bounding_volume;
pub mod grid_collision;
pub mod shader;
