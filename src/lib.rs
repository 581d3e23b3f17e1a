pub mod fixed;
pub mod vector;
pub mod affine;
pub mod sdf;
pub mod trace;
pub mod scene;
pub mod camera;
pub mod render;
