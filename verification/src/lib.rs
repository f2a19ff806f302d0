//! Utilities around a 3D engine: a fly camera controller, a light manager,
//! mesh assembly for glTF models and an embedded egui render target.
//!
//! Everything that decides something lives here and is verified; the parts
//! that talk to the GPU, the window or the file system are left to the caller.

pub mod flycamera;
pub mod order;
pub mod light;
pub mod model_load;
pub mod egui;

pub use flycamera::FlyCamera;
