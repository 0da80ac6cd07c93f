//! Streaming of terrain tiles and camera geometry for rendering aerial views.
//!
//! The ground is cut into cells of one kilometre a side. A view from a
//! camera above a cell needs the tiles around it, each at the resolution
//! that the camera resolves there; the tiles are stitched so that their
//! meshes meet, and a batch of views is ordered so that terrain is loaded
//! as seldom as possible.
//!
//! All geometry is in whole numbers: world points in millimetres, pixels in
//! thousandths of a pixel. Contracts state results exactly, rounding
//! included.

pub mod array;
pub mod camera;
pub mod config;
pub mod coords;
pub mod dataset;
pub mod gridsquare;
pub mod lod;
pub mod renderer;
pub mod seams;
pub mod terraingrid;
