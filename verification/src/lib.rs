//! The decisions of a wgpu scene renderer, verified: the render graph that
//! orders passes over the resources they read and write, the frame builder that
//! batches instances, what each pass draws, the scene and its hierarchy, the
//! mip chains of image-based lighting, the GPU texture cache, and the GPU-side
//! tables.
use vstd::prelude::*;

pub mod rendergraph;
pub mod renderpass;
pub mod ibl;
pub mod assets;
pub mod framebuilder;
pub mod render_queue;
pub mod world;
pub mod render_objects;
pub mod scene;
pub mod line_builder;
pub mod gpu;
pub mod scene_renderer;
pub mod sync;
pub mod draws;
pub mod texture_cache;
