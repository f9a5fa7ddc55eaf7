//! The verified core of a path-tracing renderer: the resolution catalog, the pixel
//! buffer and its layout, the schedule of a render pass, the depth to which paths
//! are followed, and the protocol between the caller and the render worker.

pub mod frame;
pub mod hittable;
pub mod params;
pub mod pass;
pub mod random;
pub mod renderer;
pub mod resolution;
pub mod scene;
pub mod shading;
pub mod sphere;
pub mod thread;

pub use frame::{Frame, Rgb};
pub use hittable::{Hit, Hittable};
pub use params::{ParamsError, RenderParams};
pub use pass::{FramePass, Progress};
pub use random::CachedRandom;
pub use renderer::{Renderer, RendererUnavailable};
pub use resolution::Resolution;
pub use scene::{Scene, SceneObject};
pub use thread::{RenderThread, RenderThreadCommand, RenderThreadResponse};
