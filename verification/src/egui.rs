//! The egui integration's embedded render target.

use vstd::prelude::*;

verus! {

/// A render target embedded in an egui panel. It holds no state of its own:
/// the GPU resources it paints with live in the egui renderer's callback
/// resources.
pub struct EmbeddedRender {}

} // verus!
