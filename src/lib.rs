//! The point buffer behind a Thomas attractor trail: a seeded, append-only
//! sequence of integration steps, grown by a fixed batch every frame and by a
//! larger one while it is below its cap.

mod growth;
mod trail;
pub mod laws;

pub use growth::{blooms, growth_of, BASE_BATCH, BLOOM_BATCH, TRAIL_CAP};
pub use trail::{extends_by, frame_follows, made_by, Trail};
