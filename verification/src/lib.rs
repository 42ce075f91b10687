pub mod pattern;
pub mod rng;
pub mod synth;
pub mod tile;
pub mod util;
pub mod wave;

pub use pattern::Pattern;
pub use synth::overlaping;
pub use synth::overlapping;
pub use synth::synthesize;

pub use rng::SeededRng;
pub use tile::Tile;
pub use wave::StepResult;
pub use wave::Wave;
