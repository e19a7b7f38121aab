mod level;
mod level_detail;
mod model;
mod rng;
mod wavefunction;
mod weights;

pub use level::Layer;
pub use level_detail::Dir;
pub use level_detail::LevelDetail;
pub use model::Model;
pub use wavefunction::WaveFunction;
pub use weights::WeightTable;
