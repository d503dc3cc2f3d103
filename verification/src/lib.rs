pub mod game;
pub mod monte_carlo;
pub mod numeric;
mod rng;
pub mod stats;

pub use game::Game;
pub use game::MAX_ABS_REWARD;
pub use monte_carlo::upper_confidence_bound;
pub use monte_carlo::MctsError;
pub use monte_carlo::MonteCarloTreeNode;
pub use monte_carlo::MonteCarloTreeSearch;
pub use monte_carlo::VanillaMcts;
pub use monte_carlo::MAX_GAMES;
pub use stats::MctsStats;
