pub mod game;
pub mod scoring;

pub use game::CodeBreaker;
pub use game::CodeMaker;
pub use game::Game;
pub use scoring::Code;
pub use scoring::CodePeg;
pub use scoring::Score;
pub use scoring::ScorePeg;
pub use scoring::Scorer;
pub use scoring::SIZE;
