//! An adversarial word-guessing engine: the answer is never fixed, the pool of
//! candidate words is narrowed after every guess so that the guesser learns as
//! little as possible.

pub mod filter;
pub mod language;
pub mod laws;
pub mod mask;
pub mod ranker;
pub mod session;
pub mod text;

pub use crate::language::Language;
pub use crate::ranker::Word;
pub use crate::session::App;
pub use crate::session::GameView;
