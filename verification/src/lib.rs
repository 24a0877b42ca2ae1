//! A solver for a five-letter word-guessing puzzle played against colored
//! per-letter feedback. Given a dictionary of candidate words and a sequence
//! of feedback rounds, it narrows the candidate set to the words consistent
//! with all feedback received so far, ranks candidates by a letter-frequency
//! heuristic, and can simulate whole games against a known target word under
//! two guessing strategies.

pub mod feedback;
pub mod filter;
pub mod letters;
pub mod model;
pub mod score;
pub mod sim;

pub use feedback::mimic_user_input;
pub use filter::retain_valid;
pub use filter::word_is_valid;
pub use letters::LetterSet;
pub use model::Model;
pub use model::update_available_letters;
pub use score::FreqTable;
pub use score::UnknownLetterError;
pub use score::letter_counts;
pub use score::rank_words;
pub use score::score_word;
pub use score::score_word_checked;
pub use sim::guess_word;
pub use sim::guess_word_method_2;
