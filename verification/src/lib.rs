pub mod codec;
pub mod laws;
pub mod record;
pub mod stable;
pub mod store;

pub use record::Error;
pub use record::Quiz;
pub use record::QuizPayload;
