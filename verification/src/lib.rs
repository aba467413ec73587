//! Line-oriented search with boolean constraints: the verified core of `re`.

pub mod lines;
pub mod engine;
pub mod search;
pub mod args;
pub mod paginate;
pub mod text;
pub mod printer;
pub mod report;
pub mod walk;
pub mod laws;
