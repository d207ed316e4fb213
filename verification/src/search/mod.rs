pub mod error;
pub mod transposition;
