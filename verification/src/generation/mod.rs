pub mod error;
pub mod legality;
pub mod listing;
pub mod mov;
pub mod new_gen;
pub mod parse;
pub mod safety;
