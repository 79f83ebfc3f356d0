pub mod types;
pub mod level;
pub mod book;
pub mod market;
