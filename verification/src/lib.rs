pub mod feed;
pub mod keys;
pub mod laws;
pub mod market;
pub mod matching;
pub mod order;
pub mod orderbook;
pub mod statistics;
pub mod text;
pub mod user;
