pub mod matching_engine;
pub mod orderbook;
