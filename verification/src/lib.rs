pub mod decimal;
pub mod orders;
pub mod trading_engine;
pub mod trades_query;
