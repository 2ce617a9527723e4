pub mod advanced_settlement;
pub mod settlement;
