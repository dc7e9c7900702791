//! A limit order matching engine for one instrument.
//!
//! Prices are integer ticks and sizes are integer lots, so prices are totally
//! ordered and fills are classified exactly.
pub mod laws;
pub mod order;
pub mod orderbook;
pub mod price_level;
pub mod price_levels;

pub use crate::order::{Order, Side};
pub use crate::orderbook::{aggressive, apply_fills, match_order, Match, Matches, OrderBook};
pub use crate::price_level::PriceLevel;
pub use crate::price_levels::PriceLevels;
