//! A Diplomacy-style simultaneous-movement adjudicator.
//!
//! Orders are submitted one per unit (hold, move, support, convoy) and then
//! resolved together: no order has priority, and the success of one order may
//! depend on the success of others, including genuine paradoxes that are
//! settled by an explicit backup rule.

pub mod board;
pub mod engine;
pub mod laws;
pub mod model;
pub mod parse;
pub mod types;

pub use board::RegionRecord;
pub use board::Stpsyr;
pub use types::Action;
pub use types::AdjustAction;
pub use types::EngineError;
pub use types::Power;
pub use types::Province;
pub use types::RetreatAction;
pub use types::Unit;
pub use types::UnitType;
