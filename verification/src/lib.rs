//! In-memory trading-card inventory ledger.
//!
//! The crate tracks, per owner, how many copies of each card the owner is
//! willing to trade.  A card reference is either printing-agnostic ("any
//! printing of Izzet Charm") or printing-specific ("Izzet Charm from RNA");
//! the ledger groups entries by card name, keeps one entry per chosen
//! printing, and prunes entries whose count reaches zero.  A concurrent
//! store keys one ledger per owner.

pub mod card;
pub mod card_entry;
pub mod decimal;
pub mod error;
pub mod model;
pub mod render;
pub mod store;
pub mod tradelist;
