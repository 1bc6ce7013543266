//! Sizing engine for a row (or column) of resizable panels, called cartons.
//!
//! Lengths are whole units of the embedding application's choosing (`u32`),
//! ratios are millionths of a reference length (`u32`, see [`RATIO_ONE`]),
//! and cartons are identified by `u64` ids. The engine measures nothing and
//! writes nothing itself: the caller hands it the container's size and the
//! live cartons in order, and applies the sizes and offsets it returns.

pub mod error;
pub mod sizon;
pub mod cartons;
pub mod session;
pub mod utils;

pub use error::Error;
pub use sizon::{Sizon, RATIO_ONE};
pub use cartons::{CartonsMap, CartonsMetric, CartonsComplex, Measured, Reconciled};
pub use cartons::resize::{Resized, ResizeRecord, CacheChange, update_style};
pub use session::DragSession;
pub use utils::{size_pos_props, parse_dataset};
