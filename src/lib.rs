//! Price history, time-weighted average price and reserve snapshots of a
//! perpetual-futures protocol, with their behaviour proved.
pub mod error;
pub mod price;
pub mod snapshot;
pub mod twap;

pub use error::OracleError;
pub use price::{query_get_previous_price, query_get_price, PriceData, PriceHistory};
pub use snapshot::{ReserveSnapshot, ReserveSnapshotStore};
pub use twap::query_get_twap_price;
