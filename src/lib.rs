//! The matching core of a limit order book: price levels kept in price
//! priority, FIFO queues within a level, and all-or-nothing crossing of
//! incoming asks against resting bids.

pub mod order;
pub mod queue;
pub mod level;
pub mod book;

pub use order::Order;
pub use queue::Queue;
pub use book::{AddOrderErrors, Book, BookView};
pub use level::{LevelView, PriceLevel, level_wf};
