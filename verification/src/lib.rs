//! An order book for a single instrument: price levels held in ring buffers,
//! bid and ask sides kept in price order, and the book that ties them together.

pub mod order;
pub mod external;
pub mod ring_buffer;
pub mod price_level;
pub mod side;
pub mod market_depth;
pub mod book;
pub mod util;
