pub mod entries;
pub mod exchange;
pub mod executions;
pub mod fixmessage;
pub mod fixtag;
pub mod log;
pub mod numparse;
pub mod order;
pub mod orderbook;
pub mod strutil;

pub use exchange::Exchange;
pub use executions::ExecutionList;
pub use fixmessage::FixMessage;
pub use fixtag::FixTag;
pub use log::LogLevel;
pub use log::Logger;
pub use log::format_time;
pub use orderbook::OrderBook;
pub use order::Order;
pub use order::OrderV;
pub use order::Side;
