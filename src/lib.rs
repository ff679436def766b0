//! A replicated spot-market matching core: price-time priority order books,
//! a symbol registry, a deterministic command state machine, the framing of
//! the segmented Raft log on disk, and the decisions of the Raft node loop.
pub mod amount;
pub mod order;
pub mod symbol;
pub mod orderbook;
pub mod matcher;
pub mod symbol_manager;
pub mod order_processor;
pub mod codec;
pub mod state_codec;
pub mod match_engine;
pub mod service;
pub mod segment;
pub mod log_store;
pub mod node;
pub mod config;
