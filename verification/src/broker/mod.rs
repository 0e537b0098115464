//! The broker: sessions, subscriptions, retained messages and fan-out.
pub mod broker;
pub mod defaults;
pub mod delivery;
pub mod effects;
pub mod exchange;
pub mod fanout;
pub mod history;
pub mod inbound;
pub mod laws;
pub mod lifecycle;
pub mod requests;
pub mod safety;
pub mod server;
pub mod statics;
pub mod traits;
pub mod tree;
