//! A limit order book exchange: the matching engine's order book, the
//! messages that flow between the HTTP API, the engine and the websocket
//! server, the websocket subscription registry, and the authentication
//! decisions of the API.

pub mod api_messages;
pub mod auth;
pub mod cookies;
pub mod db_processor;
pub mod decimal;
pub mod engine_exchange;
pub mod engine_messages;
pub mod orderbook;
pub mod price_ladder;
pub mod random_id;
pub mod services;
pub mod subscription_manager;
pub mod user;
pub mod ws_messages;
