//! Messages that the websocket server streams to its clients.

use vstd::prelude::*;

verus! {

/// A ticker update; `e` is always "ticker".
#[derive(Debug, Clone)]
pub struct TickerData {
    pub c: Option<String>,
    pub h: Option<String>,
    pub l: Option<String>,
    pub v: Option<String>,
    pub volume: Option<String>,
    pub s: Option<String>,
    pub id: i64,
    pub e: String,
}

/// A depth update of `[price, quantity]` rows; `e` is always "depth".
#[derive(Debug, Clone)]
pub struct DepthData {
    pub b: Option<Vec<[String; 2]>>,
    pub a: Option<Vec<[String; 2]>>,
    pub e: String,
}

/// A trade; `e` is always "trade".
#[derive(Debug, Clone)]
pub struct TradeData {
    pub e: String,
    pub t: i64,
    pub m: bool,
    pub p: String,
    pub q: String,
    pub s: String,
}

/// The payload of a stream message.
#[derive(Debug, Clone)]
pub enum WsMessageData {
    Ticker(TickerData),
    Depth(DepthData),
    Trade(TradeData),
}

/// A message on a stream.
#[derive(Debug, Clone)]
pub struct WsMessage {
    pub stream: String,
    pub data: WsMessageData,
}

} // verus!
