//! Messages between the HTTP API and the matching engine, as the engine
//! reads and writes them. Quantities are whole units, as in the order book.

use vstd::prelude::*;

use crate::orderbook::{Fill, Order, OrderSide};

verus! {

/// A request from the API to the engine.
#[derive(Debug)]
pub enum MessageFromApi {
    CreateOrder { data: CreateOrderData },
    CancelOrder { order_id: String, market: String, user_id: String },
    OnRamp { amount: String, user_id: String, txn_id: String },
    GetDepth { data: GetDepthData },
    GetOpenOrders { data: GetOpenOrdersData },
}

/// The market whose depth is asked for.
#[derive(Debug)]
pub struct GetDepthData {
    pub market: String,
}

/// The user and market whose open orders are asked for.
#[derive(Debug, Clone)]
pub struct GetOpenOrdersData {
    pub user_id: String,
    pub market: String,
}

/// A reply from the engine to the API.
#[derive(Debug)]
pub enum MessageToApi {
    Depth { payload: DepthPayload },
    OrderPlaced { order_id: String, executed_qty: u64, fills: Vec<Fill> },
    OrderCancelled { order_id: String, executed_qty: u64, remaining_qty: u64 },
    OpenOrders { payload: Vec<Order> },
    Error { message: String },
}

/// The depth of a market: `(price, quantity)` rows in decimal.
#[derive(Debug, Clone)]
pub struct DepthPayload {
    pub market: String,
    pub bids: Vec<(String, String)>,
    pub asks: Vec<(String, String)>,
}

/// An order to place, with price and quantity as the client wrote them.
#[derive(Debug, Clone)]
pub struct CreateOrderData {
    pub market: String,
    pub price: String,
    pub quantity: String,
    pub side: OrderSide,
}

} // verus!
