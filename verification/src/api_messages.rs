//! Messages between the HTTP API and the matching engine, as the API
//! writes and reads them, and the API's request parameters.
//! The engine's quantities are kept as the decimal text of its numbers.

use vstd::prelude::*;

pub use crate::orderbook::OrderSide;

verus! {

/// A reply from the engine, as the API reads it.
#[derive(Debug)]
#[allow(non_camel_case_types)]
pub enum MessageFromOrderbook {
    DEPTH { payload: DepthPayload },
    ORDER_PLACED { payload: OrderPlacedPayload },
    ORDER_CANCELLED { payload: OrderCancelledPayload },
    OpenOrders { payload: Vec<OpenOrder> },
    ERROR { message: String },
}

/// The depth of a market: `[price, quantity]` rows.
#[derive(Debug, Clone)]
pub struct DepthPayload {
    pub market: String,
    pub bids: Vec<[String; 2]>,
    pub asks: Vec<[String; 2]>,
}

/// One fill of a placed order.
#[derive(Debug, Clone)]
pub struct Fill {
    pub order_id: Option<String>,
    pub other_user_id: Option<String>,
    pub price: String,
    pub qty: String,
    pub trade_id: i64,
}

/// What became of a placed order.
#[derive(Debug, Clone)]
pub struct OrderPlacedPayload {
    pub order_id: String,
    pub executed_qty: String,
    pub fills: Vec<Fill>,
}

/// What became of a cancelled order.
#[derive(Debug, Clone)]
pub struct OrderCancelledPayload {
    pub order_id: String,
    pub executed_qty: String,
    pub remaining_qty: String,
}

/// An open order of the user.
#[derive(Debug, Clone)]
pub struct OpenOrder {
    pub order_id: String,
    pub filled: String,
    pub price: String,
    pub quantity: String,
    pub side: OrderSide,
    pub user_id: String,
}

/// A request to the engine.
#[derive(Debug)]
pub enum MessageToEngine {
    CreateOrder { data: CreateOrderData },
    CancelOrder { data: CancelOrderData },
    OnRamp { data: OnRampData },
    GetDepth { data: GetDepthData },
    GetOpenOrders { data: GetOpenOrdersData },
}

/// An order to place, with price and quantity as the client wrote them.
#[derive(Debug, Clone)]
pub struct CreateOrderData {
    pub market: String,
    pub price: String,
    pub quantity: String,
    pub side: OrderSide,
}

/// An order to cancel.
#[derive(Debug, Clone)]
pub struct CancelOrderData {
    pub order_id: String,
    pub market: String,
    pub user_id: String,
}

/// Funds credited to a user.
#[derive(Debug, Clone)]
pub struct OnRampData {
    pub amount: String,
    pub user_id: String,
    pub txn_id: String,
}

/// The market whose depth is asked for.
#[derive(Debug, Clone)]
pub struct GetDepthData {
    pub market: String,
}

/// The market and user whose open orders are asked for.
#[derive(Debug, Clone)]
pub struct GetOpenOrdersData {
    pub market: String,
    pub user_id: String,
}

/// The market named in the path of a depth request.
#[derive(Debug, Clone)]
pub struct MarketPath {
    pub market: String,
}

/// The market named in the query of an open-orders request.
#[derive(Debug, Clone)]
pub struct OpenOrdersQuery {
    pub market: String,
}

} // verus!
