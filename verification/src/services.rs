//! The API's order and depth services: the engine request each route makes,
//! and the HTTP reply it gives for the engine's answer or for a failure to
//! reach the engine.

use vstd::prelude::*;
use vstd::string::StringExecFns;

use crate::api_messages::{
    CancelOrderData,
    CreateOrderData,
    GetDepthData,
    GetOpenOrdersData,
    MessageFromOrderbook,
    MessageToEngine,
};
use crate::engine_exchange::EngineRequest;

verus! {

/// The engine requests of the order routes.
pub struct OrderService;

impl OrderService {
    /// The request for `user_id`'s open orders in `market`.
    pub fn get_open_orders(user_id: String, market: String) -> (r: EngineRequest)
        ensures
            r.user_id == user_id,
            r.message == (MessageToEngine::GetOpenOrders {
                data: GetOpenOrdersData { market, user_id },
            }),
    {
        let data = GetOpenOrdersData { market, user_id: user_id.clone() };
        EngineRequest { user_id, message: MessageToEngine::GetOpenOrders { data } }
    }

    /// The request to cancel an order, made for `user_id`.
    pub fn cancel_order(user_id: String, data: CancelOrderData) -> (r: EngineRequest)
        ensures
            r.user_id == user_id,
            r.message == (MessageToEngine::CancelOrder { data }),
    {
        EngineRequest { user_id, message: MessageToEngine::CancelOrder { data } }
    }

    /// The request to place an order, made for `user_id`.
    pub fn create_order(user_id: String, data: CreateOrderData) -> (r: EngineRequest)
        ensures
            r.user_id == user_id,
            r.message == (MessageToEngine::CreateOrder { data }),
    {
        EngineRequest { user_id, message: MessageToEngine::CreateOrder { data } }
    }
}

/// The request for the depth of `market`, made for `user_id`.
pub fn fetch_depth(market: String, user_id: String) -> (r: EngineRequest)
    ensures
        r.user_id == user_id,
        r.message == (MessageToEngine::GetDepth { data: GetDepthData { market } }),
{
    EngineRequest { user_id, message: MessageToEngine::GetDepth { data: GetDepthData { market } } }
}

/// The routes that ask the engine.
#[derive(Debug, Clone, Copy, PartialEq, Eq, Structural)]
pub enum EngineRoute {
    Depth,
    OpenOrders,
    CancelOrder,
    CreateOrder,
}

/// The body of a route's reply: the engine's answer as JSON, a JSON object
/// with an `error` text, a plain text, or nothing.
#[derive(Debug)]
pub enum ReplyBody {
    Engine(MessageFromOrderbook),
    ErrorJson(String),
    Text(String),
    Nothing,
}

/// An HTTP reply: its status and body.
#[derive(Debug)]
pub struct RouteReply {
    pub status: u16,
    pub body: ReplyBody,
}

/// The reply of a route: 200 with the engine's answer; 500 when the engine
/// could not be reached, with the route's own account of the `error`.
pub fn engine_reply(route: EngineRoute, outcome: Result<MessageFromOrderbook, String>) -> (r:
    RouteReply)
    ensures
        match outcome {
            Ok(m) => r.status == 200 && r.body == ReplyBody::Engine(m),
            Err(e) => r.status == 500 && match route {
                EngineRoute::Depth => r.body is Nothing,
                EngineRoute::OpenOrders => r.body matches ReplyBody::ErrorJson(t) && t@
                    == "Failed to get open orders: "@ + e@,
                EngineRoute::CancelOrder => r.body matches ReplyBody::ErrorJson(t) && t@
                    == "Failed to cancel order: "@ + e@,
                EngineRoute::CreateOrder => r.body matches ReplyBody::Text(t) && t@
                    == "Failed to create order"@,
            },
        },
{
    match outcome {
        Ok(m) => RouteReply { status: 200, body: ReplyBody::Engine(m) },
        Err(e) => {
            let body = match route {
                EngineRoute::Depth => ReplyBody::Nothing,
                EngineRoute::OpenOrders => ReplyBody::ErrorJson(
                    <String as StringExecFns>::from_str("Failed to get open orders: ").concat(
                        e.as_str(),
                    ),
                ),
                EngineRoute::CancelOrder => ReplyBody::ErrorJson(
                    <String as StringExecFns>::from_str("Failed to cancel order: ").concat(
                        e.as_str(),
                    ),
                ),
                EngineRoute::CreateOrder => ReplyBody::Text(
                    <String as StringExecFns>::from_str("Failed to create order"),
                ),
            };
            RouteReply { status: 500, body }
        },
    }
}

} // verus!
