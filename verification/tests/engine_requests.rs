use exchange::api_messages::{
    CancelOrderData, CreateOrderData, MessageFromOrderbook, MessageToEngine, OrderSide,
};
use exchange::engine_exchange::{get_random_client_id, EngineExchange, ExchangeEvent, ExchangeStep};
use exchange::services::{engine_reply, fetch_depth, EngineRoute, OrderService, ReplyBody};

#[test]
fn open_orders_request_names_user_and_market() {
    let r = OrderService::get_open_orders("u1".to_string(), "SOL_USDC".to_string());
    assert_eq!(r.user_id, "u1");
    match r.message {
        MessageToEngine::GetOpenOrders { data } => {
            assert_eq!(data.market, "SOL_USDC");
            assert_eq!(data.user_id, "u1");
        }
        other => panic!("unexpected {:?}", other),
    }
}

#[test]
fn order_requests_carry_their_data() {
    let cancel = CancelOrderData { order_id: "o1".to_string(), market: "M".to_string(), user_id: "u1".to_string() };
    match OrderService::cancel_order("u1".to_string(), cancel).message {
        MessageToEngine::CancelOrder { data } => assert_eq!(data.order_id, "o1"),
        other => panic!("unexpected {:?}", other),
    }
    let create = CreateOrderData {
        market: "M".to_string(),
        price: "100".to_string(),
        quantity: "5".to_string(),
        side: OrderSide::Buy,
    };
    let r = OrderService::create_order("u2".to_string(), create);
    assert_eq!(r.user_id, "u2");
    match r.message {
        MessageToEngine::CreateOrder { data } => {
            assert_eq!(data.price, "100");
            assert_eq!(data.side, OrderSide::Buy);
        }
        other => panic!("unexpected {:?}", other),
    }
    match fetch_depth("M".to_string(), "u3".to_string()).message {
        MessageToEngine::GetDepth { data } => assert_eq!(data.market, "M"),
        other => panic!("unexpected {:?}", other),
    }
}

#[test]
fn engine_answers_are_passed_on_with_ok() {
    let r = engine_reply(EngineRoute::Depth, Ok(MessageFromOrderbook::ERROR { message: "x".to_string() }));
    assert_eq!(r.status, 200);
    assert!(matches!(r.body, ReplyBody::Engine(MessageFromOrderbook::ERROR { .. })));
}

#[test]
fn unreachable_engine_gives_each_route_its_error() {
    let e = || Err("connection refused".to_string());
    let r = engine_reply(EngineRoute::Depth, e());
    assert_eq!(r.status, 500);
    assert!(matches!(r.body, ReplyBody::Nothing));
    match engine_reply(EngineRoute::OpenOrders, e()).body {
        ReplyBody::ErrorJson(t) => assert_eq!(t, "Failed to get open orders: connection refused"),
        other => panic!("unexpected {:?}", other),
    }
    match engine_reply(EngineRoute::CancelOrder, e()).body {
        ReplyBody::ErrorJson(t) => assert_eq!(t, "Failed to cancel order: connection refused"),
        other => panic!("unexpected {:?}", other),
    }
    match engine_reply(EngineRoute::CreateOrder, e()).body {
        ReplyBody::Text(t) => assert_eq!(t, "Failed to create order"),
        other => panic!("unexpected {:?}", other),
    }
}

#[test]
fn reply_channel_is_a_fresh_alphanumeric_id() {
    let a = get_random_client_id();
    let b = get_random_client_id();
    assert_eq!(a.len(), 26);
    assert!(a.chars().all(|c| c.is_ascii_alphanumeric()));
    assert_ne!(a, b);
}

#[test]
fn successful_exchange_subscribes_before_pushing_and_delivers_the_reply() {
    let request = OrderService::get_open_orders("u1".to_string(), "M".to_string());
    let (mut ex, first) = EngineExchange::start(request);
    assert!(matches!(first, ExchangeStep::Connect));
    assert!(matches!(ex.advance(ExchangeEvent::Succeeded), ExchangeStep::Ping));
    let channel = match ex.advance(ExchangeEvent::Succeeded) {
        ExchangeStep::Subscribe { channel } => channel,
        other => panic!("unexpected {:?}", other),
    };
    assert_eq!(channel.len(), 26);
    match ex.advance(ExchangeEvent::Succeeded) {
        ExchangeStep::Push { queue, envelope } => {
            assert_eq!(queue, "messages");
            assert_eq!(envelope.client_id, channel);
            assert_eq!(envelope.user_id, "u1");
            assert!(matches!(envelope.message, MessageToEngine::GetOpenOrders { .. }));
        }
        other => panic!("unexpected {:?}", other),
    }
    assert!(matches!(ex.advance(ExchangeEvent::Succeeded), ExchangeStep::Receive));
    let reply = ExchangeEvent::Received { payload: "{\"type\":\"OpenOrders\",\"payload\":[]}".to_string() };
    assert!(!ex.accepts_event(&ExchangeEvent::Succeeded));
    assert!(ex.accepts_event(&reply));
    match ex.advance(reply) {
        ExchangeStep::Unsubscribe { channel: c } => assert_eq!(c, channel),
        other => panic!("unexpected {:?}", other),
    }
    match ex.advance(ExchangeEvent::Succeeded) {
        ExchangeStep::Deliver { payload } => assert_eq!(payload, "{\"type\":\"OpenOrders\",\"payload\":[]}"),
        other => panic!("unexpected {:?}", other),
    }
    assert!(!ex.accepts_event(&ExchangeEvent::Succeeded));
    assert!(!ex.accepts_event(&ExchangeEvent::Failed));
}

#[test]
fn failed_call_aborts_the_exchange() {
    let (mut ex, _) = EngineExchange::start(fetch_depth("M".to_string(), "u1".to_string()));
    assert!(!ex.accepts_event(&ExchangeEvent::Received { payload: "x".to_string() }));
    assert!(matches!(ex.advance(ExchangeEvent::Succeeded), ExchangeStep::Ping));
    assert!(matches!(ex.advance(ExchangeEvent::Failed), ExchangeStep::Abort));
    assert!(!ex.accepts_event(&ExchangeEvent::Succeeded));
}
