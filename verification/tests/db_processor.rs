use exchange::db_processor::{
    order_row, process_message, trade_row, DbMessage, DbWrite, OrderMessage, TradeMessage,
};

fn trade(id: &str) -> TradeMessage {
    TradeMessage {
        id: id.to_string(),
        is_buyer_maker: true,
        price: "100".to_string(),
        quantity: "3".to_string(),
        quote_quantity: "300".to_string(),
        timestamp: 1_700_000_000,
        market: "SOL_USDC".to_string(),
    }
}

fn order(id: &str) -> OrderMessage {
    OrderMessage {
        order_id: id.to_string(),
        executed_qty: "2.5".to_string(),
        market: Some("SOL_USDC".to_string()),
        price: None,
        quantity: Some("4".to_string()),
        side: None,
    }
}

const UUID_TEXT: &str = "a1a2a3a4-b1b2-c1c2-d1d2-d3d4d5d6d7d8";
const UUID_BITS: u128 = 0xa1a2a3a4b1b2c1c2d1d2d3d4d5d6d7d8;

#[test]
fn valid_trade_becomes_its_row() {
    match process_message(DbMessage::TradeAdded(trade(UUID_TEXT))) {
        Some(DbWrite::InsertTrade(row)) => {
            assert_eq!(row.id, UUID_BITS);
            assert!(row.is_buyer_maker);
            assert_eq!(row.price, "100");
            assert_eq!(row.quantity, "3");
            assert_eq!(row.quote_quantity, "300");
            assert_eq!(row.timestamp, 1_700_000_000);
            assert_eq!(row.market, "SOL_USDC");
        }
        other => panic!("unexpected {:?}", other),
    }
}

#[test]
fn valid_order_becomes_its_row_with_empty_defaults() {
    match process_message(DbMessage::OrderUpdate(order("A1A2A3A4B1B2C1C2D1D2D3D4D5D6D7D8"))) {
        Some(DbWrite::InsertOrder(row)) => {
            assert_eq!(row.id, UUID_BITS);
            assert_eq!(row.executed_qty, "2.5");
            assert_eq!(row.market, "SOL_USDC");
            assert_eq!(row.price, "");
            assert_eq!(row.quantity, "4");
            assert_eq!(row.side, "");
        }
        other => panic!("unexpected {:?}", other),
    }
}

#[test]
fn message_with_empty_id_is_skipped() {
    assert!(matches!(process_message(DbMessage::TradeAdded(trade(""))), Some(DbWrite::Skip)));
    assert!(matches!(process_message(DbMessage::OrderUpdate(order(""))), Some(DbWrite::Skip)));
}

#[test]
fn id_that_is_not_a_uuid_is_refused() {
    assert!(process_message(DbMessage::TradeAdded(trade("trade-1"))).is_none());
    assert!(process_message(DbMessage::OrderUpdate(order("1234"))).is_none());
}

#[test]
fn rows_copy_their_message() {
    let t = trade_row(trade("x"), 7);
    assert_eq!(t.id, 7);
    assert_eq!(t.market, "SOL_USDC");
    let o = order_row(order("x"), 9);
    assert_eq!(o.id, 9);
    assert_eq!(o.side, "");
    assert_eq!(o.market, "SOL_USDC");
}
