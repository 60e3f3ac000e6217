//! The database processor's decisions: which row a trade or order message
//! from the engine becomes, or that it is skipped. Writing the row is the
//! caller's.

use vstd::prelude::*;

verus! {

/// A trade the engine reports.
#[derive(Debug, Clone)]
pub struct TradeMessage {
    pub id: String,
    pub is_buyer_maker: bool,
    pub price: String,
    pub quantity: String,
    pub quote_quantity: String,
    /// Seconds since the Unix epoch, in UTC.
    pub timestamp: i64,
    pub market: String,
}

/// An order update the engine reports; the executed quantity is the decimal
/// text of the engine's number.
#[derive(Debug, Clone)]
pub struct OrderMessage {
    pub order_id: String,
    pub executed_qty: String,
    pub market: Option<String>,
    pub price: Option<String>,
    pub quantity: Option<String>,
    pub side: Option<String>,
}

/// A message for the database processor.
#[derive(Debug, Clone)]
pub enum DbMessage {
    TradeAdded(TradeMessage),
    OrderUpdate(OrderMessage),
}

/// A row of the `trades` table; the id is the UUID's 128 bits.
#[derive(Debug, Clone)]
pub struct TradeRow {
    pub id: u128,
    pub is_buyer_maker: bool,
    pub price: String,
    pub quantity: String,
    pub quote_quantity: String,
    pub timestamp: i64,
    pub market: String,
}

/// A row of the `orders` table, but for its creation time, which is the
/// time of the write.
#[derive(Debug, Clone)]
pub struct OrderRow {
    pub id: u128,
    pub executed_qty: String,
    pub market: String,
    pub price: String,
    pub quantity: String,
    pub side: String,
}

/// What the processor writes for a message.
#[derive(Debug, Clone)]
pub enum DbWrite {
    InsertTrade(TradeRow),
    InsertOrder(OrderRow),
    /// The message fails validation and is dropped.
    Skip,
}

/// What `uuid::Uuid::parse_str` makes of a text: the UUID's 128 bits, read
/// big-endian, or `None` when it refuses the text.
pub uninterp spec fn uuid_parsed(text: Seq<char>) -> Option<u128>;

/// Calls `uuid::Uuid::parse_str` and reads the UUID with `Uuid::as_u128`.
/// Claimed: the result is a function of the text alone.
#[verifier::external_body]
fn parse_uuid(text: &str) -> (r: Option<u128>)
    ensures
        r == uuid_parsed(text@),
{
    match uuid::Uuid::parse_str(text) {
        Ok(u) => Some(u.as_u128()),
        Err(_) => None,
    }
}

/// A text, or the empty text for none.
pub open spec fn or_empty(o: Option<String>) -> Seq<char> {
    match o {
        Some(s) => s@,
        None => Seq::empty(),
    }
}

/// A message is valid when its id is not empty.
pub open spec fn id_is_valid(id: Seq<char>) -> bool {
    id.len() >= 1
}

/// The trade row of `m` under the UUID `id`.
pub open spec fn is_trade_row(row: TradeRow, m: TradeMessage, id: u128) -> bool {
    &&& row.id == id
    &&& row.is_buyer_maker == m.is_buyer_maker
    &&& row.price == m.price
    &&& row.quantity == m.quantity
    &&& row.quote_quantity == m.quote_quantity
    &&& row.timestamp == m.timestamp
    &&& row.market == m.market
}

/// The order row of `m` under the UUID `id`: an absent market, price,
/// quantity or side is stored empty.
pub open spec fn is_order_row(row: OrderRow, m: OrderMessage, id: u128) -> bool {
    &&& row.id == id
    &&& row.executed_qty == m.executed_qty
    &&& row.market@ == or_empty(m.market)
    &&& row.price@ == or_empty(m.price)
    &&& row.quantity@ == or_empty(m.quantity)
    &&& row.side@ == or_empty(m.side)
}

fn text_or_empty(o: Option<String>) -> (s: String)
    ensures
        s@ == or_empty(o),
{
    match o {
        Some(s) => s,
        None => String::new(),
    }
}

/// The row of a trade whose id reads as the UUID `id`.
pub fn trade_row(m: TradeMessage, id: u128) -> (row: TradeRow)
    ensures
        is_trade_row(row, m, id),
{
    TradeRow {
        id,
        is_buyer_maker: m.is_buyer_maker,
        price: m.price,
        quantity: m.quantity,
        quote_quantity: m.quote_quantity,
        timestamp: m.timestamp,
        market: m.market,
    }
}

/// The row of an order update whose id reads as the UUID `id`.
pub fn order_row(m: OrderMessage, id: u128) -> (row: OrderRow)
    ensures
        is_order_row(row, m, id),
{
    OrderRow {
        id,
        executed_qty: m.executed_qty,
        market: text_or_empty(m.market),
        price: text_or_empty(m.price),
        quantity: text_or_empty(m.quantity),
        side: text_or_empty(m.side),
    }
}

/// What to write for a message: a message with an empty id is skipped; a
/// valid one becomes its row. `None` when a valid message's id is not a
/// UUID, which the processor treats as a fatal error.
pub fn process_message(message: DbMessage) -> (r: Option<DbWrite>)
    ensures
        match message {
            DbMessage::TradeAdded(m) => if !id_is_valid(m.id@) {
                r == Some(DbWrite::Skip)
            } else {
                match uuid_parsed(m.id@) {
                    None => r is None,
                    Some(u) => r matches Some(DbWrite::InsertTrade(row)) && is_trade_row(row, m, u),
                }
            },
            DbMessage::OrderUpdate(m) => if !id_is_valid(m.order_id@) {
                r == Some(DbWrite::Skip)
            } else {
                match uuid_parsed(m.order_id@) {
                    None => r is None,
                    Some(u) => r matches Some(DbWrite::InsertOrder(row)) && is_order_row(row, m, u),
                }
            },
        },
{
    match message {
        DbMessage::TradeAdded(m) => {
            if m.id.as_str().is_empty() {
                return Some(DbWrite::Skip);
            }
            match parse_uuid(m.id.as_str()) {
                None => None,
                Some(u) => Some(DbWrite::InsertTrade(trade_row(m, u))),
            }
        },
        DbMessage::OrderUpdate(m) => {
            if m.order_id.as_str().is_empty() {
                return Some(DbWrite::Skip);
            }
            match parse_uuid(m.order_id.as_str()) {
                None => None,
                Some(u) => Some(DbWrite::InsertOrder(order_row(m, u))),
            }
        },
    }
}

} // verus!
